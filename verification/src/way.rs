use vstd::prelude::*;
use crate::geometry::side_point;
use crate::line::{bresenham_line, line_len, line_point};
use crate::osm::ProcessedNode;

verus! {

/// `v` is a value of `i32`.
pub open spec fn fits_i32(v: int) -> bool {
    i32::MIN <= v <= i32::MAX
}

/// The step from node `a` to node `b` is a pair of `i32` values.
pub open spec fn step_fits(a: ProcessedNode, b: ProcessedNode) -> bool {
    fits_i32(b.x - a.x) && fits_i32(b.z - a.z)
}

/// The step of every segment is a pair of `i32` values.
pub open spec fn segments_fit(nodes: Seq<ProcessedNode>) -> bool {
    forall|s: int| 1 <= s < nodes.len() ==> step_fits(#[trigger] nodes[s - 1], nodes[s])
}

/// The number of blocks on segment `s`, which runs from node `s - 1` to node `s`.
pub open spec fn seg_len(nodes: Seq<ProcessedNode>, s: int) -> int {
    line_len(nodes[s - 1].x as int, nodes[s - 1].z as int, nodes[s].x as int, nodes[s].z as int)
}

/// The `j`-th block of segment `s`.
pub open spec fn seg_point(nodes: Seq<ProcessedNode>, s: int, j: int) -> (int, int) {
    line_point(nodes[s - 1].x as int, nodes[s - 1].z as int, nodes[s].x as int, nodes[s].z as int, j)
}

/// The blocks of segment `s`, in order.
pub open spec fn segment_points(nodes: Seq<ProcessedNode>, s: int) -> Seq<(int, int)> {
    Seq::new(seg_len(nodes, s) as nat, |j: int| seg_point(nodes, s, j))
}

/// The direction of segment `s`.
pub open spec fn seg_dir(nodes: Seq<ProcessedNode>, s: int) -> (int, int) {
    (nodes[s].x - nodes[s - 1].x, nodes[s].z - nodes[s - 1].z)
}

/// The block `w` steps to the left of the direction `dir` from `p`.
pub open spec fn side_of(p: (int, int), dir: (int, int), w: int) -> (int, int) {
    side_point(p.0, p.1, dir.0, dir.1, w)
}

/// How many blocks the segments before segment `s` hold: the running count
/// of blocks where segment `s` starts.
pub open spec fn points_before(nodes: Seq<ProcessedNode>, s: int) -> int
    decreases s,
{
    if s <= 1 {
        0
    } else {
        points_before(nodes, s - 1) + seg_len(nodes, s - 1)
    }
}

/// How many blocks all segments hold together.
pub open spec fn route_len(nodes: Seq<ProcessedNode>) -> int {
    points_before(nodes, nodes.len() as int)
}

/// The running count of blocks never decreases from segment to segment.
pub proof fn lemma_points_before_mono(nodes: Seq<ProcessedNode>, s: int, t: int)
    requires
        s <= t,
    ensures
        0 <= points_before(nodes, s) <= points_before(nodes, t),
    decreases t,
{
    if t > s && t > 1 {
        lemma_points_before_mono(nodes, s, t - 1);
        assert(seg_len(nodes, t - 1) >= 1);
    } else if s > 1 {
        lemma_points_before_mono(nodes, s - 1, s - 1);
        assert(seg_len(nodes, s - 1) >= 1);
    }
}

/// Integer pairs of a list of blocks.
pub open spec fn pairs(pts: Seq<(i32, i32)>) -> Seq<(int, int)> {
    pts.map_values(|p: (i32, i32)| (p.0 as int, p.1 as int))
}

/// The blocks of segment `s` of `nodes`.
pub fn segment_line(nodes: &[ProcessedNode], s: usize) -> (pts: Vec<(i32, i32)>)
    requires
        1 <= s < nodes@.len(),
    ensures
        pairs(pts@) == segment_points(nodes@, s as int),
{
    let prev = &nodes[s - 1];
    let cur = &nodes[s];
    let pts = bresenham_line(prev.x, prev.z, cur.x, cur.z);
    proof {
        assert(pairs(pts@) =~= segment_points(nodes@, s as int));
    }
    pts
}

} // verus!

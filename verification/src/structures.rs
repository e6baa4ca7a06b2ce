use vstd::prelude::*;
use crate::blocks::{CHAIN, IRON_BARS};
use crate::bridges::{node_ground, seg_count, span_len, BridgeConfig, BridgeStructure};
use crate::geometry::side_block;
use crate::osm::{ProcessedNode, ProcessedWay};
use crate::plan::{column, lemma_flatten_next, lemma_flatten_none, push_column, push_spot};
use crate::way::{
    fits_i32, lemma_points_before_mono, pairs, points_before, route_len, seg_dir, seg_len, seg_point,
    segment_line, segment_points, segments_fit, side_of, step_fits,
};
use crate::world::{ground_at, spots, Ground, Placement, Spot, WorldEditor};

verus! {

pub open spec fn clamp(v: int, lo: int, hi: int) -> int {
    if v < lo {
        lo
    } else if v > hi {
        hi
    } else {
        v
    }
}

/// The depth of an arch over a span: a third of the span, rounded to the
/// nearest block and kept between 2 and 6.
pub open spec fn arch_depth(span: int) -> int {
    clamp((2 * span + 3) / 6, 2, 6)
}

/// How far the arch lies below its crown at `pos` blocks into a span:
/// `depth * t^2` for `t = 2 * pos / span - 1`, rounded to the nearest block
/// (halves up). The crown is at midspan, and the arch meets the pillars
/// `depth` blocks lower.
pub open spec fn arch_drop(depth: int, pos: int, span: int) -> int {
    (2 * depth * (2 * pos - span) * (2 * pos - span) + span * span) / (2 * span * span)
}

/// One column of the arch across the deck: the arch block, and one block of
/// thickness above it while that stays below the foundation layer (so not at
/// the crown); nothing where the ground reaches the arch.
pub open spec fn arch_cell(g: Ground, c: BridgeConfig, deck_y: int, arch_y: int, q: (int, int)) -> Seq<Spot> {
    if arch_y > ground_at(g, q.0, q.1) {
        seq![(c.support_block, q.0, arch_y, q.1)] + if arch_y + 1 < deck_y - 1 {
            seq![(c.support_block, q.0, arch_y + 1, q.1)]
        } else {
            Seq::empty()
        }
    } else {
        Seq::empty()
    }
}

/// The arch under one block of the route, between the pillar positions.
pub open spec fn arch_point_plan(
    g: Ground,
    c: BridgeConfig,
    deck_y: int,
    p: (int, int),
    dir: (int, int),
    counter: int,
) -> Seq<Spot> {
    let span = c.support_interval as int;
    let pos = counter % span;
    if 0 < pos < span {
        let arch_y = deck_y - 2 - arch_drop(arch_depth(span), pos, span);
        Seq::new(
            span_len(c.half_width as int),
            |k: int| arch_cell(g, c, deck_y, arch_y, side_of(p, dir, k - c.half_width)),
        ).flatten()
    } else {
        Seq::empty()
    }
}

/// The height of the truss sides above the deck.
pub open spec fn truss_side(c: BridgeConfig, deck_y: int, q: (int, int), counter: int) -> Seq<Spot> {
    if counter % 4 == 0 {
        // Vertical post from deck+1 to deck+3
        column(c.support_block, q.0, q.1, deck_y + 1, deck_y + 4)
    } else {
        // Top chord beam, and cross-bracing at mid-height on every other block
        seq![(c.support_block, q.0, deck_y + 3, q.1)] + if counter % 2 == 0 {
            seq![(IRON_BARS, q.0, deck_y + 2, q.1)]
        } else {
            Seq::empty()
        }
    }
}

/// The truss on both sides of one block of the route, one block beyond the
/// deck edge: a post every 4 blocks, else the top chord.
pub open spec fn truss_point_plan(c: BridgeConfig, deck_y: int, p: (int, int), dir: (int, int), counter: int) -> Seq<Spot> {
    truss_side(c, deck_y, side_of(p, dir, -(c.half_width + 1)), counter) + truss_side(
        c,
        deck_y,
        side_of(p, dir, c.half_width + 1),
        counter,
    )
}

/// The distance between suspension towers.
pub open spec fn tower_interval(c: BridgeConfig) -> int {
    if c.support_interval * 3 >= 12 {
        c.support_interval * 3
    } else {
        12
    }
}

/// How far the main cable hangs above its lowest point at `pos` blocks into
/// a span: `7 * t^2` for `t = 2 * pos / span - 1`, rounded to the nearest
/// block (halves up). The cable hangs lowest at midspan, one block above the
/// deck, and meets the towers at their tops, seven blocks higher.
pub open spec fn cable_rise(pos: int, span: int) -> int {
    (14 * (2 * pos - span) * (2 * pos - span) + span * span) / (2 * span * span)
}

/// Towers, main cables and suspenders at one block of the route.
pub open spec fn suspension_point_plan(
    c: BridgeConfig,
    deck_y: int,
    p: (int, int),
    dir: (int, int),
    counter: int,
) -> Seq<Spot> {
    let ti = tower_interval(c);
    let l = side_of(p, dir, -(c.half_width + 1));
    let r = side_of(p, dir, c.half_width + 1);
    let pos = counter % ti;
    let towers = if counter > 0 && pos == 0 {
        column(c.support_block, l.0, l.1, deck_y + 1, deck_y + 9) + column(
            c.support_block,
            r.0,
            r.1,
            deck_y + 1,
            deck_y + 9,
        )
    } else {
        Seq::empty()
    };
    let cables = if pos > 0 {
        let cable_y = deck_y + 1 + cable_rise(pos, ti);
        seq![(CHAIN, l.0, cable_y, l.1), (CHAIN, r.0, cable_y, r.1)] + if pos % 3 == 0 {
            column(CHAIN, l.0, l.1, deck_y + 2, cable_y) + column(CHAIN, r.0, r.1, deck_y + 2, cable_y)
        } else {
            Seq::empty()
        }
    } else {
        Seq::empty()
    };
    towers + cables
}

/// The detail of a structure type at one block of the route.
pub open spec fn point_detail(
    st: BridgeStructure,
    g: Ground,
    c: BridgeConfig,
    deck_y: int,
    p: (int, int),
    dir: (int, int),
    counter: int,
) -> Seq<Spot> {
    match st {
        BridgeStructure::Arch => arch_point_plan(g, c, deck_y, p, dir, counter),
        BridgeStructure::Truss => truss_point_plan(c, deck_y, p, dir, counter),
        BridgeStructure::Suspension => suspension_point_plan(c, deck_y, p, dir, counter),
        _ => Seq::empty(),
    }
}

pub open spec fn detail_segment_plan(
    st: BridgeStructure,
    g: Ground,
    c: BridgeConfig,
    deck_y: int,
    nodes: Seq<ProcessedNode>,
    s: int,
) -> Seq<Spot> {
    let pts = segment_points(nodes, s);
    Seq::new(
        pts.len(),
        |j: int| point_detail(st, g, c, deck_y, pts[j], seg_dir(nodes, s), points_before(nodes, s) + j),
    ).flatten()
}

/// The detail of a structure type at every block of the route, segment by
/// segment, with the running count of blocks.
pub open spec fn detail_route_plan(
    st: BridgeStructure,
    g: Ground,
    c: BridgeConfig,
    deck_y: int,
    nodes: Seq<ProcessedNode>,
) -> Seq<Spot> {
    Seq::new(
        seg_count(nodes.len() as int),
        |t: int| detail_segment_plan(st, g, c, deck_y, nodes, t + 1),
    ).flatten()
}

/// A parabolic arch under the deck between the support pillars; none where
/// the support interval is below 4.
pub open spec fn arch_plan(g: Ground, c: BridgeConfig, deck_y: int, nodes: Seq<ProcessedNode>) -> Seq<Spot> {
    if c.support_interval < 4 {
        Seq::empty()
    } else {
        detail_route_plan(BridgeStructure::Arch, g, c, deck_y, nodes)
    }
}

/// The height of the arch at the block with running count `counter`.
pub open spec fn arch_y_at(c: BridgeConfig, deck_y: int, counter: int) -> int {
    let span = c.support_interval as int;
    deck_y - 2 - arch_drop(arch_depth(span), counter % span, span)
}

/// The arch stays within the range of `i32`: at every block of the route
/// between two pillar positions, the arch height lies above the bottom of
/// the range, and the half-width can be negated.
pub open spec fn arch_fits(c: BridgeConfig, deck_y: int, nodes: Seq<ProcessedNode>) -> bool {
    c.support_interval >= 4 ==> forall|k: int|
        0 <= k < route_len(nodes) && k % (c.support_interval as int) != 0 ==> c.half_width > i32::MIN
            && #[trigger] arch_y_at(c, deck_y, k) >= i32::MIN
}

/// The inputs under which a structural detail stays within the range of
/// `i32`: every segment step and the running count of blocks are `i32`
/// values, and so is every height that the structure type builds at.
pub open spec fn detail_fits(st: BridgeStructure, c: BridgeConfig, deck_y: int, nodes: Seq<ProcessedNode>) -> bool {
    &&& segments_fit(nodes)
    &&& route_len(nodes) <= i32::MAX
    &&& match st {
        BridgeStructure::Arch => arch_fits(c, deck_y, nodes),
        BridgeStructure::Truss => route_len(nodes) > 0 ==> deck_y + 3 <= i32::MAX,
        BridgeStructure::Suspension => fits_i32(3 * c.support_interval) && (route_len(nodes) > 1 ==> deck_y
            + 8 <= i32::MAX),
        _ => true,
    }
}

fn arch_point_writes(
    plan: &mut Vec<Placement>,
    editor: &WorldEditor,
    config: &BridgeConfig,
    deck_y: i32,
    x: i32,
    z: i32,
    dx: i32,
    dz: i32,
    counter: i64,
)
    requires
        config.support_interval >= 4,
        (counter as int) % (config.support_interval as int) != 0 ==> config.half_width > i32::MIN && arch_y_at(
            *config,
            deck_y as int,
            counter as int,
        ) >= i32::MIN,
        0 <= counter,
    ensures
        spots(final(plan)@) == spots(old(plan)@) + arch_point_plan(
            editor@.ground,
            *config,
            deck_y as int,
            (x as int, z as int),
            (dx as int, dz as int),
            counter as int,
        ),
{
    let ghost start = spots(plan@);
    let ghost g = editor@.ground;
    let span = config.support_interval as i64;
    let pos = counter % span;
    if !(pos > 0 && pos < span) {
        assert(spots(plan@) =~= start + Seq::<Spot>::empty());
        return;
    }
    let third = (2 * span + 3) / 6;
    let depth: i64 = if third < 2 { 2 } else if third > 6 { 6 } else { third };
    let s = span as i128;
    let dev = (2 * pos - span) as i128;
    proof {
        assert(0 < s * s <= 0x4000_0000_0000_0000) by (nonlinear_arith)
            requires
                4 <= s <= 0x8000_0000,
        ;
        assert(0 <= dev * dev <= s * s) by (nonlinear_arith)
            requires
                -s < dev < s,
        ;
    }
    let sq = s * s;
    proof {
        assert(2 * depth * (dev * dev) <= 12 * 0x4000_0000_0000_0000) by (nonlinear_arith)
            requires
                0 <= dev * dev <= 0x4000_0000_0000_0000,
                2 <= depth <= 6,
        ;
    }
    let num = 2 * (depth as i128) * (dev * dev) + sq;
    let drop = num / (2 * sq);
    proof {
        // the drop never exceeds the depth: (2p - s)^2 <= s^2
        assert(num <= (2 * depth + 1) * sq) by (nonlinear_arith)
            requires
                num == 2 * depth * (dev * dev) + sq,
                0 <= dev * dev <= sq,
                2 <= depth <= 6,
        ;
        vstd::arithmetic::div_mod::lemma_div_is_ordered(num as int, (2 * depth + 1) * sq, 2 * sq as int);
        assert((2 * depth + 1) * sq / (2 * sq) <= depth) by (nonlinear_arith)
            requires
                2 <= depth <= 6,
                sq > 0,
        ;
        vstd::arithmetic::div_mod::lemma_div_pos_is_pos(num as int, 2 * sq as int);
        assert(num == 2 * depth * (2 * pos - span) * (2 * pos - span) + span * span) by (nonlinear_arith)
            requires
                num == 2 * depth * (dev * dev) + sq,
                dev == 2 * pos - span,
                sq == s * s,
                s == span,
        ;
        assert(2 * sq == 2 * span * span) by (nonlinear_arith)
            requires
                sq == s * s,
                s == span,
        ;
    }
    proof {
        assert(depth == arch_depth(span as int));
        assert(drop == arch_drop(depth as int, pos as int, span as int));
        assert(pos == (counter as int) % (config.support_interval as int));
    }
    let arch_y = (deck_y as i64 - 2 - drop as i64) as i32;
    let hw = config.half_width as i64;
    let ghost f = |k: int| arch_cell(g, *config, deck_y as int, arch_y as int, side_of((x as int, z as int), (dx as int, dz as int), k - hw));
    proof {
        lemma_flatten_none(f);
    }
    let mut k: i64 = 0;
    while k <= 2 * hw
        invariant
            hw == config.half_width,
            hw > i32::MIN,
            hw >= 0 ==> 0 <= k <= 2 * hw + 1,
            hw < 0 ==> k == 0,
            i32::MIN <= arch_y <= deck_y - 2,
            g == editor@.ground,
            f == (|k: int| arch_cell(g, *config, deck_y as int, arch_y as int, side_of((x as int, z as int), (dx as int, dz as int), k - hw))),
            spots(plan@) == start + Seq::new(k as nat, f).flatten(),
        decreases 2 * hw + 1 - k,
    {
        let q = side_block(x, z, dx, dz, k - hw);
        let ghost before = spots(plan@);
        let ground_y = editor.get_ground_level(q.0, q.1);
        if arch_y > ground_y {
            push_spot(plan, config.support_block, q.0, arch_y, q.1);
            // One block of thickness above the arch curve
            if (arch_y as i64) + 1 < (deck_y as i64) - 1 {
                push_spot(plan, config.support_block, q.0, arch_y + 1, q.1);
            }
        }
        proof {
            assert(spots(plan@) =~= before + f(k as int));
            lemma_flatten_next(f, k as int);
            assert(start + Seq::new(k as nat, f).flatten() + f(k as int) =~= start + Seq::new(
                (k + 1) as nat,
                f,
            ).flatten());
        }
        k = k + 1;
    }
    proof {
        assert(Seq::new(k as nat, f) =~= Seq::new(span_len(hw as int), f));
        assert(arch_y == deck_y - 2 - arch_drop(arch_depth(span as int), pos as int, span as int));
    }
}

fn truss_side_writes(plan: &mut Vec<Placement>, config: &BridgeConfig, deck_y: i32, rx: i32, rz: i32, counter: i64)
    requires
        deck_y + 3 <= i32::MAX,
        0 <= counter,
    ensures
        spots(final(plan)@) == spots(old(plan)@) + truss_side(*config, deck_y as int, (rx as int, rz as int), counter as int),
{
    let ghost start = spots(plan@);
    if counter % 4 == 0 {
        // Vertical post from deck+1 to deck+TRUSS_HEIGHT
        push_column(plan, config.support_block, rx, rz, deck_y as i64 + 1, deck_y as i64 + 4);
    } else {
        // Top chord beam
        push_spot(plan, config.support_block, rx, deck_y + 3, rz);
        // Diagonal cross-bracing at mid-height
        if counter % 2 == 0 {
            push_spot(plan, IRON_BARS, rx, deck_y + 2, rz);
        }
    }
    assert(spots(plan@) =~= start + truss_side(*config, deck_y as int, (rx as int, rz as int), counter as int));
}

fn truss_point_writes(
    plan: &mut Vec<Placement>,
    config: &BridgeConfig,
    deck_y: i32,
    x: i32,
    z: i32,
    dx: i32,
    dz: i32,
    counter: i64,
)
    requires
        deck_y + 3 <= i32::MAX,
        0 <= counter,
    ensures
        spots(final(plan)@) == spots(old(plan)@) + truss_point_plan(
            *config,
            deck_y as int,
            (x as int, z as int),
            (dx as int, dz as int),
            counter as int,
        ),
{
    let ghost start = spots(plan@);
    let reach = config.half_width as i64 + 1;
    let l = side_block(x, z, dx, dz, -reach);
    let r = side_block(x, z, dx, dz, reach);
    truss_side_writes(plan, config, deck_y, l.0, l.1, counter);
    truss_side_writes(plan, config, deck_y, r.0, r.1, counter);
    assert(spots(plan@) =~= start + truss_point_plan(
        *config,
        deck_y as int,
        (x as int, z as int),
        (dx as int, dz as int),
        counter as int,
    ));
}

fn suspension_point_writes(
    plan: &mut Vec<Placement>,
    config: &BridgeConfig,
    deck_y: i32,
    x: i32,
    z: i32,
    dx: i32,
    dz: i32,
    counter: i64,
)
    requires
        counter > 0 ==> deck_y + 8 <= i32::MAX,
        0 <= counter,
    ensures
        spots(final(plan)@) == spots(old(plan)@) + suspension_point_plan(
            *config,
            deck_y as int,
            (x as int, z as int),
            (dx as int, dz as int),
            counter as int,
        ),
{
    let ghost start = spots(plan@);
    let si = config.support_interval as i64;
    let tower_interval: i64 = if si * 3 >= 12 { si * 3 } else { 12 };
    let reach = config.half_width as i64 + 1;
    let l = side_block(x, z, dx, dz, -reach);
    let r = side_block(x, z, dx, dz, reach);
    let pos = counter % tower_interval;
    // Tower pylons
    if counter > 0 && pos == 0 {
        push_column(plan, config.support_block, l.0, l.1, deck_y as i64 + 1, deck_y as i64 + 9);
        push_column(plan, config.support_block, r.0, r.1, deck_y as i64 + 1, deck_y as i64 + 9);
    }
    // Main cable (parabolic, hanging lowest at midspan between towers)
    if pos > 0 {
        let t = tower_interval as i128;
        let dev = (2 * pos - tower_interval) as i128;
        proof {
            assert(0 < t * t <= 0x3_0000_0000 * 0x3_0000_0000) by (nonlinear_arith)
                requires
                    12 <= t <= 0x3_0000_0000,
            ;
            assert(0 <= dev * dev <= t * t) by (nonlinear_arith)
                requires
                    -t < dev < t,
            ;
        }
        let sq = t * t;
        let num = 14 * (dev * dev) + sq;
        let rise = num / (2 * sq);
        proof {
            assert(num <= 15 * sq);
            vstd::arithmetic::div_mod::lemma_div_is_ordered(num as int, 15 * sq, 2 * sq as int);
            assert(15 * sq / (2 * sq) <= 7) by (nonlinear_arith)
                requires
                    sq > 0,
            ;
            vstd::arithmetic::div_mod::lemma_div_pos_is_pos(num as int, 2 * sq as int);
            assert(num == 14 * (2 * pos - tower_interval) * (2 * pos - tower_interval) + tower_interval
                * tower_interval) by (nonlinear_arith)
                requires
                    num == 14 * (dev * dev) + sq,
                    dev == 2 * pos - tower_interval,
                    sq == t * t,
                    t == tower_interval,
            ;
            assert(2 * sq == 2 * tower_interval * tower_interval) by (nonlinear_arith)
                requires
                    sq == t * t,
                    t == tower_interval,
            ;
        }
        let cable_y = (deck_y as i64 + 1 + rise as i64) as i32;
        push_spot(plan, CHAIN, l.0, cable_y, l.1);
        push_spot(plan, CHAIN, r.0, cable_y, r.1);
        // Vertical suspender cables every 3 blocks
        if pos % 3 == 0 {
            push_column(plan, CHAIN, l.0, l.1, deck_y as i64 + 2, cable_y as i64);
            push_column(plan, CHAIN, r.0, r.1, deck_y as i64 + 2, cable_y as i64);
        }
    }
    assert(spots(plan@) =~= start + suspension_point_plan(
        *config,
        deck_y as int,
        (x as int, z as int),
        (dx as int, dz as int),
        counter as int,
    ));
}

/// What the detail at one block of the route needs to stay within `i32`.
pub open spec fn point_detail_fits(st: BridgeStructure, c: BridgeConfig, deck_y: int, counter: int) -> bool {
    match st {
        BridgeStructure::Arch => c.support_interval >= 4 && (counter % (c.support_interval as int) != 0
            ==> c.half_width > i32::MIN && arch_y_at(c, deck_y, counter) >= i32::MIN),
        BridgeStructure::Truss => deck_y + 3 <= i32::MAX,
        BridgeStructure::Suspension => counter > 0 ==> deck_y + 8 <= i32::MAX,
        _ => true,
    }
}

fn point_detail_writes(
    st: BridgeStructure,
    plan: &mut Vec<Placement>,
    editor: &WorldEditor,
    config: &BridgeConfig,
    deck_y: i32,
    x: i32,
    z: i32,
    dx: i32,
    dz: i32,
    counter: i64,
)
    requires
        point_detail_fits(st, *config, deck_y as int, counter as int),
        0 <= counter,
    ensures
        spots(final(plan)@) == spots(old(plan)@) + point_detail(
            st,
            editor@.ground,
            *config,
            deck_y as int,
            (x as int, z as int),
            (dx as int, dz as int),
            counter as int,
        ),
{
    match st {
        BridgeStructure::Arch => arch_point_writes(plan, editor, config, deck_y, x, z, dx, dz, counter),
        BridgeStructure::Truss => truss_point_writes(plan, config, deck_y, x, z, dx, dz, counter),
        BridgeStructure::Suspension => suspension_point_writes(plan, config, deck_y, x, z, dx, dz, counter),
        _ => {
            assert(spots(plan@) =~= spots(old(plan)@) + Seq::<Spot>::empty());
        },
    }
}

pub(crate) fn detail_writes(
    st: BridgeStructure,
    plan: &mut Vec<Placement>,
    editor: &WorldEditor,
    config: &BridgeConfig,
    deck_y: i32,
    nodes: &[ProcessedNode],
)
    requires
        detail_fits(st, *config, deck_y as int, nodes@),
        st == BridgeStructure::Arch ==> config.support_interval >= 4,
    ensures
        spots(final(plan)@) == spots(old(plan)@) + detail_route_plan(
            st,
            editor@.ground,
            *config,
            deck_y as int,
            nodes@,
        ),
{
    let ghost start = spots(plan@);
    let ghost g = editor@.ground;
    let ghost f = |t: int| detail_segment_plan(st, g, *config, deck_y as int, nodes@, t + 1);
    proof {
        lemma_flatten_none(f);
    }
    if nodes.len() == 0 {
        return;
    }
    let mut s: usize = 1;
    let mut counter: i64 = 0;
    while s < nodes.len()
        invariant
            1 <= s <= nodes@.len(),
            detail_fits(st, *config, deck_y as int, nodes@),
            st == BridgeStructure::Arch ==> config.support_interval >= 4,
            g == editor@.ground,
            counter == points_before(nodes@, s as int),
            f == (|t: int| detail_segment_plan(st, g, *config, deck_y as int, nodes@, t + 1)),
            spots(plan@) == start + Seq::new((s - 1) as nat, f).flatten(),
        decreases nodes@.len() - s,
    {
        let pts = segment_line(nodes, s);
        let prev = &nodes[s - 1];
        let cur = &nodes[s];
        proof {
            assert(step_fits(nodes@[s - 1], nodes@[s as int]));
        }
        let dx = cur.x - prev.x;
        let dz = cur.z - prev.z;
        let ghost spts = segment_points(nodes@, s as int);
        let ghost base = counter as int;
        let ghost mid = spots(plan@);
        let ghost h = |j: int| point_detail(st, g, *config, deck_y as int, spts[j], (dx as int, dz as int), base + j);
        proof {
            lemma_flatten_none(h);
            lemma_points_before_mono(nodes@, s + 1, nodes@.len() as int);
            lemma_points_before_mono(nodes@, s as int, s as int);
        }
        let mut j: usize = 0;
        while j < pts.len()
            invariant
                j <= pts@.len(),
                1 <= s < nodes@.len(),
                pairs(pts@) == spts,
                spts == segment_points(nodes@, s as int),
                spts.len() == pts@.len(),
                detail_fits(st, *config, deck_y as int, nodes@),
                st == BridgeStructure::Arch ==> config.support_interval >= 4,
                g == editor@.ground,
                base == points_before(nodes@, s as int),
                0 <= base,
                base + spts.len() <= route_len(nodes@),
                counter == base + j,
                h == (|j: int| point_detail(st, g, *config, deck_y as int, spts[j], (dx as int, dz as int), base + j)),
                spots(plan@) == mid + Seq::new(j as nat, h).flatten(),
            decreases pts@.len() - j,
        {
            let (x, z) = pts[j];
            proof {
                assert(spts[j as int] == (x as int, z as int));
                if st == BridgeStructure::Arch {
                    assert(arch_y_at(*config, deck_y as int, counter as int) == arch_y_at(*config, deck_y as int, counter as int));
                }
            }
            point_detail_writes(st, plan, editor, config, deck_y, x, z, dx, dz, counter);
            proof {
                lemma_flatten_next(h, j as int);
                assert(mid + Seq::new(j as nat, h).flatten() + h(j as int) =~= mid + Seq::new(
                    (j + 1) as nat,
                    h,
                ).flatten());
            }
            counter = counter + 1;
            j = j + 1;
        }
        proof {
            assert(seg_dir(nodes@, s as int) == (dx as int, dz as int));
            assert(Seq::new(spts.len(), h) =~= Seq::new(
                spts.len(),
                |j: int| point_detail(st, g, *config, deck_y as int, spts[j], seg_dir(nodes@, s as int), points_before(nodes@, s as int) + j),
            ));
            assert(spots(plan@) =~= mid + f((s - 1) as int));
            lemma_flatten_next(f, (s - 1) as int);
            assert(start + Seq::new((s - 1) as nat, f).flatten() + f((s - 1) as int) =~= start + Seq::new(
                s as nat,
                f,
            ).flatten());
        }
        s = s + 1;
    }
}

/// Place an arch understructure between support pillars.
/// Creates a parabolic arch curve underneath the bridge deck.
pub fn place_arch_understructure(
    editor: &mut WorldEditor,
    element: &ProcessedWay,
    deck_y: i32,
    config: &BridgeConfig,
)
    requires
        detail_fits(BridgeStructure::Arch, *config, deck_y as int, element.nodes@),
    ensures
        final(editor)@ == old(editor)@.place_all(arch_plan(old(editor)@.ground, *config, deck_y as int, element.nodes@)),
{
    let mut plan: Vec<Placement> = Vec::new();
    if config.support_interval < 4 {
        // Too short for a visible arch
        return;
    }
    detail_writes(BridgeStructure::Arch, &mut plan, editor, config, deck_y, element.nodes.as_slice());
    assert(spots(plan@) =~= arch_plan(editor@.ground, *config, deck_y as int, element.nodes@));
    editor.place_all(plan.as_slice());
}

/// Place truss side bracing along the bridge.
/// Creates vertical posts with a top chord and diagonal cross-bracing.
pub fn place_truss_sides(
    editor: &mut WorldEditor,
    element: &ProcessedWay,
    deck_y: i32,
    config: &BridgeConfig,
)
    requires
        detail_fits(BridgeStructure::Truss, *config, deck_y as int, element.nodes@),
    ensures
        final(editor)@ == old(editor)@.place_all(
            detail_route_plan(BridgeStructure::Truss, old(editor)@.ground, *config, deck_y as int, element.nodes@),
        ),
{
    let mut plan: Vec<Placement> = Vec::new();
    detail_writes(BridgeStructure::Truss, &mut plan, editor, config, deck_y, element.nodes.as_slice());
    assert(spots(plan@) =~= detail_route_plan(BridgeStructure::Truss, editor@.ground, *config, deck_y as int, element.nodes@));
    editor.place_all(plan.as_slice());
}

/// Place suspension bridge towers and draped main cables with vertical suspenders.
pub fn place_suspension_cables(
    editor: &mut WorldEditor,
    element: &ProcessedWay,
    deck_y: i32,
    config: &BridgeConfig,
)
    requires
        detail_fits(BridgeStructure::Suspension, *config, deck_y as int, element.nodes@),
    ensures
        final(editor)@ == old(editor)@.place_all(
            detail_route_plan(BridgeStructure::Suspension, old(editor)@.ground, *config, deck_y as int, element.nodes@),
        ),
{
    let mut plan: Vec<Placement> = Vec::new();
    detail_writes(BridgeStructure::Suspension, &mut plan, editor, config, deck_y, element.nodes.as_slice());
    assert(spots(plan@) =~= detail_route_plan(BridgeStructure::Suspension, editor@.ground, *config, deck_y as int, element.nodes@));
    editor.place_all(plan.as_slice());
}

/// A block of the route with the direction of its segment: `(x, z, dx, dz)`.
pub type RoutePoint = (int, int, int, int);

pub open spec fn segment_route(nodes: Seq<ProcessedNode>, s: int) -> Seq<RoutePoint> {
    Seq::new(
        seg_len(nodes, s) as nat,
        |j: int| (seg_point(nodes, s, j).0, seg_point(nodes, s, j).1, seg_dir(nodes, s).0, seg_dir(nodes, s).1),
    )
}

/// All blocks of the route, segment after segment, each with its direction.
pub open spec fn route_points(nodes: Seq<ProcessedNode>) -> Seq<RoutePoint> {
    Seq::new(seg_count(nodes.len() as int), |t: int| segment_route(nodes, t + 1)).flatten()
}

/// The distance between cable-stayed pylons.
pub open spec fn pylon_interval(c: BridgeConfig) -> int {
    if c.support_interval * 4 >= 16 {
        c.support_interval * 4
    } else {
        16
    }
}

/// How far the stay cables of the pylon at `idx` reach along the route.
pub open spec fn cable_reach(pi: int, total: int, idx: int) -> int {
    let a = pi / 2;
    let b = if a <= total - idx {
        a
    } else {
        total - idx
    };
    if b <= idx {
        b
    } else {
        idx
    }
}

/// The number of even distances `d` with `2 <= d < reach`.
pub open spec fn cable_count(reach: int) -> nat {
    if reach >= 1 {
        ((reach - 1) / 2) as nat
    } else {
        0
    }
}

/// The chain blocks on both sides of a route block at height `y`.
pub open spec fn stay_pair(c: BridgeConfig, y: int, r: RoutePoint) -> Seq<Spot> {
    let l = side_of((r.0, r.1), (r.2, r.3), -(c.half_width + 1));
    let rr = side_of((r.0, r.1), (r.2, r.3), c.half_width + 1);
    seq![(CHAIN, l.0, y, l.1), (CHAIN, rr.0, y, rr.1)]
}

/// The `m`-th pair of stay cables of the pylon at `idx`, `2 + 2m` blocks
/// ahead and behind, lower the farther they reach.
pub open spec fn stay_cables(c: BridgeConfig, deck_y: int, route: Seq<RoutePoint>, idx: int, reach: int, m: int) -> Seq<Spot> {
    let dist = 2 + 2 * m;
    let drop = if 10 * dist / reach >= 1 {
        10 * dist / reach
    } else {
        1
    };
    let cable_y = deck_y + 10 - drop;
    let fwd = if idx + dist <= route.len() - 1 {
        idx + dist
    } else {
        route.len() - 1
    };
    let bwd = if idx - dist >= 0 {
        idx - dist
    } else {
        0
    };
    stay_pair(c, cable_y, route[fwd]) + stay_pair(c, cable_y, route[bwd])
}

/// A pylon pair with its fan of stay cables at every block of the route that
/// lies strictly inside it at a multiple of the pylon interval.
pub open spec fn pylon_plan(c: BridgeConfig, deck_y: int, route: Seq<RoutePoint>, idx: int) -> Seq<Spot> {
    let pi = pylon_interval(c);
    let total = route.len() as int;
    if idx > 0 && idx < total - 1 && idx % pi == 0 {
        let r = route[idx];
        let l = side_of((r.0, r.1), (r.2, r.3), -(c.half_width + 1));
        let rr = side_of((r.0, r.1), (r.2, r.3), c.half_width + 1);
        let reach = cable_reach(pi, total, idx);
        column(c.support_block, l.0, l.1, deck_y + 1, deck_y + 11) + column(
            c.support_block,
            rr.0,
            rr.1,
            deck_y + 1,
            deck_y + 11,
        ) + Seq::new(cable_count(reach), |m: int| stay_cables(c, deck_y, route, idx, reach, m)).flatten()
    } else {
        Seq::empty()
    }
}

/// Pylons and stay cables along the whole route.
pub open spec fn cable_stayed_plan(c: BridgeConfig, deck_y: int, nodes: Seq<ProcessedNode>) -> Seq<Spot> {
    let route = route_points(nodes);
    Seq::new(route.len(), |idx: int| pylon_plan(c, deck_y, route, idx)).flatten()
}

pub open spec fn quads(v: Seq<(i32, i32, i32, i32)>) -> Seq<RoutePoint> {
    v.map_values(|q: (i32, i32, i32, i32)| (q.0 as int, q.1 as int, q.2 as int, q.3 as int))
}

/// Collects all blocks of the route with the direction of their segment.
fn collect_route(nodes: &[ProcessedNode]) -> (all: Vec<(i32, i32, i32, i32)>)
    requires
        segments_fit(nodes@),
        route_len(nodes@) <= i32::MAX,
    ensures
        quads(all@) == route_points(nodes@),
        all@.len() == route_len(nodes@),
{
    let mut all: Vec<(i32, i32, i32, i32)> = Vec::new();
    let ghost f = |t: int| segment_route(nodes@, t + 1);
    proof {
        lemma_flatten_none(f);
    }
    if nodes.len() == 0 {
        assert(quads(all@) =~= route_points(nodes@));
        return all;
    }
    let mut s: usize = 1;
    while s < nodes.len()
        invariant
            1 <= s <= nodes@.len(),
            segments_fit(nodes@),
            route_len(nodes@) <= i32::MAX,
            f == (|t: int| segment_route(nodes@, t + 1)),
            quads(all@) == Seq::new((s - 1) as nat, f).flatten(),
            all@.len() == points_before(nodes@, s as int),
        decreases nodes@.len() - s,
    {
        let pts = segment_line(nodes, s);
        let prev = &nodes[s - 1];
        let cur = &nodes[s];
        proof {
            assert(step_fits(nodes@[s - 1], nodes@[s as int]));
            lemma_points_before_mono(nodes@, s + 1, nodes@.len() as int);
        }
        let dx = cur.x - prev.x;
        let dz = cur.z - prev.z;
        let ghost mid = quads(all@);
        proof {
            assert(pts@.len() == pairs(pts@).len());
            assert(pts@.len() == seg_len(nodes@, s as int));
        }
        let mut j: usize = 0;
        while j < pts.len()
            invariant
                j <= pts@.len(),
                1 <= s < nodes@.len(),
                pairs(pts@) == segment_points(nodes@, s as int),
                pts@.len() == seg_len(nodes@, s as int),
                (dx as int, dz as int) == seg_dir(nodes@, s as int),
                quads(all@) == mid + segment_route(nodes@, s as int).take(j as int),
                all@.len() == points_before(nodes@, s as int) + j,
                points_before(nodes@, s as int) + pts@.len() <= i32::MAX,
            decreases pts@.len() - j,
        {
            let (x, z) = pts[j];
            proof {
                assert(pairs(pts@)[j as int] == (x as int, z as int));
            }
            let ghost prev_all = all@;
            all.push((x, z, dx, dz));
            proof {
                assert(segment_points(nodes@, s as int)[j as int] == seg_point(nodes@, s as int, j as int));
                assert(segment_route(nodes@, s as int)[j as int] == (x as int, z as int, dx as int, dz as int));
                assert(quads(all@) =~= quads(prev_all).push((x as int, z as int, dx as int, dz as int)));
                assert(segment_route(nodes@, s as int).take(j + 1) =~= segment_route(nodes@, s as int).take(j as int).push((x as int, z as int, dx as int, dz as int)));
                assert(quads(all@) =~= mid + segment_route(nodes@, s as int).take(j + 1));
            }
            j = j + 1;
        }
        proof {
            assert(segment_route(nodes@, s as int).take(j as int) =~= f((s - 1) as int));
            lemma_flatten_next(f, (s - 1) as int);
        }
        s = s + 1;
    }
    proof {
        assert(quads(all@) =~= route_points(nodes@));
    }
    all
}

fn stay_pair_writes(plan: &mut Vec<Placement>, config: &BridgeConfig, y: i32, q: (i32, i32, i32, i32))
    ensures
        spots(final(plan)@) == spots(old(plan)@) + stay_pair(
            *config,
            y as int,
            (q.0 as int, q.1 as int, q.2 as int, q.3 as int),
        ),
{
    let ghost start = spots(plan@);
    let reach = config.half_width as i64 + 1;
    let l = side_block(q.0, q.1, q.2, q.3, -reach);
    let r = side_block(q.0, q.1, q.2, q.3, reach);
    push_spot(plan, CHAIN, l.0, y, l.1);
    push_spot(plan, CHAIN, r.0, y, r.1);
    assert(spots(plan@) =~= start + stay_pair(
        *config,
        y as int,
        (q.0 as int, q.1 as int, q.2 as int, q.3 as int),
    ));
}

fn pylon_writes(
    plan: &mut Vec<Placement>,
    config: &BridgeConfig,
    deck_y: i32,
    all: &Vec<(i32, i32, i32, i32)>,
    idx: usize,
)
    requires
        all@.len() > pylon_interval(*config) + 1 ==> deck_y + 10 <= i32::MAX,
        all@.len() <= i32::MAX,
        idx < all@.len(),
    ensures
        spots(final(plan)@) == spots(old(plan)@) + pylon_plan(*config, deck_y as int, quads(all@), idx as int),
{
    let ghost start = spots(plan@);
    let ghost route = quads(all@);
    let si = config.support_interval as i64;
    let pylon_interval: i64 = if si * 4 >= 16 { si * 4 } else { 16 };
    let total = all.len() as i64;
    let block_counter = idx as i64;
    let is_pylon = block_counter > 0 && block_counter < total - 1 && block_counter % pylon_interval == 0;
    if !is_pylon {
        assert(spots(plan@) =~= start + Seq::<Spot>::empty());
        return;
    }
    let q = all[idx];
    proof {
        assert(route[idx as int] == (q.0 as int, q.1 as int, q.2 as int, q.3 as int));
        // a pylon stands at a positive multiple of the interval short of the end
        assert(block_counter >= pylon_interval) by (nonlinear_arith)
            requires
                block_counter > 0,
                pylon_interval > 0,
                block_counter % pylon_interval == 0,
        ;
        assert(deck_y + 10 <= i32::MAX);
    }
    // Pylon towers on both sides
    let reach = config.half_width as i64 + 1;
    let l = side_block(q.0, q.1, q.2, q.3, -reach);
    let r = side_block(q.0, q.1, q.2, q.3, reach);
    push_column(plan, config.support_block, l.0, l.1, deck_y as i64 + 1, deck_y as i64 + 11);
    push_column(plan, config.support_block, r.0, r.1, deck_y as i64 + 1, deck_y as i64 + 11);
    let ghost towers = spots(plan@);
    // Diagonal cables radiating from pylon top to deck
    let half = pylon_interval / 2;
    let a = if half <= total - block_counter { half } else { total - block_counter };
    let reach_len = if a <= block_counter { a } else { block_counter };
    let ghost reach = reach_len as int;
    let ghost f = |m: int| stay_cables(*config, deck_y as int, route, idx as int, reach, m);
    proof {
        lemma_flatten_none(f);
        assert(reach == cable_reach(pylon_interval as int, total as int, idx as int));
    }
    let mut dist: i64 = 2;
    let mut m: i64 = 0;
    while dist < reach_len
        invariant
            deck_y + 10 <= i32::MAX,
            route == quads(all@),
            total == all@.len(),
            total <= i32::MAX,
            1 <= block_counter < total - 1,
            block_counter == idx,
            1 <= reach_len <= block_counter,
            reach_len <= total - block_counter,
            reach == reach_len,
            dist == 2 + 2 * m,
            0 <= m,
            dist <= reach_len + 1,
            f == (|m: int| stay_cables(*config, deck_y as int, route, idx as int, reach, m)),
            spots(plan@) == towers + Seq::new(m as nat, f).flatten(),
        decreases reach_len + 1 - dist,
    {
        let drop = 10 * dist / reach_len;
        let drop = if drop >= 1 { drop } else { 1 };
        proof {
            let num: int = 10 * dist;
            let den: int = reach_len as int;
            vstd::arithmetic::div_mod::lemma_fundamental_div_mod(num, den);
            vstd::arithmetic::div_mod::lemma_mod_bound(num, den);
            assert(0 <= num / den < 10) by (nonlinear_arith)
                requires
                    num == den * (num / den) + num % den,
                    0 <= num % den < den,
                    0 <= num < 10 * den,
            ;
        }
        let cable_y = (deck_y as i64 + 10 - drop) as i32;
        // Forward cable
        let fwd = if block_counter + dist <= total - 1 { block_counter + dist } else { total - 1 };
        let ghost before = spots(plan@);
        if (fwd as usize) < all.len() {
            let fq = all[fwd as usize];
            proof {
                assert(route[fwd as int] == (fq.0 as int, fq.1 as int, fq.2 as int, fq.3 as int));
            }
            stay_pair_writes(plan, config, cable_y, fq);
        }
        // Backward cable
        let bwd = if block_counter - dist >= 0 { block_counter - dist } else { 0 };
        if (bwd as usize) < all.len() {
            let bq = all[bwd as usize];
            proof {
                assert(route[bwd as int] == (bq.0 as int, bq.1 as int, bq.2 as int, bq.3 as int));
            }
            stay_pair_writes(plan, config, cable_y, bq);
        }
        proof {
            assert(spots(plan@) =~= before + f(m as int));
            lemma_flatten_next(f, m as int);
            assert(towers + Seq::new(m as nat, f).flatten() + f(m as int) =~= towers + Seq::new(
                (m + 1) as nat,
                f,
            ).flatten());
        }
        dist = dist + 2;
        m = m + 1;
    }
    proof {
        // the loop ran once for every even distance below the reach
        let c = reach_len - 1;
        if m == 0 {
            assert(c / 2 == 0) by {
                vstd::arithmetic::div_mod::lemma_fundamental_div_mod_converse_div(c as int, 2, 0, c as int);
            }
        } else {
            assert(c == 2 * m || c == 2 * m + 1);
            vstd::arithmetic::div_mod::lemma_fundamental_div_mod_converse_div(c as int, 2, m as int, (c - 2 * m) as int);
        }
        assert(m == cable_count(reach));
        assert(spots(plan@) =~= start + pylon_plan(*config, deck_y as int, route, idx as int));
    }
}

/// Place cable-stayed bridge pylons with fan-shaped diagonal cables.
pub fn place_cable_stayed_structure(
    editor: &mut WorldEditor,
    element: &ProcessedWay,
    deck_y: i32,
    config: &BridgeConfig,
)
    requires
        cable_stayed_fits(*config, deck_y as int, element.nodes@),
    ensures
        final(editor)@ == old(editor)@.place_all(cable_stayed_plan(*config, deck_y as int, element.nodes@)),
{
    let mut plan: Vec<Placement> = Vec::new();
    cable_stayed_writes(&mut plan, config, deck_y, element.nodes.as_slice());
    assert(spots(plan@) =~= cable_stayed_plan(*config, deck_y as int, element.nodes@));
    editor.place_all(plan.as_slice());
}

/// The inputs under which the cable-stayed structure stays within the
/// range of `i32`: the segment steps, the count of blocks, the pylon interval
/// and, where a pylon stands, its top.
pub open spec fn cable_stayed_fits(c: BridgeConfig, deck_y: int, nodes: Seq<ProcessedNode>) -> bool {
    &&& segments_fit(nodes)
    &&& route_len(nodes) <= i32::MAX
    &&& fits_i32(4 * c.support_interval)
    &&& route_len(nodes) > pylon_interval(c) + 1 ==> deck_y + 10 <= i32::MAX
}

pub(crate) fn cable_stayed_writes(plan: &mut Vec<Placement>, config: &BridgeConfig, deck_y: i32, nodes: &[ProcessedNode])
    requires
        cable_stayed_fits(*config, deck_y as int, nodes@),
    ensures
        spots(final(plan)@) == spots(old(plan)@) + cable_stayed_plan(*config, deck_y as int, nodes@),
{
    let ghost start = spots(plan@);
    // Collect all bridge points with their perpendicular vectors
    let all = collect_route(nodes);
    let ghost route = quads(all@);
    let ghost f = |idx: int| pylon_plan(*config, deck_y as int, route, idx);
    proof {
        lemma_flatten_none(f);
    }
    let mut idx: usize = 0;
    while idx < all.len()
        invariant
            idx <= all@.len(),
            cable_stayed_fits(*config, deck_y as int, nodes@),
            route == quads(all@),
            route == route_points(nodes@),
            all@.len() == route_len(nodes@),
            all@.len() <= i32::MAX,
            f == (|idx: int| pylon_plan(*config, deck_y as int, route, idx)),
            spots(plan@) == start + Seq::new(idx as nat, f).flatten(),
        decreases all@.len() - idx,
    {
        pylon_writes(plan, config, deck_y, &all, idx);
        proof {
            lemma_flatten_next(f, idx as int);
            assert(start + Seq::new(idx as nat, f).flatten() + f(idx as int) =~= start + Seq::new(
                (idx + 1) as nat,
                f,
            ).flatten());
        }
        idx = idx + 1;
    }
    proof {
        assert(route.len() == all@.len());
    }
}

/// The `k`-th column of an abutment wall across the end of a bridge, from
/// the local ground up to the deck.
pub open spec fn abutment_column(
    g: Ground,
    c: BridgeConfig,
    deck_y: int,
    end: (int, int),
    dir: (int, int),
    k: int,
) -> Seq<Spot> {
    let q = side_of(end, dir, k - (c.half_width + 1));
    column(c.support_block, q.0, q.1, ground_at(g, q.0, q.1), deck_y + 1)
}

/// The abutment at the end node `end`, whose neighbour on the way is `adj`:
/// a wall perpendicular to the bridge, one block wider than the deck on each
/// side; none where the deck is at most one block above the ground there.
pub open spec fn abutment_end_plan(
    g: Ground,
    c: BridgeConfig,
    deck_y: int,
    end: ProcessedNode,
    adj: ProcessedNode,
) -> Seq<Spot> {
    if deck_y <= node_ground(g, end) + 1 {
        Seq::empty()
    } else {
        Seq::new(
            span_len(c.half_width + 1),
            |k: int| abutment_column(g, c, deck_y, (end.x as int, end.z as int), (end.x - adj.x, end.z - adj.z), k),
        ).flatten()
    }
}

/// Abutments at the first and at the last node.
pub open spec fn abutment_plan(g: Ground, c: BridgeConfig, deck_y: int, nodes: Seq<ProcessedNode>) -> Seq<Spot> {
    if nodes.len() < 2 {
        Seq::empty()
    } else {
        abutment_end_plan(g, c, deck_y, nodes[0], nodes[1]) + abutment_end_plan(
            g,
            c,
            deck_y,
            nodes[nodes.len() - 1],
            nodes[nodes.len() - 2],
        )
    }
}

/// The abutment at `end` stays within the range of `i32`: the ground there
/// lies below the top of the range, and where a wall is built, the
/// half-width lies below it too and the step from `adj` to `end` is a pair of
/// `i32` values.
pub open spec fn abutment_end_fits(g: Ground, c: BridgeConfig, deck_y: int, end: ProcessedNode, adj: ProcessedNode) -> bool {
    &&& node_ground(g, end) < i32::MAX
    &&& deck_y > node_ground(g, end) + 1 ==> c.half_width < i32::MAX && step_fits(adj, end)
}

/// Both abutments stay within the range of `i32`.
pub open spec fn abutments_fit(g: Ground, c: BridgeConfig, deck_y: int, nodes: Seq<ProcessedNode>) -> bool {
    nodes.len() >= 2 ==> abutment_end_fits(g, c, deck_y, nodes[0], nodes[1]) && abutment_end_fits(
        g,
        c,
        deck_y,
        nodes[nodes.len() - 1],
        nodes[nodes.len() - 2],
    )
}

fn abutment_end_writes(
    plan: &mut Vec<Placement>,
    editor: &WorldEditor,
    config: &BridgeConfig,
    deck_y: i32,
    end: &ProcessedNode,
    adj: &ProcessedNode,
)
    requires
        abutment_end_fits(editor@.ground, *config, deck_y as int, *end, *adj),
    ensures
        spots(final(plan)@) == spots(old(plan)@) + abutment_end_plan(editor@.ground, *config, deck_y as int, *end, *adj),
{
    let ghost start = spots(plan@);
    let ghost g = editor@.ground;
    let ground_y = editor.get_ground_level(end.x, end.z);
    if deck_y <= ground_y + 1 {
        // No abutment needed at ground level
        assert(spots(plan@) =~= start + Seq::<Spot>::empty());
        return;
    }
    let dx = end.x - adj.x;
    let dz = end.z - adj.z;
    // Abutment wall perpendicular to bridge direction
    let abutment_width = config.half_width as i64 + 1;
    let ghost f = |k: int| abutment_column(g, *config, deck_y as int, (end.x as int, end.z as int), (end.x - adj.x, end.z - adj.z), k);
    proof {
        lemma_flatten_none(f);
    }
    let mut k: i64 = 0;
    while k <= 2 * abutment_width
        invariant
            abutment_width == config.half_width + 1,
            config.half_width < i32::MAX,
            abutment_width >= 0 ==> 0 <= k <= 2 * abutment_width + 1,
            abutment_width < 0 ==> k == 0,
            dx == end.x - adj.x,
            dz == end.z - adj.z,
            g == editor@.ground,
            f == (|k: int| abutment_column(g, *config, deck_y as int, (end.x as int, end.z as int), (end.x - adj.x, end.z - adj.z), k)),
            spots(plan@) == start + Seq::new(k as nat, f).flatten(),
        decreases 2 * abutment_width + 1 - k,
    {
        let q = side_block(end.x, end.z, dx, dz, k - abutment_width);
        let local_ground = editor.get_ground_level(q.0, q.1);
        let ghost before = spots(plan@);
        push_column(plan, config.support_block, q.0, q.1, local_ground as i64, deck_y as i64 + 1);
        proof {
            assert(spots(plan@) =~= before + f(k as int));
            lemma_flatten_next(f, k as int);
            assert(start + Seq::new(k as nat, f).flatten() + f(k as int) =~= start + Seq::new(
                (k + 1) as nat,
                f,
            ).flatten());
        }
        k = k + 1;
    }
    proof {
        assert(Seq::new(k as nat, f) =~= Seq::new(span_len(config.half_width + 1), f));
    }
}

pub(crate) fn abutment_writes(
    plan: &mut Vec<Placement>,
    editor: &WorldEditor,
    config: &BridgeConfig,
    deck_y: i32,
    nodes: &[ProcessedNode],
)
    requires
        abutments_fit(editor@.ground, *config, deck_y as int, nodes@),
    ensures
        spots(final(plan)@) == spots(old(plan)@) + abutment_plan(editor@.ground, *config, deck_y as int, nodes@),
{
    let ghost start = spots(plan@);
    let n = nodes.len();
    if n < 2 {
        assert(spots(plan@) =~= start + Seq::<Spot>::empty());
        return;
    }
    abutment_end_writes(plan, editor, config, deck_y, &nodes[0], &nodes[1]);
    abutment_end_writes(plan, editor, config, deck_y, &nodes[n - 1], &nodes[n - 2]);
    assert(spots(plan@) =~= start + abutment_plan(editor@.ground, *config, deck_y as int, nodes@));
}

/// Place bridge abutments (retaining walls) at the start and end of a bridge.
pub fn place_bridge_abutments(
    editor: &mut WorldEditor,
    element: &ProcessedWay,
    deck_y: i32,
    config: &BridgeConfig,
)
    requires
        abutments_fit(old(editor)@.ground, *config, deck_y as int, element.nodes@),
    ensures
        final(editor)@ == old(editor)@.place_all(abutment_plan(old(editor)@.ground, *config, deck_y as int, element.nodes@)),
{
    let mut plan: Vec<Placement> = Vec::new();
    abutment_writes(&mut plan, editor, config, deck_y, element.nodes.as_slice());
    assert(spots(plan@) =~= abutment_plan(editor@.ground, *config, deck_y as int, element.nodes@));
    editor.place_all(plan.as_slice());
}

} // verus!

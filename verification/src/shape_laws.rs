use vstd::prelude::*;
use crate::blocks::{
    CHAIN, COBBLESTONE_WALL, IRON_BARS, LIGHT_GRAY_CONCRETE, OAK_FENCE, OAK_LOG, OAK_PLANKS,
    STONE_BRICKS, STONE_BRICK_WALL,
};
use crate::bridges::{
    bridge_deck_y, bridge_plan, bridge_type_of, config_from_tags, deck_plan, deck_point_plan, deck_row,
    deck_segment_plan, is_bridge, material_blocks, node_ground, pillar_plan, railing_pair, railings_plan,
    seg_count, span_len, structure_of, BridgeConfig, BridgeStructure,
};
use crate::laws::lemma_flatten_contains;
use crate::osm::{tag, ProcessedNode};
use crate::plan::column;
use crate::structures::{
    abutment_column, abutment_end_plan, abutment_plan, arch_cell, arch_depth, arch_drop, arch_plan,
    arch_point_plan, cable_count, cable_reach, cable_rise, cable_stayed_plan, stay_cables, stay_pair,
    detail_route_plan, detail_segment_plan, point_detail, pylon_interval, pylon_plan, route_points,
    suspension_point_plan, tower_interval,
};
use crate::way::{points_before, seg_dir, seg_len, seg_point, segment_points, side_of};
use crate::world::{ground_at, Ground, Spot};

verus! {

// ---------------------------------------------------------------------------
// Membership in plans
// ---------------------------------------------------------------------------

/// An item of a concatenation is an item of one of its parts, and each item
/// of either part is one of the concatenation.
pub proof fn lemma_add_contains<A>(a: Seq<A>, b: Seq<A>, x: A)
    ensures
        (a + b).contains(x) <==> a.contains(x) || b.contains(x),
{
    if a.contains(x) {
        let i = choose|i: int| 0 <= i < a.len() && a[i] == x;
        assert((a + b)[i] == x);
    }
    if b.contains(x) {
        let i = choose|i: int| 0 <= i < b.len() && b[i] == x;
        assert((a + b)[a.len() + i] == x);
    }
    if (a + b).contains(x) {
        let k = choose|k: int| 0 <= k < (a + b).len() && (a + b)[k] == x;
        if k < a.len() {
            assert(a[k] == x);
        } else {
            assert(b[k - a.len()] == x);
        }
    }
}

/// The items of a two-item sequence.
pub proof fn lemma_pair_contains<A>(a: A, b: A, x: A)
    ensures
        seq![a, b].contains(x) <==> x == a || x == b,
{
    if x == a {
        assert(seq![a, b][0] == x);
    }
    if x == b {
        assert(seq![a, b][1] == x);
    }
}

/// A column holds its block at exactly the heights from `lo` up to below
/// `hi`, and nothing elsewhere.
pub proof fn lemma_column_contains(block: crate::blocks::Block, x: int, z: int, lo: int, hi: int, s: Spot)
    ensures
        column(block, x, z, lo, hi).contains(s) <==> (s.0 == block && s.1 == x && s.3 == z && lo <= s.2
            < hi),
{
    let col = column(block, x, z, lo, hi);
    if s.0 == block && s.1 == x && s.3 == z && lo <= s.2 < hi {
        assert(col[s.2 - lo] == s);
    }
    if col.contains(s) {
        let i = choose|i: int| 0 <= i < col.len() && col[i] == s;
        assert(col[i] == (block, x, lo + i, z));
    }
}

/// A write of a structural detail at one block of the route is a write of
/// that detail along the whole route.
pub proof fn lemma_detail_route_contains(
    st: BridgeStructure,
    g: Ground,
    c: BridgeConfig,
    deck_y: int,
    nodes: Seq<ProcessedNode>,
    s: int,
    j: int,
    x: Spot,
)
    requires
        1 <= s < nodes.len(),
        0 <= j < seg_len(nodes, s),
        point_detail(st, g, c, deck_y, seg_point(nodes, s, j), seg_dir(nodes, s), points_before(nodes, s) + j).contains(x),
    ensures
        detail_route_plan(st, g, c, deck_y, nodes).contains(x),
{
    let pts = segment_points(nodes, s);
    let f = |jj: int| point_detail(st, g, c, deck_y, pts[jj], seg_dir(nodes, s), points_before(nodes, s) + jj);
    assert(pts[j] == seg_point(nodes, s, j));
    let i = choose|i: int| 0 <= i < f(j).len() && #[trigger] f(j)[i] == x;
    lemma_flatten_contains(f, pts.len() as int, j, i);
    let seg = detail_segment_plan(st, g, c, deck_y, nodes, s);
    let k = choose|k: int| 0 <= k < seg.len() && seg[k] == x;
    let h = |t: int| detail_segment_plan(st, g, c, deck_y, nodes, t + 1);
    assert(h(s - 1) == seg);
    lemma_flatten_contains(h, seg_count(nodes.len() as int) as int, s - 1, k);
}

// ---------------------------------------------------------------------------
// Configuration
// ---------------------------------------------------------------------------

/// The configuration of each recognised `bridge=*` value, and of any other
/// value or a missing tag: its width, pillar interval and railings; its
/// blocks unless a recognised `bridge:material` replaces them; its structure
/// unless a recognised `bridge:structure` replaces it.
pub proof fn lemma_bridge_type_configs(tags: Map<Seq<char>, Seq<char>>)
    ensures
        ({
            let c = config_from_tags(tags);
            let t = bridge_type_of(tags);
            let plain = match tag(tags, "bridge:material"@) {
                Some(m) => material_blocks(m) is None,
                None => true,
            };
            let keeps = match tag(tags, "bridge:structure"@) {
                Some(st) => structure_of(st) is None,
                None => true,
            };
            &&& c.has_railings
            &&& t == "aqueduct"@ ==> c.support_interval == 6 && c.half_width == 2 && (plain ==> c.deck_block
                == STONE_BRICKS && c.railing_block == STONE_BRICK_WALL && c.support_block == STONE_BRICKS)
                && (keeps ==> c.structure_type == BridgeStructure::Arch)
            &&& t == "boardwalk"@ ==> c.support_interval == 4 && c.half_width == 1 && (plain ==> c.deck_block
                == OAK_PLANKS && c.railing_block == OAK_FENCE && c.support_block == OAK_LOG) && (keeps
                ==> c.structure_type == BridgeStructure::Beam)
            &&& t == "viaduct"@ ==> c.support_interval == 6 && c.half_width == 3 && (plain ==> c.deck_block
                == STONE_BRICKS && c.railing_block == STONE_BRICK_WALL && c.support_block == STONE_BRICKS)
                && (keeps ==> c.structure_type == BridgeStructure::Arch)
            &&& t == "covered"@ ==> c.support_interval == 5 && c.half_width == 2 && (plain ==> c.deck_block
                == OAK_PLANKS && c.railing_block == OAK_PLANKS && c.support_block == OAK_LOG) && (keeps
                ==> c.structure_type == BridgeStructure::Beam)
            &&& (t != "aqueduct"@ && t != "boardwalk"@ && t != "viaduct"@ && t != "covered"@) ==> c.support_interval
                == 8 && c.half_width == 2 && (plain ==> c.deck_block == LIGHT_GRAY_CONCRETE && c.railing_block
                == COBBLESTONE_WALL && c.support_block == STONE_BRICKS) && (keeps ==> c.structure_type
                == BridgeStructure::Beam)
        }),
{
    reveal_strlit("aqueduct");
    reveal_strlit("boardwalk");
    reveal_strlit("viaduct");
    reveal_strlit("covered");
    assert("covered"@.len() == 7);
    assert("aqueduct"@.len() == 8);
    assert("covered"@ != "aqueduct"@);
    assert("covered"@ != "boardwalk"@ && "covered"@[0] != "boardwalk"@[0]);
    assert("covered"@[0] != "viaduct"@[0]);
    assert("covered"@ != "viaduct"@);
    assert("viaduct"@ != "aqueduct"@);
    assert("viaduct"@[0] != "boardwalk"@[0]);
    assert("viaduct"@ != "boardwalk"@);
    assert("boardwalk"@ != "aqueduct"@);
}

// ---------------------------------------------------------------------------
// Truss
// ---------------------------------------------------------------------------

/// A truss runs along both sides of every block of the route, one block
/// beyond the deck edge: the top chord three blocks above the deck at every
/// block, a post from the deck up to the chord at every fourth block of the
/// running count, and iron bars at mid-height at the other even blocks.
pub proof fn lemma_truss_sides(
    g: Ground,
    c: BridgeConfig,
    deck_y: int,
    nodes: Seq<ProcessedNode>,
    s: int,
    j: int,
    w: int,
)
    requires
        1 <= s < nodes.len(),
        0 <= j < seg_len(nodes, s),
        w == c.half_width + 1 || w == -(c.half_width + 1),
    ensures
        ({
            let k = points_before(nodes, s) + j;
            let q = side_of(seg_point(nodes, s, j), seg_dir(nodes, s), w);
            let plan = detail_route_plan(BridgeStructure::Truss, g, c, deck_y, nodes);
            &&& plan.contains((c.support_block, q.0, deck_y + 3, q.1))
            &&& k % 4 == 0 ==> plan.contains((c.support_block, q.0, deck_y + 1, q.1)) && plan.contains(
                (c.support_block, q.0, deck_y + 2, q.1),
            )
            &&& k % 4 != 0 && k % 2 == 0 ==> plan.contains((IRON_BARS, q.0, deck_y + 2, q.1))
        }),
{
    let k = points_before(nodes, s) + j;
    let p = seg_point(nodes, s, j);
    let dir = seg_dir(nodes, s);
    let q = side_of(p, dir, w);
    let l = side_of(p, dir, -(c.half_width + 1));
    let r = side_of(p, dir, c.half_width + 1);
    let side = crate::structures::truss_side(c, deck_y, q, k);
    let pp = point_detail(BridgeStructure::Truss, g, c, deck_y, p, dir, k);
    assert(pp == crate::structures::truss_side(c, deck_y, l, k) + crate::structures::truss_side(c, deck_y, r, k));
    // every item of this side's truss is an item of the block's truss
    assert forall|x: Spot| side.contains(x) implies detail_route_plan(BridgeStructure::Truss, g, c, deck_y, nodes).contains(x) by {
        lemma_add_contains(
            crate::structures::truss_side(c, deck_y, l, k),
            crate::structures::truss_side(c, deck_y, r, k),
            x,
        );
        if w == c.half_width + 1 {
            assert(q == r);
        } else {
            assert(q == l);
        }
        assert(pp.contains(x));
        lemma_detail_route_contains(BridgeStructure::Truss, g, c, deck_y, nodes, s, j, x);
    }
    let plan = detail_route_plan(BridgeStructure::Truss, g, c, deck_y, nodes);
    let chord = (c.support_block, q.0, deck_y + 3, q.1);
    if k % 4 == 0 {
        let low = (c.support_block, q.0, deck_y + 1, q.1);
        let mid = (c.support_block, q.0, deck_y + 2, q.1);
        lemma_column_contains(c.support_block, q.0, q.1, deck_y + 1, deck_y + 4, chord);
        lemma_column_contains(c.support_block, q.0, q.1, deck_y + 1, deck_y + 4, low);
        lemma_column_contains(c.support_block, q.0, q.1, deck_y + 1, deck_y + 4, mid);
        assert(side.contains(chord) && side.contains(low) && side.contains(mid));
        assert(plan.contains(chord) && plan.contains(low) && plan.contains(mid));
    } else {
        assert(side[0] == chord);
        assert(side.contains(chord));
        assert(plan.contains(chord));
        if k % 2 == 0 {
            let bars = (IRON_BARS, q.0, deck_y + 2, q.1);
            assert(side[1] == bars);
            assert(side.contains(bars));
            assert(plan.contains(bars));
        }
    }
}

// ---------------------------------------------------------------------------
// Suspension
// ---------------------------------------------------------------------------

/// The two sides of a suspension bridge mirror each other. At one block of
/// the route, a side carries chain at height `y` exactly where the main
/// cable runs (past a tower position), where a suspender hangs from the
/// deck up to the cable (at every third block of the span), or where a
/// tower stands that is itself built of chain; the same heights on the left
/// and on the right.
pub proof fn lemma_suspension_symmetric(
    c: BridgeConfig,
    deck_y: int,
    p: (int, int),
    dir: (int, int),
    counter: int,
    w: int,
    y: int,
)
    requires
        counter >= 0,
        w == c.half_width + 1 || w == -(c.half_width + 1),
    ensures
        ({
            let ti = tower_interval(c);
            let pos = counter % ti;
            let q = side_of(p, dir, w);
            let cable_y = deck_y + 1 + cable_rise(pos, ti);
            suspension_point_plan(c, deck_y, p, dir, counter).contains((CHAIN, q.0, y, q.1)) <==> ((pos > 0
                && (y == cable_y || (pos % 3 == 0 && deck_y + 2 <= y < cable_y))) || (c.support_block
                == CHAIN && counter > 0 && pos == 0 && deck_y + 1 <= y < deck_y + 9))
        }),
{
    let ti = tower_interval(c);
    let pos = counter % ti;
    let q = side_of(p, dir, w);
    let l = side_of(p, dir, -(c.half_width + 1));
    let r = side_of(p, dir, c.half_width + 1);
    let x = (CHAIN, q.0, y, q.1);
    let cable_y = deck_y + 1 + cable_rise(pos, ti);
    if w == c.half_width + 1 {
        assert(q == r);
    } else {
        assert(q == l);
    }
    let towers = if counter > 0 && pos == 0 {
        column(c.support_block, l.0, l.1, deck_y + 1, deck_y + 9) + column(
            c.support_block,
            r.0,
            r.1,
            deck_y + 1,
            deck_y + 9,
        )
    } else {
        Seq::empty()
    };
    let hangers = if pos % 3 == 0 {
        column(CHAIN, l.0, l.1, deck_y + 2, cable_y) + column(CHAIN, r.0, r.1, deck_y + 2, cable_y)
    } else {
        Seq::empty()
    };
    let cables = if pos > 0 {
        seq![(CHAIN, l.0, cable_y, l.1), (CHAIN, r.0, cable_y, r.1)] + hangers
    } else {
        Seq::empty()
    };
    assert(suspension_point_plan(c, deck_y, p, dir, counter) == towers + cables);
    lemma_add_contains(towers, cables, x);
    if counter > 0 && pos == 0 {
        lemma_add_contains(
            column(c.support_block, l.0, l.1, deck_y + 1, deck_y + 9),
            column(c.support_block, r.0, r.1, deck_y + 1, deck_y + 9),
            x,
        );
        lemma_column_contains(c.support_block, l.0, l.1, deck_y + 1, deck_y + 9, x);
        lemma_column_contains(c.support_block, r.0, r.1, deck_y + 1, deck_y + 9, x);
    } else {
        assert(!towers.contains(x));
    }
    if pos > 0 {
        lemma_add_contains(seq![(CHAIN, l.0, cable_y, l.1), (CHAIN, r.0, cable_y, r.1)], hangers, x);
        lemma_pair_contains((CHAIN, l.0, cable_y, l.1), (CHAIN, r.0, cable_y, r.1), x);
        if pos % 3 == 0 {
            lemma_add_contains(
                column(CHAIN, l.0, l.1, deck_y + 2, cable_y),
                column(CHAIN, r.0, r.1, deck_y + 2, cable_y),
                x,
            );
            lemma_column_contains(CHAIN, l.0, l.1, deck_y + 2, cable_y, x);
            lemma_column_contains(CHAIN, r.0, r.1, deck_y + 2, cable_y, x);
        } else {
            assert(!hangers.contains(x));
        }
    } else {
        assert(!cables.contains(x));
    }
}

/// Along the whole route of a suspension bridge, both sides carry the main
/// cable past every tower position and the suspenders at every third block
/// of each span, and the towers stand on both sides at every positive
/// multiple of the tower interval, eight blocks high.
pub proof fn lemma_suspension_route(
    g: Ground,
    c: BridgeConfig,
    deck_y: int,
    nodes: Seq<ProcessedNode>,
    s: int,
    j: int,
    w: int,
    y: int,
)
    requires
        1 <= s < nodes.len(),
        0 <= j < seg_len(nodes, s),
        w == c.half_width + 1 || w == -(c.half_width + 1),
    ensures
        ({
            let k = points_before(nodes, s) + j;
            let ti = tower_interval(c);
            let pos = k % ti;
            let q = side_of(seg_point(nodes, s, j), seg_dir(nodes, s), w);
            let cable_y = deck_y + 1 + cable_rise(pos, ti);
            let plan = detail_route_plan(BridgeStructure::Suspension, g, c, deck_y, nodes);
            &&& pos > 0 && (y == cable_y || (pos % 3 == 0 && deck_y + 2 <= y < cable_y)) ==> plan.contains(
                (CHAIN, q.0, y, q.1),
            )
            &&& k > 0 && pos == 0 && deck_y + 1 <= y <= deck_y + 8 ==> plan.contains((c.support_block, q.0, y, q.1))
        }),
{
    let k = points_before(nodes, s) + j;
    crate::way::lemma_points_before_mono(nodes, s, s);
    let ti = tower_interval(c);
    let pos = k % ti;
    let p = seg_point(nodes, s, j);
    let dir = seg_dir(nodes, s);
    let q = side_of(p, dir, w);
    let cable_y = deck_y + 1 + cable_rise(pos, ti);
    let pp = suspension_point_plan(c, deck_y, p, dir, k);
    assert(point_detail(BridgeStructure::Suspension, g, c, deck_y, p, dir, k) == pp);
    if pos > 0 && (y == cable_y || (pos % 3 == 0 && deck_y + 2 <= y < cable_y)) {
        lemma_suspension_symmetric(c, deck_y, p, dir, k, w, y);
        lemma_detail_route_contains(BridgeStructure::Suspension, g, c, deck_y, nodes, s, j, (CHAIN, q.0, y, q.1));
    }
    if k > 0 && pos == 0 && deck_y + 1 <= y <= deck_y + 8 {
        let l = side_of(p, dir, -(c.half_width + 1));
        let r = side_of(p, dir, c.half_width + 1);
        let x = (c.support_block, q.0, y, q.1);
        let towers = column(c.support_block, l.0, l.1, deck_y + 1, deck_y + 9) + column(
            c.support_block,
            r.0,
            r.1,
            deck_y + 1,
            deck_y + 9,
        );
        if w == c.half_width + 1 {
            assert(q == r);
        } else {
            assert(q == l);
        }
        lemma_add_contains(
            column(c.support_block, l.0, l.1, deck_y + 1, deck_y + 9),
            column(c.support_block, r.0, r.1, deck_y + 1, deck_y + 9),
            x,
        );
        lemma_column_contains(c.support_block, l.0, l.1, deck_y + 1, deck_y + 9, x);
        lemma_column_contains(c.support_block, r.0, r.1, deck_y + 1, deck_y + 9, x);
        assert(towers.contains(x));
        assert(pp == towers + Seq::<Spot>::empty());
        lemma_add_contains(towers, Seq::<Spot>::empty(), x);
        lemma_detail_route_contains(BridgeStructure::Suspension, g, c, deck_y, nodes, s, j, x);
    }
}

// ---------------------------------------------------------------------------
// Abutments
// ---------------------------------------------------------------------------

/// Each abutment wall stands on the ground: at an end where the deck lies
/// more than one block above the ground, every column of the wall, from
/// `half_width + 1` blocks to one side to as many to the other, is filled
/// from the ground under that column itself up to the deck.
pub proof fn lemma_abutment_reaches_ground(
    g: Ground,
    c: BridgeConfig,
    deck_y: int,
    nodes: Seq<ProcessedNode>,
    e: int,
    a: int,
    k: int,
    y: int,
)
    requires
        nodes.len() >= 2,
        (e == 0 && a == 1) || (e == nodes.len() - 1 && a == nodes.len() - 2),
        deck_y > node_ground(g, nodes[e]) + 1,
        0 <= k <= 2 * (c.half_width + 1),
    ensures
        ({
            let end = nodes[e];
            let adj = nodes[a];
            let q = side_of((end.x as int, end.z as int), (end.x - adj.x, end.z - adj.z), k - (c.half_width + 1));
            ground_at(g, q.0, q.1) <= y <= deck_y ==> abutment_plan(g, c, deck_y, nodes).contains(
                (c.support_block, q.0, y, q.1),
            )
        }),
{
    let end = nodes[e];
    let adj = nodes[a];
    let q = side_of((end.x as int, end.z as int), (end.x - adj.x, end.z - adj.z), k - (c.half_width + 1));
    let x = (c.support_block, q.0, y, q.1);
    if ground_at(g, q.0, q.1) <= y <= deck_y {
        let f = |kk: int| abutment_column(g, c, deck_y, (end.x as int, end.z as int), (end.x - adj.x, end.z - adj.z), kk);
        let col = column(c.support_block, q.0, q.1, ground_at(g, q.0, q.1), deck_y + 1);
        assert(f(k) == col);
        lemma_column_contains(c.support_block, q.0, q.1, ground_at(g, q.0, q.1), deck_y + 1, x);
        let i = choose|i: int| 0 <= i < col.len() && col[i] == x;
        assert(f(k)[i] == x);
        lemma_flatten_contains(f, span_len(c.half_width + 1) as int, k, i);
        let part = abutment_end_plan(g, c, deck_y, end, adj);
        assert(part == Seq::new(span_len(c.half_width + 1), f).flatten());
        let first = abutment_end_plan(g, c, deck_y, nodes[0], nodes[1]);
        let last = abutment_end_plan(g, c, deck_y, nodes[nodes.len() - 1], nodes[nodes.len() - 2]);
        lemma_add_contains(first, last, x);
    }
}

// ---------------------------------------------------------------------------
// Cable-stayed structures and the standalone bridge
// ---------------------------------------------------------------------------

/// A cable-stayed bridge has a pylon on both sides at every block of the
/// route strictly inside it at a multiple of the pylon interval, ten blocks
/// high above the deck.
pub proof fn lemma_cable_stayed_pylons(
    c: BridgeConfig,
    deck_y: int,
    nodes: Seq<ProcessedNode>,
    idx: int,
    w: int,
    dy: int,
)
    requires
        0 < idx < route_points(nodes).len() - 1,
        idx % pylon_interval(c) == 0,
        w == c.half_width + 1 || w == -(c.half_width + 1),
        1 <= dy <= 10,
    ensures
        ({
            let r = route_points(nodes)[idx];
            let q = side_of((r.0, r.1), (r.2, r.3), w);
            cable_stayed_plan(c, deck_y, nodes).contains((c.support_block, q.0, deck_y + dy, q.1))
        }),
{
    let route = route_points(nodes);
    let rp = route[idx];
    let q = side_of((rp.0, rp.1), (rp.2, rp.3), w);
    let l = side_of((rp.0, rp.1), (rp.2, rp.3), -(c.half_width + 1));
    let r = side_of((rp.0, rp.1), (rp.2, rp.3), c.half_width + 1);
    let x = (c.support_block, q.0, deck_y + dy, q.1);
    let cl = column(c.support_block, l.0, l.1, deck_y + 1, deck_y + 11);
    let cr = column(c.support_block, r.0, r.1, deck_y + 1, deck_y + 11);
    let pp = pylon_plan(c, deck_y, route, idx);
    let stays = pp.subrange((cl + cr).len() as int, pp.len() as int);
    assert(pp == (cl + cr) + stays);
    if w == c.half_width + 1 {
        assert(q == r);
    } else {
        assert(q == l);
    }
    lemma_column_contains(c.support_block, l.0, l.1, deck_y + 1, deck_y + 11, x);
    lemma_column_contains(c.support_block, r.0, r.1, deck_y + 1, deck_y + 11, x);
    lemma_add_contains(cl, cr, x);
    lemma_add_contains(cl + cr, stays, x);
    let f = |i: int| pylon_plan(c, deck_y, route, i);
    let t = choose|t: int| 0 <= t < pp.len() && pp[t] == x;
    assert(f(idx)[t] == x);
    lemma_flatten_contains(f, route.len() as int, idx, t);
}

/// A standalone bridge carries exactly the structural detail that the
/// placement function of its structure type writes: the arch, the truss, the
/// suspension cables or the cable stays, between its deck and its abutments,
/// and nothing between them for a beam bridge.
pub proof fn lemma_bridge_structure_detail(g: Ground, tags: Map<Seq<char>, Seq<char>>, nodes: Seq<ProcessedNode>)
    requires
        is_bridge(tags),
        nodes.len() >= 2,
    ensures
        ({
            let c = config_from_tags(tags);
            let d = bridge_deck_y(g, tags, nodes);
            let deck = deck_plan(g, c, d, nodes);
            let ends = abutment_plan(g, c, d, nodes);
            let plan = bridge_plan(g, tags, nodes);
            &&& c.structure_type == BridgeStructure::Arch ==> plan == deck + arch_plan(g, c, d, nodes) + ends
            &&& c.structure_type == BridgeStructure::Truss ==> plan == deck + detail_route_plan(
                BridgeStructure::Truss,
                g,
                c,
                d,
                nodes,
            ) + ends
            &&& c.structure_type == BridgeStructure::Suspension ==> plan == deck + detail_route_plan(
                BridgeStructure::Suspension,
                g,
                c,
                d,
                nodes,
            ) + ends
            &&& c.structure_type == BridgeStructure::CableStayed ==> plan == deck + cable_stayed_plan(c, d, nodes)
                + ends
            &&& c.structure_type == BridgeStructure::Beam ==> plan == deck + ends
        }),
{
    let c = config_from_tags(tags);
    let d = bridge_deck_y(g, tags, nodes);
    if c.structure_type == BridgeStructure::Beam {
        assert(deck_plan(g, c, d, nodes) + Seq::<Spot>::empty() =~= deck_plan(g, c, d, nodes));
    }
}

/// A standalone cable-stayed bridge has its pylons: on both sides of every
/// block of the route strictly inside it at a multiple of the pylon
/// interval, ten blocks above the deck.
pub proof fn lemma_bridge_has_pylons(
    g: Ground,
    tags: Map<Seq<char>, Seq<char>>,
    nodes: Seq<ProcessedNode>,
    idx: int,
    w: int,
    dy: int,
)
    requires
        is_bridge(tags),
        nodes.len() >= 2,
        config_from_tags(tags).structure_type == BridgeStructure::CableStayed,
        0 < idx < route_points(nodes).len() - 1,
        idx % pylon_interval(config_from_tags(tags)) == 0,
        w == config_from_tags(tags).half_width + 1 || w == -(config_from_tags(tags).half_width + 1),
        1 <= dy <= 10,
    ensures
        ({
            let c = config_from_tags(tags);
            let d = bridge_deck_y(g, tags, nodes);
            let r = route_points(nodes)[idx];
            let q = side_of((r.0, r.1), (r.2, r.3), w);
            bridge_plan(g, tags, nodes).contains((c.support_block, q.0, d + dy, q.1))
        }),
{
    let c = config_from_tags(tags);
    let d = bridge_deck_y(g, tags, nodes);
    let r = route_points(nodes)[idx];
    let q = side_of((r.0, r.1), (r.2, r.3), w);
    let x = (c.support_block, q.0, d + dy, q.1);
    lemma_cable_stayed_pylons(c, d, nodes, idx, w, dy);
    lemma_bridge_structure_detail(g, tags, nodes);
    let deck = deck_plan(g, c, d, nodes);
    let detail = cable_stayed_plan(c, d, nodes);
    let ends = abutment_plan(g, c, d, nodes);
    lemma_add_contains(deck, detail, x);
    lemma_add_contains(deck + detail, ends, x);
}

// ---------------------------------------------------------------------------
// Deck, railings, pillars, arch
// ---------------------------------------------------------------------------

/// A write of the deck at one block of the route is a write of the deck
/// along the whole route.
pub proof fn lemma_deck_route_contains(
    g: Ground,
    c: BridgeConfig,
    deck_y: int,
    nodes: Seq<ProcessedNode>,
    s: int,
    j: int,
    x: Spot,
)
    requires
        1 <= s < nodes.len(),
        0 <= j < seg_len(nodes, s),
        deck_point_plan(g, c, deck_y, seg_point(nodes, s, j), points_before(nodes, s) + j).contains(x)
            || (c.has_railings && railings_plan(c, deck_y, segment_points(nodes, s), seg_dir(nodes, s)).contains(x)),
    ensures
        deck_plan(g, c, deck_y, nodes).contains(x),
{
    let pts = segment_points(nodes, s);
    let f = |jj: int| deck_point_plan(g, c, deck_y, pts[jj], points_before(nodes, s) + jj);
    let body = Seq::new(pts.len(), f).flatten();
    let rails = if c.has_railings {
        railings_plan(c, deck_y, pts, seg_dir(nodes, s))
    } else {
        Seq::empty()
    };
    let seg = deck_segment_plan(g, c, deck_y, nodes, s);
    assert(seg == body + rails);
    assert(pts[j] == seg_point(nodes, s, j));
    if f(j).contains(x) {
        let i = choose|i: int| 0 <= i < f(j).len() && #[trigger] f(j)[i] == x;
        lemma_flatten_contains(f, pts.len() as int, j, i);
    }
    lemma_add_contains(body, rails, x);
    let k = choose|k: int| 0 <= k < seg.len() && seg[k] == x;
    let h = |t: int| deck_segment_plan(g, c, deck_y, nodes, t + 1);
    assert(h(s - 1) == seg);
    lemma_flatten_contains(h, seg_count(nodes.len() as int) as int, s - 1, k);
}

/// The deck covers the full width at every block of the route: the deck
/// block at `deck_y` and the foundation block under it, from `half_width`
/// blocks west to as many east of the block.
pub proof fn lemma_deck_full_width(
    g: Ground,
    c: BridgeConfig,
    deck_y: int,
    nodes: Seq<ProcessedNode>,
    s: int,
    j: int,
    dx: int,
)
    requires
        1 <= s < nodes.len(),
        0 <= j < seg_len(nodes, s),
        -c.half_width <= dx <= c.half_width,
    ensures
        ({
            let p = seg_point(nodes, s, j);
            &&& deck_plan(g, c, deck_y, nodes).contains((c.deck_block, p.0 + dx, deck_y, p.1))
            &&& deck_plan(g, c, deck_y, nodes).contains((c.support_block, p.0 + dx, deck_y - 1, p.1))
        }),
{
    let p = seg_point(nodes, s, j);
    let k = dx + c.half_width;
    crate::laws::lemma_deck_row_shape(c, deck_y, p.0, p.1);
    let row = deck_row(c, deck_y, p.0, p.1);
    assert(crate::laws::deck_column_x(c, p.0, k) == p.0 + dx);
    assert(row[2 * k] == (c.deck_block, p.0 + dx, deck_y, p.1));
    assert(row[2 * k + 1] == (c.support_block, p.0 + dx, deck_y - 1, p.1));
    let dpp = deck_point_plan(g, c, deck_y, p, points_before(nodes, s) + j);
    assert(dpp[2 * k] == row[2 * k]);
    assert(dpp[2 * k + 1] == row[2 * k + 1]);
    lemma_deck_route_contains(g, c, deck_y, nodes, s, j, (c.deck_block, p.0 + dx, deck_y, p.1));
    lemma_deck_route_contains(g, c, deck_y, nodes, s, j, (c.support_block, p.0 + dx, deck_y - 1, p.1));
}

/// Railings stand on both sides of every block of the route of a bridge
/// that has them, one block beyond the deck edge and one block above the
/// deck.
pub proof fn lemma_railings_both_sides(
    g: Ground,
    c: BridgeConfig,
    deck_y: int,
    nodes: Seq<ProcessedNode>,
    s: int,
    j: int,
    w: int,
)
    requires
        c.has_railings,
        1 <= s < nodes.len(),
        0 <= j < seg_len(nodes, s),
        w == c.half_width + 1 || w == -(c.half_width + 1),
    ensures
        ({
            let q = side_of(seg_point(nodes, s, j), seg_dir(nodes, s), w);
            deck_plan(g, c, deck_y, nodes).contains((c.railing_block, q.0, deck_y + 1, q.1))
        }),
{
    let pts = segment_points(nodes, s);
    let dir = seg_dir(nodes, s);
    let p = seg_point(nodes, s, j);
    let q = side_of(p, dir, w);
    let x = (c.railing_block, q.0, deck_y + 1, q.1);
    let f = |jj: int| railing_pair(c.railing_block, deck_y + 1, pts[jj], dir, c.half_width + 1);
    assert(pts[j] == p);
    let pair = f(j);
    if w == c.half_width + 1 {
        assert(pair[1] == x);
        lemma_flatten_contains(f, pts.len() as int, j, 1);
    } else {
        assert(pair[0] == x);
        lemma_flatten_contains(f, pts.len() as int, j, 0);
    }
    assert(railings_plan(c, deck_y, pts, dir) == Seq::new(pts.len(), f).flatten());
    lemma_deck_route_contains(g, c, deck_y, nodes, s, j, x);
}

/// A support pillar stands at every block of the route whose running count
/// is a multiple of the support interval, where the foundation layer lies
/// above the ground: a column from just above the ground up to just below
/// the foundation, on a 3x3 footing at ground level.
pub proof fn lemma_pillars_at_interval(
    g: Ground,
    c: BridgeConfig,
    deck_y: int,
    nodes: Seq<ProcessedNode>,
    s: int,
    j: int,
    y: int,
    dx: int,
    dz: int,
)
    requires
        1 <= s < nodes.len(),
        0 <= j < seg_len(nodes, s),
        (points_before(nodes, s) + j) % (c.support_interval as int) == 0,
        -1 <= dx <= 1,
        -1 <= dz <= 1,
    ensures
        ({
            let p = seg_point(nodes, s, j);
            let ground = ground_at(g, p.0, p.1);
            let plan = deck_plan(g, c, deck_y, nodes);
            &&& ground < deck_y - 1 && ground < y < deck_y - 1 ==> plan.contains((c.support_block, p.0, y, p.1))
            &&& ground < deck_y - 1 ==> plan.contains((c.support_block, p.0 + dx, ground, p.1 + dz))
        }),
{
    let p = seg_point(nodes, s, j);
    let ground = ground_at(g, p.0, p.1);
    let k = points_before(nodes, s) + j;
    let row = deck_row(c, deck_y, p.0, p.1);
    let pillar = pillar_plan(ground, c.support_block, p.0, deck_y - 1, p.1);
    let dpp = deck_point_plan(g, c, deck_y, p, k);
    if ground < deck_y - 1 {
        assert(dpp == row + pillar);
        let col = column(c.support_block, p.0, p.1, ground + 1, deck_y - 1);
        let base = crate::bridges::pillar_base(c.support_block, p.0, ground, p.1);
        assert(pillar == col + base);
        let top = (c.support_block, p.0, y, p.1);
        let foot = (c.support_block, p.0 + dx, ground, p.1 + dz);
        assert(base[3 * (dx + 1) + (dz + 1)] == foot);
        lemma_add_contains(col, base, foot);
        lemma_add_contains(row, pillar, foot);
        lemma_deck_route_contains(g, c, deck_y, nodes, s, j, foot);
        if ground < y < deck_y - 1 {
            lemma_column_contains(c.support_block, p.0, p.1, ground + 1, deck_y - 1, top);
            lemma_add_contains(col, base, top);
            lemma_add_contains(row, pillar, top);
            lemma_deck_route_contains(g, c, deck_y, nodes, s, j, top);
        }
    }
}

/// The arch spans the full width of the deck at every block of the route
/// between pillar positions, at the height of the parabola there, with one
/// block of thickness above it while that stays below the foundation; only
/// the ground, where it reaches the arch, leaves a column out.
pub proof fn lemma_arch_full_width(
    g: Ground,
    c: BridgeConfig,
    deck_y: int,
    nodes: Seq<ProcessedNode>,
    s: int,
    j: int,
    w: int,
)
    requires
        c.support_interval >= 4,
        1 <= s < nodes.len(),
        0 <= j < seg_len(nodes, s),
        (points_before(nodes, s) + j) % (c.support_interval as int) != 0,
        -c.half_width <= w <= c.half_width,
    ensures
        ({
            let span = c.support_interval as int;
            let pos = (points_before(nodes, s) + j) % span;
            let arch_y = deck_y - 2 - arch_drop(arch_depth(span), pos, span);
            let q = side_of(seg_point(nodes, s, j), seg_dir(nodes, s), w);
            let plan = arch_plan(g, c, deck_y, nodes);
            &&& arch_y > ground_at(g, q.0, q.1) ==> plan.contains((c.support_block, q.0, arch_y, q.1))
            &&& arch_y > ground_at(g, q.0, q.1) && arch_y + 1 < deck_y - 1 ==> plan.contains(
                (c.support_block, q.0, arch_y + 1, q.1),
            )
        }),
{
    let span = c.support_interval as int;
    let k = points_before(nodes, s) + j;
    crate::way::lemma_points_before_mono(nodes, s, s);
    let pos = k % span;
    let arch_y = deck_y - 2 - arch_drop(arch_depth(span), pos, span);
    let p = seg_point(nodes, s, j);
    let dir = seg_dir(nodes, s);
    let q = side_of(p, dir, w);
    let f = |kk: int| arch_cell(g, c, deck_y, arch_y, side_of(p, dir, kk - c.half_width));
    let kk = w + c.half_width;
    assert(f(kk) == arch_cell(g, c, deck_y, arch_y, q));
    let app = arch_point_plan(g, c, deck_y, p, dir, k);
    assert(app == Seq::new(span_len(c.half_width as int), f).flatten());
    assert(point_detail(BridgeStructure::Arch, g, c, deck_y, p, dir, k) == app);
    if arch_y > ground_at(g, q.0, q.1) {
        let a = (c.support_block, q.0, arch_y, q.1);
        assert(f(kk)[0] == a);
        lemma_flatten_contains(f, span_len(c.half_width as int) as int, kk, 0);
        lemma_detail_route_contains(BridgeStructure::Arch, g, c, deck_y, nodes, s, j, a);
        if arch_y + 1 < deck_y - 1 {
            let b = (c.support_block, q.0, arch_y + 1, q.1);
            assert(f(kk)[1] == b);
            lemma_flatten_contains(f, span_len(c.half_width as int) as int, kk, 1);
            lemma_detail_route_contains(BridgeStructure::Arch, g, c, deck_y, nodes, s, j, b);
        }
    }
}

/// Each pylon of a cable-stayed bridge carries a fan of stay cables on both
/// sides, reaching forward and backward along the route by every even
/// distance below its reach (clamped to the ends of the route), lower the
/// farther they reach but always above the deck and below the pylon top.
pub proof fn lemma_cable_stays(
    c: BridgeConfig,
    deck_y: int,
    nodes: Seq<ProcessedNode>,
    idx: int,
    m: int,
    w: int,
)
    requires
        0 < idx < route_points(nodes).len() - 1,
        idx % pylon_interval(c) == 0,
        0 <= m < cable_count(cable_reach(pylon_interval(c), route_points(nodes).len() as int, idx)),
        w == c.half_width + 1 || w == -(c.half_width + 1),
    ensures
        ({
            let route = route_points(nodes);
            let total = route.len() as int;
            let reach = cable_reach(pylon_interval(c), total, idx);
            let dist = 2 + 2 * m;
            let drop = if 10 * dist / reach >= 1 {
                10 * dist / reach
            } else {
                1
            };
            let y = deck_y + 10 - drop;
            let fwd = route[if idx + dist <= total - 1 {
                idx + dist
            } else {
                total - 1
            }];
            let bwd = route[if idx - dist >= 0 {
                idx - dist
            } else {
                0
            }];
            let qf = side_of((fwd.0, fwd.1), (fwd.2, fwd.3), w);
            let qb = side_of((bwd.0, bwd.1), (bwd.2, bwd.3), w);
            &&& deck_y + 1 <= y <= deck_y + 9
            &&& cable_stayed_plan(c, deck_y, nodes).contains((CHAIN, qf.0, y, qf.1))
            &&& cable_stayed_plan(c, deck_y, nodes).contains((CHAIN, qb.0, y, qb.1))
        }),
{
    let route = route_points(nodes);
    let total = route.len() as int;
    let pi = pylon_interval(c);
    let reach = cable_reach(pi, total, idx);
    let dist = 2 + 2 * m;
    let drop = if 10 * dist / reach >= 1 {
        10 * dist / reach
    } else {
        1
    };
    let y = deck_y + 10 - drop;
    let fi = if idx + dist <= total - 1 {
        idx + dist
    } else {
        total - 1
    };
    let bi = if idx - dist >= 0 {
        idx - dist
    } else {
        0
    };
    let fwd = route[fi];
    let bwd = route[bi];
    let qf = side_of((fwd.0, fwd.1), (fwd.2, fwd.3), w);
    let qb = side_of((bwd.0, bwd.1), (bwd.2, bwd.3), w);
    // the reach exceeds every distance that gets a cable
    assert(m < (reach - 1) / 2);
    assert(dist < reach) by {
        vstd::arithmetic::div_mod::lemma_fundamental_div_mod(reach - 1, 2);
        vstd::arithmetic::div_mod::lemma_mod_bound(reach - 1, 2);
    }
    assert(0 <= 10 * dist / reach < 10) by {
        vstd::arithmetic::div_mod::lemma_fundamental_div_mod(10 * dist, reach);
        vstd::arithmetic::div_mod::lemma_mod_bound(10 * dist, reach);
        assert(0 <= (10 * dist) / reach < 10) by (nonlinear_arith)
            requires
                10 * dist == reach * ((10 * dist) / reach) + (10 * dist) % reach,
                0 <= (10 * dist) % reach < reach,
                0 <= dist < reach,
        ;
    }
    let sc = stay_cables(c, deck_y, route, idx, reach, m);
    let pf = stay_pair(c, y, fwd);
    let pb = stay_pair(c, y, bwd);
    assert(sc == pf + pb);
    let xf = (CHAIN, qf.0, y, qf.1);
    let xb = (CHAIN, qb.0, y, qb.1);
    if w == c.half_width + 1 {
        assert(pf[1] == xf);
        assert(pb[1] == xb);
    } else {
        assert(pf[0] == xf);
        assert(pb[0] == xb);
    }
    assert(pf.contains(xf));
    assert(pb.contains(xb));
    lemma_add_contains(pf, pb, xf);
    lemma_add_contains(pf, pb, xb);
    let g = |mm: int| stay_cables(c, deck_y, route, idx, reach, mm);
    let fan = Seq::new(cable_count(reach), g).flatten();
    let tf = choose|t: int| 0 <= t < sc.len() && sc[t] == xf;
    let tb = choose|t: int| 0 <= t < sc.len() && sc[t] == xb;
    assert(g(m)[tf] == xf);
    assert(g(m)[tb] == xb);
    lemma_flatten_contains(g, cable_count(reach) as int, m, tf);
    lemma_flatten_contains(g, cable_count(reach) as int, m, tb);
    let rp = route[idx];
    let l = side_of((rp.0, rp.1), (rp.2, rp.3), -(c.half_width + 1));
    let r = side_of((rp.0, rp.1), (rp.2, rp.3), c.half_width + 1);
    let towers = column(c.support_block, l.0, l.1, deck_y + 1, deck_y + 11) + column(
        c.support_block,
        r.0,
        r.1,
        deck_y + 1,
        deck_y + 11,
    );
    let pp = pylon_plan(c, deck_y, route, idx);
    assert(pp == towers + fan);
    lemma_add_contains(towers, fan, xf);
    lemma_add_contains(towers, fan, xb);
    let f = |i: int| pylon_plan(c, deck_y, route, i);
    let uf = choose|t: int| 0 <= t < pp.len() && pp[t] == xf;
    let ub = choose|t: int| 0 <= t < pp.len() && pp[t] == xb;
    assert(f(idx)[uf] == xf);
    assert(f(idx)[ub] == xb);
    lemma_flatten_contains(f, total, idx, uf);
    lemma_flatten_contains(f, total, idx, ub);
}

} // verus!

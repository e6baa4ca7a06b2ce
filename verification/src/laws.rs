use vstd::prelude::*;
use crate::blocks::Block;
use crate::bridges::{base_config, config_in_range, deck_point_plan, deck_segment_plan, bridge_deck_y, bridge_plan, bridge_type_of, config_from_tags, deck_cell, deck_plan, deck_row, is_bridge, lemma_max_ground_bounds, material_blocks, node_ground, pillar_plan, railway_bridge_info, span_len, structure_detail_plan, structure_of, BridgeConfig};
use crate::geometry::{abs, is_rounded_root_ratio, lemma_rounded_root_ratio_is, round_over_root, rounded_root_ratio, side_offset};
use crate::line::{line_len, line_point, minor_offset, step_sign};
use crate::osm::{tag, ProcessedNode};
use crate::way::{seg_len, seg_point, segment_points, points_before};
use crate::plan::lemma_flatten_next;
use crate::structures::{abutment_plan, arch_depth, arch_drop, cable_rise};
use crate::world::{Ground, Spot, WorldModel};

verus! {

// ---------------------------------------------------------------------------
// The world
// ---------------------------------------------------------------------------

/// Carrying out two plans one after the other is carrying out their
/// concatenation.
pub proof fn lemma_place_all_concat(w: WorldModel, a: Seq<Spot>, b: Seq<Spot>)
    ensures
        w.place_all(a + b) == w.place_all(a).place_all(b),
    decreases b.len(),
{
    if b.len() == 0 {
        assert(a + b =~= a);
    } else {
        assert((a + b).drop_last() =~= a + b.drop_last());
        assert((a + b).last() == b.last());
        lemma_place_all_concat(w, a, b.drop_last());
    }
}

/// Writing blocks never changes the area or the ground.
pub proof fn lemma_place_all_keeps_land(w: WorldModel, plan: Seq<Spot>)
    ensures
        w.place_all(plan).same_land(w),
    decreases plan.len(),
{
    if plan.len() > 0 {
        lemma_place_all_keeps_land(w, plan.drop_last());
    }
}

/// A plain write never replaces a block: what was there stays.
pub proof fn lemma_place_all_keeps_blocks(w: WorldModel, plan: Seq<Spot>, x: int, y: int, z: int)
    requires
        w.block_at(x, y, z) is Some,
    ensures
        w.place_all(plan).block_at(x, y, z) == w.block_at(x, y, z),
    decreases plan.len(),
{
    if plan.len() > 0 {
        lemma_place_all_keeps_blocks(w, plan.drop_last(), x, y, z);
    }
}

/// After a plan, a position holds a block exactly where it held one before
/// or where the plan writes to it inside the area.
pub proof fn lemma_place_all_fills(w: WorldModel, plan: Seq<Spot>, x: int, y: int, z: int)
    ensures
        w.place_all(plan).block_at(x, y, z) is Some <==> (w.block_at(x, y, z) is Some || (w.in_area(x, z)
            && exists|i: int| 0 <= i < plan.len() && (#[trigger] plan[i]).1 == x && plan[i].2 == y && plan[i].3 == z)),
    decreases plan.len(),
{
    if plan.len() > 0 {
        let rest = plan.drop_last();
        lemma_place_all_fills(w, rest, x, y, z);
        lemma_place_all_keeps_land(w, rest);
        let last = plan.last();
        if exists|i: int| 0 <= i < plan.len() && (#[trigger] plan[i]).1 == x && plan[i].2 == y && plan[i].3 == z {
            let i = choose|i: int| 0 <= i < plan.len() && (#[trigger] plan[i]).1 == x && plan[i].2 == y && plan[i].3 == z;
            if i < rest.len() {
                assert(rest[i] == plan[i]);
            }
        }
        assert forall|i: int| 0 <= i < rest.len() && (#[trigger] rest[i]).1 == x && rest[i].2 == y && rest[i].3 == z implies
            plan[i].1 == x && plan[i].2 == y && plan[i].3 == z by {
            assert(rest[i] == plan[i]);
        }
    } else {
        assert(w.place_all(plan) == w);
    }
}

// ---------------------------------------------------------------------------
// Geometry
// ---------------------------------------------------------------------------

proof fn lemma_round_zero(l: int)
    requires
        l > 0,
    ensures
        round_over_root(0, l) == 0,
{
    assert((2 * 0 + 1) * (2 * 0 + 1) * l == l) by (nonlinear_arith);
    assert(4 * 0 * 0 == 0);
    assert(is_rounded_root_ratio(0, l, 0));
    lemma_rounded_root_ratio_is(0, l, 0);
}

/// Rounding halves away from zero treats both signs alike.
pub proof fn lemma_round_over_root_odd(n: int, l: int)
    requires
        l > 0,
    ensures
        round_over_root(-n, l) == -round_over_root(n, l),
{
    if n == 0 {
        lemma_round_zero(l);
    }
}

/// The blocks `w` steps to the left and `w` steps to the right lie mirrored
/// about the point they are measured from, so railings and side structures
/// come in symmetric pairs.
pub proof fn lemma_side_offset_mirror(dx: int, dz: int, w: int)
    ensures
        side_offset(dx, dz, -w) == (-side_offset(dx, dz, w).0, -side_offset(dx, dz, w).1),
{
    if !(dx == 0 && dz == 0) {
        let l = dx * dx + dz * dz;
        assert(l > 0) by (nonlinear_arith)
            requires
                !(dx == 0 && dz == 0),
                l == dx * dx + dz * dz,
        ;
        assert(-dz * -w == -(-dz * w)) by (nonlinear_arith);
        assert(dx * -w == -(dx * w)) by (nonlinear_arith);
        lemma_round_over_root_odd(-dz * w, l);
        lemma_round_over_root_odd(dx * w, l);
    }
}

proof fn lemma_round_exact(d: int, w: int)
    requires
        d > 0,
    ensures
        round_over_root(d * w, d * d) == w,
{
    let a = abs(w);
    assert(is_rounded_root_ratio(d * a, d * d, a)) by {
        assert(4 * (d * a) * (d * a) == (2 * a) * (2 * a) * (d * d)) by (nonlinear_arith);
        if a >= 1 {
            assert((2 * a - 1) * (2 * a - 1) * (d * d) <= (2 * a) * (2 * a) * (d * d)) by (nonlinear_arith)
                requires
                    a >= 1,
                    d > 0,
            ;
        }
        assert((2 * a) * (2 * a) * (d * d) < (2 * a + 1) * (2 * a + 1) * (d * d)) by (nonlinear_arith)
            requires
                a >= 0,
                d > 0,
        ;
    }
    assert(d * d > 0) by (nonlinear_arith)
        requires
            d > 0,
    ;
    lemma_rounded_root_ratio_is(d * a, d * d, a);
    if w >= 0 {
        assert(d * w >= 0) by (nonlinear_arith)
            requires
                d > 0,
                w >= 0,
        ;
    } else {
        assert(d * w < 0) by (nonlinear_arith)
            requires
                d > 0,
                w < 0,
        ;
        assert(-(d * w) == d * a) by (nonlinear_arith)
            requires
                a == -w,
        ;
    }
}

/// Along an axis the side offset is exactly `w` blocks: to the north
/// (smaller z) is left when facing east.
pub proof fn lemma_side_offset_on_axes(d: int, w: int)
    requires
        d > 0,
    ensures
        side_offset(d, 0, w) == (0int, w),
        side_offset(-d, 0, w) == (0int, -w),
        side_offset(0, d, w) == (-w, 0int),
        side_offset(0, -d, w) == (w, 0int),
{
    assert(d * d > 0) by (nonlinear_arith)
        requires
            d > 0,
    ;
    assert((-d) * (-d) == d * d) by (nonlinear_arith);
    lemma_round_zero(d * d);
    assert(-0 * w == 0);
    assert(0 * w == 0);
    lemma_round_exact(d, w);
    lemma_round_exact(d, -w);
    assert(-d * w == d * (-w)) by (nonlinear_arith);
    assert(-(-d) * w == d * w) by (nonlinear_arith);
    assert(-d * w == d * -w) by (nonlinear_arith);
}

/// A side offset moves at most `|w|` blocks along each axis.
pub proof fn lemma_side_offset_near(dx: int, dz: int, w: int)
    ensures
        abs(side_offset(dx, dz, w).0) <= abs(w),
        abs(side_offset(dx, dz, w).1) <= abs(w),
{
    if !(dx == 0 && dz == 0) {
        let l = dx * dx + dz * dz;
        assert(l > 0 && dz * dz <= l && dx * dx <= l) by (nonlinear_arith)
            requires
                !(dx == 0 && dz == 0),
                l == dx * dx + dz * dz,
        ;
        assert((-dz) * (-dz) == dz * dz) by (nonlinear_arith);
        assert(-dz * w == (-dz) * w);
        lemma_round_bounded(-dz, w, l);
        lemma_round_bounded(dx, w, l);
    }
}

proof fn lemma_round_bounded(c: int, w: int, l: int)
    requires
        l > 0,
        c * c <= l,
    ensures
        abs(round_over_root(c * w, l)) <= abs(w),
{
    let n = c * w;
    let a = abs(n);
    let wa = abs(w);
    assert(4 * a * a <= 4 * wa * wa * l) by (nonlinear_arith)
        requires
            a == abs(c * w),
            wa == abs(w),
            c * c <= l,
    ;
    assert(4 * wa * wa * l < (2 * wa + 1) * (2 * wa + 1) * l) by (nonlinear_arith)
        requires
            wa >= 0,
            l > 0,
    ;
    lemma_rounded_exists(a, l, wa);
    let m = rounded_root_ratio(a, l);
    assert(is_rounded_root_ratio(a, l, m));
    if m > wa {
        // then |c w| / sqrt(l) would reach |w| + 1/2
        assert((2 * m - 1) * (2 * m - 1) * l > 4 * wa * wa * l) by (nonlinear_arith)
            requires
                m > wa,
                wa >= 0,
                l > 0,
        ;
    }
}

/// `a / sqrt(l)` has a rounding when it lies below `b + 1/2`.
proof fn lemma_rounded_exists(a: int, l: int, b: int)
    requires
        l > 0,
        a >= 0,
        b >= 0,
        4 * a * a < (2 * b + 1) * (2 * b + 1) * l,
    ensures
        exists|k: int| is_rounded_root_ratio(a, l, k),
    decreases b,
{
    if b == 0 || (2 * b - 1) * (2 * b - 1) * l <= 4 * a * a {
        assert(is_rounded_root_ratio(a, l, b));
    } else {
        assert((2 * b - 1) == 2 * (b - 1) + 1);
        lemma_rounded_exists(a, l, b - 1);
    }
}

/// A Bresenham line starts at its first end and stops at its second.
pub proof fn lemma_line_ends(x1: int, z1: int, x2: int, z2: int)
    ensures
        line_point(x1, z1, x2, z2, 0) == (x1, z1),
        line_point(x1, z1, x2, z2, line_len(x1, z1, x2, z2) - 1) == (x2, z2),
{
    let dx = abs(x2 - x1);
    let dz = abs(z2 - z1);
    if dx >= dz {
        lemma_offset_ends(dz, dx);
        lemma_sign_extent(x1, x2);
        lemma_sign_extent(z1, z2);
    } else {
        lemma_offset_ends(dx, dz);
        lemma_sign_extent(x1, x2);
        lemma_sign_extent(z1, z2);
    }
}

proof fn lemma_sign_extent(a: int, b: int)
    ensures
        step_sign(a, b) * abs(b - a) == b - a,
        step_sign(a, b) * 0 == 0,
{
    if a < b {
        assert(step_sign(a, b) == 1);
    } else {
        assert(step_sign(a, b) == -1);
        assert(-1 * abs(b - a) == b - a);
    }
}

proof fn lemma_offset_ends(minor: int, major: int)
    requires
        0 <= minor <= major,
    ensures
        minor_offset(0, minor, major) == 0,
        minor_offset(major, minor, major) == minor,
{
    if major > 0 {
        assert(2 * 0 * minor + major == 0 * (2 * major) + major) by (nonlinear_arith);
        vstd::arithmetic::div_mod::lemma_fundamental_div_mod_converse_div(2 * 0 * minor + major, 2 * major, 0, major);
        assert(2 * major * minor + major == minor * (2 * major) + major) by (nonlinear_arith);
        vstd::arithmetic::div_mod::lemma_fundamental_div_mod_converse_div(
            2 * major * minor + major,
            2 * major,
            minor,
            major,
        );
    }
}

/// Successive blocks of a line touch: one step along the longer axis, at
/// most one along the other.
pub proof fn lemma_line_steps(x1: int, z1: int, x2: int, z2: int, i: int)
    requires
        0 <= i,
        i + 1 < line_len(x1, z1, x2, z2),
    ensures
        ({
            let p = line_point(x1, z1, x2, z2, i);
            let q = line_point(x1, z1, x2, z2, i + 1);
            &&& abs(q.0 - p.0) <= 1
            &&& abs(q.1 - p.1) <= 1
            &&& abs(q.0 - p.0) + abs(q.1 - p.1) >= 1
        }),
{
    let dx = abs(x2 - x1);
    let dz = abs(z2 - z1);
    if dx >= dz {
        lemma_offset_step(i, dz, dx);
        let k0 = minor_offset(i, dz, dx);
        let k1 = minor_offset(i + 1, dz, dx);
        lemma_sign_step(step_sign(x1, x2), i + 1, i);
        lemma_sign_step(step_sign(z1, z2), k1, k0);
    } else {
        lemma_offset_step(i, dx, dz);
        let k0 = minor_offset(i, dx, dz);
        let k1 = minor_offset(i + 1, dx, dz);
        lemma_sign_step(step_sign(z1, z2), i + 1, i);
        lemma_sign_step(step_sign(x1, x2), k1, k0);
    }
}

proof fn lemma_sign_step(s: int, a: int, b: int)
    requires
        s == 1 || s == -1,
        a == b || a == b + 1,
    ensures
        abs(s * a - s * b) == a - b,
{
    if s == 1 {
        assert(s * a - s * b == a - b);
    } else {
        assert(s * a - s * b == b - a);
    }
}

proof fn lemma_offset_step(i: int, minor: int, major: int)
    requires
        0 <= minor <= major,
        0 <= i < major,
    ensures
        minor_offset(i + 1, minor, major) == minor_offset(i, minor, major) || minor_offset(
            i + 1,
            minor,
            major,
        ) == minor_offset(i, minor, major) + 1,
{
    let d = 2 * major;
    let n0 = 2 * i * minor + major;
    let n1 = 2 * (i + 1) * minor + major;
    assert(n1 == n0 + 2 * minor) by (nonlinear_arith)
        requires
            n0 == 2 * i * minor + major,
            n1 == 2 * (i + 1) * minor + major,
    ;
    vstd::arithmetic::div_mod::lemma_fundamental_div_mod(n0, d);
    vstd::arithmetic::div_mod::lemma_mod_bound(n0, d);
    vstd::arithmetic::div_mod::lemma_fundamental_div_mod(n1, d);
    vstd::arithmetic::div_mod::lemma_mod_bound(n1, d);
    let q0 = n0 / d;
    let q1 = n1 / d;
    assert(q0 <= q1 <= q0 + 1) by (nonlinear_arith)
        requires
            n0 == d * q0 + n0 % d,
            n1 == d * q1 + n1 % d,
            0 <= n0 % d < d,
            0 <= n1 % d < d,
            n1 == n0 + 2 * minor,
            0 <= 2 * minor <= d,
    ;
}

// ---------------------------------------------------------------------------
// Bridges
// ---------------------------------------------------------------------------

/// Each tag drives its own part of the configuration: the bridge type sets
/// the geometry and the defaults, a recognised material replaces the three
/// blocks, a recognised structure replaces the structure type, and anything
/// unrecognised keeps what the bridge type gave.
pub proof fn lemma_config_parts(tags: Map<Seq<char>, Seq<char>>)
    ensures
        ({
            let c = config_from_tags(tags);
            let base = base_config(bridge_type_of(tags));
            &&& c.half_width == base.half_width
            &&& c.support_interval == base.support_interval
            &&& c.has_railings == base.has_railings
            &&& (match tag(tags, "bridge:material"@) {
                Some(m) if material_blocks(m) is Some => (c.deck_block, c.railing_block, c.support_block)
                    == material_blocks(m)->0,
                _ => c.deck_block == base.deck_block && c.railing_block == base.railing_block
                    && c.support_block == base.support_block,
            })
            &&& (match tag(tags, "bridge:structure"@) {
                Some(s) if structure_of(s) is Some => c.structure_type == structure_of(s)->0,
                _ => c.structure_type == base.structure_type,
            })
        }),
{
}

/// A way without a `bridge` tag, tagged `bridge=no`, or with fewer than two
/// nodes leaves the world as it was.
pub proof fn lemma_no_bridge_no_change(w: WorldModel, tags: Map<Seq<char>, Seq<char>>, nodes: Seq<ProcessedNode>)
    requires
        !is_bridge(tags) || nodes.len() < 2,
    ensures
        w.place_all(bridge_plan(w.ground, tags, nodes)) == w,
{
}

/// The deck lies at least three blocks above the ground under every node.
pub proof fn lemma_deck_clears_terrain(g: Ground, tags: Map<Seq<char>, Seq<char>>, nodes: Seq<ProcessedNode>, i: int)
    requires
        0 <= i < nodes.len(),
    ensures
        bridge_deck_y(g, tags, nodes) >= node_ground(g, nodes[i]) + 3,
{
    lemma_max_ground_bounds(g, nodes);
}

/// A standalone bridge is the deck (with its pillars and railings), then the
/// structural detail, then the abutments, each at the deck level and with
/// the configuration that `get_railway_bridge_info` reports for the way; and
/// writing it is writing those three parts one after another.
pub proof fn lemma_bridge_in_parts(w: WorldModel, tags: Map<Seq<char>, Seq<char>>, nodes: Seq<ProcessedNode>)
    requires
        is_bridge(tags),
        nodes.len() >= 2,
    ensures
        ({
            let info = railway_bridge_info(w.ground, tags, nodes);
            let p = info->0;
            let d = p.0;
            let c = p.1;
            &&& info is Some
            &&& bridge_plan(w.ground, tags, nodes) == deck_plan(w.ground, c, d, nodes) + structure_detail_plan(
                w.ground,
                c,
                d,
                nodes,
            ) + abutment_plan(w.ground, c, d, nodes)
            &&& w.place_all(bridge_plan(w.ground, tags, nodes)) == w.place_all(deck_plan(w.ground, c, d, nodes)).place_all(
                structure_detail_plan(w.ground, c, d, nodes),
            ).place_all(abutment_plan(w.ground, c, d, nodes))
        }),
{
    let c = config_from_tags(tags);
    let d = bridge_deck_y(w.ground, tags, nodes);
    let a = deck_plan(w.ground, c, d, nodes);
    let b = structure_detail_plan(w.ground, c, d, nodes);
    let e = abutment_plan(w.ground, c, d, nodes);
    lemma_place_all_concat(w, a + b, e);
    lemma_place_all_concat(w, a, b);
}

/// Parts of equal length flatten into a sequence indexed part by part.
pub proof fn lemma_flatten_uniform<A>(f: spec_fn(int) -> Seq<A>, n: int, m: int)
    requires
        n >= 0,
        m >= 0,
        forall|i: int| 0 <= i < n ==> (#[trigger] f(i)).len() == m,
    ensures
        Seq::new(n as nat, f).flatten().len() == n * m,
        forall|i: int, j: int|
            0 <= i < n && 0 <= j < m ==> Seq::new(n as nat, f).flatten()[i * m + j] == #[trigger] f(i)[j],
    decreases n,
{
    if n == 0 {
        assert(Seq::new(0, f) =~= Seq::<Seq<A>>::empty());
    } else {
        lemma_flatten_uniform(f, n - 1, m);
        lemma_flatten_next(f, n - 1);
        let prev = Seq::new((n - 1) as nat, f).flatten();
        assert((n - 1) * m + m == n * m) by (nonlinear_arith);
        assert forall|i: int, j: int| 0 <= i < n && 0 <= j < m implies Seq::new(n as nat, f).flatten()[i * m + j] == #[trigger] f(i)[j] by {
            if i < n - 1 {
                assert(i * m + j < (n - 1) * m) by (nonlinear_arith)
                    requires
                        0 <= i < n - 1,
                        0 <= j < m,
                ;
            } else {
                assert(i * m + j == (n - 1) * m + j) by (nonlinear_arith)
                    requires
                        i == n - 1,
                ;
            }
        }
    }
}

/// The x coordinate of the `k`-th deck column from the left edge.
pub open spec fn deck_column_x(c: BridgeConfig, x: int, k: int) -> int {
    x + k - c.half_width
}

/// The deck at a route block is `2 * half_width + 1` blocks wide, centred on
/// the block: the deck block at `x - hw ..= x + hw`, each with the foundation
/// block right under it.
pub proof fn lemma_deck_row_shape(c: BridgeConfig, deck_y: int, x: int, z: int)
    ensures
        deck_row(c, deck_y, x, z).len() == 2 * span_len(c.half_width as int),
        forall|k: int|
            0 <= k < span_len(c.half_width as int) ==> deck_row(c, deck_y, x, z)[2 * k] == (
                c.deck_block,
                #[trigger] deck_column_x(c, x, k),
                deck_y,
                z,
            ) && deck_row(c, deck_y, x, z)[2 * k + 1] == (c.support_block, deck_column_x(c, x, k), deck_y - 1, z),
{
    let f = |k: int| deck_cell(c, deck_y, x, z, k);
    let n = span_len(c.half_width as int) as int;
    lemma_flatten_uniform(f, n, 2);
    assert forall|k: int| 0 <= k < n implies deck_row(c, deck_y, x, z)[2 * k] == (
        c.deck_block,
        #[trigger] deck_column_x(c, x, k),
        deck_y,
        z,
    ) && deck_row(c, deck_y, x, z)[2 * k + 1] == (c.support_block, deck_column_x(c, x, k), deck_y - 1, z) by {
        assert(f(k)[0] == (c.deck_block, x + k - c.half_width, deck_y, z));
        assert(f(k)[1] == (c.support_block, x + k - c.half_width, deck_y - 1, z));
        assert(k * 2 + 0 == 2 * k);
        assert(k * 2 + 1 == 2 * k + 1);
    }
    assert(n * 2 == 2 * n);
}

/// A support pillar stands in the 3x3 columns around its point, from the
/// ground up to below the deck it carries.
pub proof fn lemma_pillar_below_deck(ground_y: int, block: Block, x: int, deck_y: int, z: int)
    ensures
        forall|i: int|
            0 <= i < pillar_plan(ground_y, block, x, deck_y, z).len() ==> {
                let s = #[trigger] pillar_plan(ground_y, block, x, deck_y, z)[i];
                &&& s.0 == block
                &&& ground_y <= s.2 < deck_y
                &&& abs(s.1 - x) <= 1
                &&& abs(s.3 - z) <= 1
            },
{
}

/// The arch never lies more than its depth below its crown, so arch blocks
/// stay between eight and two blocks below the deck.
pub proof fn lemma_arch_below_deck(pos: int, span: int)
    requires
        0 < pos < span,
    ensures
        2 <= arch_depth(span) <= 6,
        0 <= arch_drop(arch_depth(span), pos, span) <= arch_depth(span),
{
    let depth = arch_depth(span);
    let num = 2 * depth * (2 * pos - span) * (2 * pos - span) + span * span;
    let den = 2 * span * span;
    assert(0 < den) by (nonlinear_arith)
        requires
            span > 0,
            den == 2 * span * span,
    ;
    assert(0 <= num <= (2 * depth + 1) * (span * span)) by (nonlinear_arith)
        requires
            2 <= depth <= 6,
            0 < pos < span,
            num == 2 * depth * (2 * pos - span) * (2 * pos - span) + span * span,
    ;
    vstd::arithmetic::div_mod::lemma_fundamental_div_mod(num, den);
    vstd::arithmetic::div_mod::lemma_mod_bound(num, den);
    let q = num / den;
    assert(0 <= q <= depth) by (nonlinear_arith)
        requires
            num == den * q + num % den,
            0 <= num % den < den,
            0 <= num <= (2 * depth + 1) * (span * span),
            den == 2 * span * span,
            depth >= 0,
    ;
}

/// `(2 * p - span)^2 <= (2 * q - span)^2` where `p` lies no farther from
/// midspan than `q`.
proof fn lemma_nearer_midspan(p: int, q: int, span: int)
    requires
        abs(2 * p - span) <= abs(2 * q - span),
    ensures
        (2 * p - span) * (2 * p - span) <= (2 * q - span) * (2 * q - span),
{
    let a = abs(2 * p - span);
    let b = abs(2 * q - span);
    assert(a * a <= b * b) by (nonlinear_arith)
        requires
            0 <= a <= b,
    ;
    assert((2 * p - span) * (2 * p - span) == a * a) by (nonlinear_arith)
        requires
            a == abs(2 * p - span),
    ;
    assert((2 * q - span) * (2 * q - span) == b * b) by (nonlinear_arith)
        requires
            b == abs(2 * q - span),
    ;
}

/// The arch is an arch: highest at midspan, where it meets the crown two
/// blocks below the deck, and lower the nearer it comes to a pillar. Of two
/// blocks into a span, the one nearer midspan lies no lower.
pub proof fn lemma_arch_crown(depth: int, p: int, q: int, span: int)
    requires
        span > 0,
        depth >= 0,
        abs(2 * p - span) <= abs(2 * q - span),
    ensures
        arch_drop(depth, p, span) <= arch_drop(depth, q, span),
        2 * p == span ==> arch_drop(depth, p, span) == 0,
{
    lemma_nearer_midspan(p, q, span);
    let den = 2 * span * span;
    assert(span * span < den) by (nonlinear_arith)
        requires
            span > 0,
            den == 2 * span * span,
    ;
    assert(2 * depth * (2 * p - span) * (2 * p - span) <= 2 * depth * (2 * q - span) * (2 * q - span))
        by (nonlinear_arith)
        requires
            depth >= 0,
            (2 * p - span) * (2 * p - span) <= (2 * q - span) * (2 * q - span),
    ;
    vstd::arithmetic::div_mod::lemma_div_is_ordered(
        2 * depth * (2 * p - span) * (2 * p - span) + span * span,
        2 * depth * (2 * q - span) * (2 * q - span) + span * span,
        den,
    );
    if 2 * p == span {
        assert(2 * depth * (2 * p - span) * (2 * p - span) == 0) by (nonlinear_arith)
            requires
                2 * p == span,
        ;
        vstd::arithmetic::div_mod::lemma_basic_div(span * span, den);
    }
}

/// The main cable hangs at most seven blocks above its lowest point, so it
/// stays between one block above the deck and the tower tops eight blocks
/// above it.
pub proof fn lemma_cable_rise_range(pos: int, span: int)
    requires
        0 < pos < span,
    ensures
        0 <= cable_rise(pos, span) <= 7,
{
    let num = 14 * (2 * pos - span) * (2 * pos - span) + span * span;
    let den = 2 * span * span;
    assert(0 < den) by (nonlinear_arith)
        requires
            span > 0,
            den == 2 * span * span,
    ;
    assert(0 <= num <= 15 * (span * span)) by (nonlinear_arith)
        requires
            0 < pos < span,
            num == 14 * (2 * pos - span) * (2 * pos - span) + span * span,
    ;
    vstd::arithmetic::div_mod::lemma_fundamental_div_mod(num, den);
    vstd::arithmetic::div_mod::lemma_mod_bound(num, den);
    let q = num / den;
    assert(0 <= q <= 7) by (nonlinear_arith)
        requires
            num == den * q + num % den,
            0 <= num % den < den,
            0 <= num <= 15 * (span * span),
            den == 2 * span * span,
    ;
}

/// The main cable is draped: lowest at midspan, one block above the deck,
/// and higher the nearer it comes to a tower. Of two blocks into a span, the
/// one nearer midspan carries the cable no higher.
pub proof fn lemma_cable_drapes(p: int, q: int, span: int)
    requires
        span > 0,
        abs(2 * p - span) <= abs(2 * q - span),
    ensures
        cable_rise(p, span) <= cable_rise(q, span),
        2 * p == span ==> cable_rise(p, span) == 0,
{
    lemma_nearer_midspan(p, q, span);
    let den = 2 * span * span;
    assert(span * span < den) by (nonlinear_arith)
        requires
            span > 0,
            den == 2 * span * span,
    ;
    assert(14 * (2 * p - span) * (2 * p - span) <= 14 * (2 * q - span) * (2 * q - span)) by (nonlinear_arith)
        requires
            (2 * p - span) * (2 * p - span) <= (2 * q - span) * (2 * q - span),
    ;
    vstd::arithmetic::div_mod::lemma_div_is_ordered(
        14 * (2 * p - span) * (2 * p - span) + span * span,
        14 * (2 * q - span) * (2 * q - span) + span * span,
        den,
    );
    if 2 * p == span {
        assert(14 * (2 * p - span) * (2 * p - span) == 0) by (nonlinear_arith)
            requires
                2 * p == span,
        ;
        vstd::arithmetic::div_mod::lemma_basic_div(span * span, den);
    }
}

/// Writing a block to an empty position inside the area puts it there and
/// leaves every other position as it was.
pub proof fn lemma_write_then_read(w: WorldModel, b: Block, x: int, y: int, z: int, px: int, py: int, pz: int)
    requires
        w.in_area(x, z),
        w.block_at(x, y, z) is None,
    ensures
        w.place((b, x, y, z)).block_at(x, y, z) == Some(b),
        (px, py, pz) != (x, y, z) ==> w.place((b, x, y, z)).block_at(px, py, pz) == w.block_at(px, py, pz),
{
}

/// A tag reads back the value last given to it; other tags keep theirs.
pub proof fn lemma_tag_insert_get(tags: Map<Seq<char>, Seq<char>>, k: Seq<char>, v: Seq<char>, other: Seq<char>)
    ensures
        tag(tags.insert(k, v), k) == Some(v),
        other != k ==> tag(tags.insert(k, v), other) == tag(tags, other),
{
}

/// Every item of a part is in the flattened whole.
pub proof fn lemma_flatten_contains<A>(f: spec_fn(int) -> Seq<A>, n: int, i: int, j: int)
    requires
        0 <= i < n,
        0 <= j < f(i).len(),
    ensures
        Seq::new(n as nat, f).flatten().contains(f(i)[j]),
    decreases n,
{
    lemma_flatten_next(f, n - 1);
    let prev = Seq::new((n - 1) as nat, f).flatten();
    let whole = Seq::new(n as nat, f).flatten();
    if i == n - 1 {
        assert(whole[prev.len() + j] == f(i)[j]);
    } else {
        lemma_flatten_contains(f, n - 1, i, j);
        let k = choose|k: int| 0 <= k < prev.len() && prev[k] == f(i)[j];
        assert(whole[k] == f(i)[j]);
    }
}

/// A standalone bridge lays its deck block at the deck level on every block
/// of its route; inside the area, each of those positions then holds a
/// block.
pub proof fn lemma_deck_covers_route(
    w: WorldModel,
    tags: Map<Seq<char>, Seq<char>>,
    nodes: Seq<ProcessedNode>,
    s: int,
    j: int,
)
    requires
        is_bridge(tags),
        1 <= s < nodes.len(),
        0 <= j < seg_len(nodes, s),
    ensures
        ({
            let c = config_from_tags(tags);
            let d = bridge_deck_y(w.ground, tags, nodes);
            let p = seg_point(nodes, s, j);
            &&& bridge_plan(w.ground, tags, nodes).contains((c.deck_block, p.0, d, p.1))
            &&& w.in_area(p.0, p.1) ==> w.place_all(bridge_plan(w.ground, tags, nodes)).block_at(p.0, d, p.1) is Some
        }),
{
    let g = w.ground;
    let c = config_from_tags(tags);
    let d = bridge_deck_y(g, tags, nodes);
    let p = seg_point(nodes, s, j);
    let spot = (c.deck_block, p.0, d, p.1);
    assert(config_in_range(c));
    // the deck row of the block holds its centre
    let hw = c.half_width as int;
    lemma_deck_row_shape(c, d, p.0, p.1);
    let row = deck_row(c, d, p.0, p.1);
    assert(row[2 * hw] == (c.deck_block, deck_column_x(c, p.0, hw), d, p.1));
    assert(row.contains(spot));
    let dpp = deck_point_plan(g, c, d, p, points_before(nodes, s) + j);
    assert(dpp[2 * hw] == spot);
    // the segment's deck holds the block's deck
    let pts = segment_points(nodes, s);
    let f = |jj: int| deck_point_plan(g, c, d, pts[jj], points_before(nodes, s) + jj);
    assert(pts[j] == p);
    assert(f(j) == dpp);
    lemma_flatten_contains(f, pts.len() as int, j, 2 * hw);
    let segdeck = Seq::new(pts.len(), f).flatten();
    let k1 = choose|k: int| 0 <= k < segdeck.len() && segdeck[k] == spot;
    let seg = deck_segment_plan(g, c, d, nodes, s);
    assert(seg[k1] == spot);
    // the whole deck holds the segment's deck
    let h = |t: int| deck_segment_plan(g, c, d, nodes, t + 1);
    assert(h(s - 1) == seg);
    lemma_flatten_contains(h, (nodes.len() - 1) as int, s - 1, k1);
    let deck = deck_plan(g, c, d, nodes);
    let k2 = choose|k: int| 0 <= k < deck.len() && deck[k] == spot;
    let whole = bridge_plan(g, tags, nodes);
    assert(whole[k2] == spot);
    assert(whole.contains(spot));
    lemma_place_all_fills(w, whole, p.0, d, p.1);
}

} // verus!

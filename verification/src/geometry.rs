use vstd::prelude::*;

verus! {

pub open spec fn abs(v: int) -> int {
    if v < 0 {
        -v
    } else {
        v
    }
}

/// `m` is `a / sqrt(l)` rounded to the nearest integer, a half rounded up
/// (for `a >= 0` and `l > 0`): `m - 1/2 <= a / sqrt(l) < m + 1/2`.
pub open spec fn is_rounded_root_ratio(a: int, l: int, m: int) -> bool {
    &&& m >= 0
    &&& (m == 0 || (2 * m - 1) * (2 * m - 1) * l <= 4 * a * a)
    &&& 4 * a * a < (2 * m + 1) * (2 * m + 1) * l
}

pub open spec fn rounded_root_ratio(a: int, l: int) -> int {
    choose|m: int| is_rounded_root_ratio(a, l, m)
}

/// `n / sqrt(l)` rounded to the nearest integer, halves away from zero.
pub open spec fn round_over_root(n: int, l: int) -> int {
    if n >= 0 {
        rounded_root_ratio(n, l)
    } else {
        -rounded_root_ratio(-n, l)
    }
}

/// `v` held to the range of `i32`: the nearest of its ends where it lies
/// beyond one of them.
pub open spec fn clamp_i32(v: int) -> int {
    if v < i32::MIN {
        i32::MIN as int
    } else if v > i32::MAX {
        i32::MAX as int
    } else {
        v
    }
}

/// The offset of the block `w` steps along the left-hand normal of the
/// direction `(dx, dz)`, each coordinate rounded to the nearest block (halves
/// away from zero). A zero direction counts as the direction `(1, 0)`.
pub open spec fn side_offset(dx: int, dz: int, w: int) -> (int, int) {
    if dx == 0 && dz == 0 {
        (0, w)
    } else {
        let l = dx * dx + dz * dz;
        (round_over_root(-dz * w, l), round_over_root(dx * w, l))
    }
}

/// The block reached from `(x, z)` by `w` steps along the left-hand normal of
/// the direction `(dx, dz)`; a coordinate beyond the range of `i32` is held
/// to its nearest end.
pub open spec fn side_point(x: int, z: int, dx: int, dz: int, w: int) -> (int, int) {
    let o = side_offset(dx, dz, w);
    (clamp_i32(x + o.0), clamp_i32(z + o.1))
}

proof fn lemma_square_le(a: int, b: int)
    requires
        0 <= a <= b,
    ensures
        a * a <= b * b,
{
    assert(a * a <= a * b) by (nonlinear_arith)
        requires
            0 <= a <= b,
    ;
    assert(a * b <= b * b) by (nonlinear_arith)
        requires
            0 <= a <= b,
    ;
}

/// The rounded ratio is unique, so `rounded_root_ratio` names it.
pub proof fn lemma_rounded_root_ratio_unique(a: int, l: int, m1: int, m2: int)
    requires
        l > 0,
        is_rounded_root_ratio(a, l, m1),
        is_rounded_root_ratio(a, l, m2),
    ensures
        m1 == m2,
{
    if m1 < m2 {
        lemma_square_le(2 * m1 + 1, 2 * m2 - 1);
        vstd::arithmetic::mul::lemma_mul_inequality(
            (2 * m1 + 1) * (2 * m1 + 1),
            (2 * m2 - 1) * (2 * m2 - 1),
            l,
        );
    } else if m2 < m1 {
        lemma_square_le(2 * m2 + 1, 2 * m1 - 1);
        vstd::arithmetic::mul::lemma_mul_inequality(
            (2 * m2 + 1) * (2 * m2 + 1),
            (2 * m1 - 1) * (2 * m1 - 1),
            l,
        );
    }
}

pub proof fn lemma_rounded_root_ratio_is(a: int, l: int, m: int)
    requires
        l > 0,
        is_rounded_root_ratio(a, l, m),
    ensures
        rounded_root_ratio(a, l) == m,
{
    let c = rounded_root_ratio(a, l);
    assert(is_rounded_root_ratio(a, l, c));
    lemma_rounded_root_ratio_unique(a, l, m, c);
}

/// Whether `m` does not lie above `a / sqrt(l)` rounded: `m == 0` or
/// `m - 1/2 <= a / sqrt(l)`.
spec fn reaches(a: int, l: int, m: int) -> bool {
    m == 0 || (2 * m - 1) * (2 * m - 1) * l <= 4 * a * a
}

/// Rounds `a / sqrt(l)` to the nearest integer, a half rounded up, where
/// `a <= w * sqrt(l)` bounds the search.
fn rounded_root_ratio_exec(a: u128, l: u128, w: u128) -> (m: u128)
    requires
        0 < l <= 0x8000_0000_0000_0000,
        w <= 0x8000_0000,
        a * a <= w * w * l,
    ensures
        is_rounded_root_ratio(a as int, l as int, m as int),
        m == rounded_root_ratio(a as int, l as int),
        m <= w,
{
    proof {
        assert(a * a <= 0x4000_0000_0000_0000 * 0x8000_0000_0000_0000) by (nonlinear_arith)
            requires
                a * a <= w * w * l,
                w <= 0x8000_0000,
                l <= 0x8000_0000_0000_0000,
        ;
    }
    let four_a2: u128 = 4 * (a * a);
    let mut lo: u128 = 0;
    let mut hi: u128 = w + 1;
    proof {
        assert(4 * a * a == 4 * (a * a)) by (nonlinear_arith);
        // beyond w the rounding cannot reach: (2w + 1)^2 l > 4 w^2 l >= 4 a^2
        assert((2 * hi - 1) * (2 * hi - 1) * l > 4 * a * a) by (nonlinear_arith)
            requires
                hi == w + 1,
                a * a <= w * w * l,
                l > 0,
        ;
    }
    while hi - lo > 1
        invariant
            0 < l <= 0x8000_0000_0000_0000,
            w <= 0x8000_0000,
            four_a2 == 4 * a * a,
            lo < hi <= w + 1,
            reaches(a as int, l as int, lo as int),
            !reaches(a as int, l as int, hi as int),
        decreases hi - lo,
    {
        let mid = lo + (hi - lo) / 2;
        let odd: u128 = 2 * mid - 1;
        proof {
            assert(odd <= 0x1_0000_0002);
            assert(odd * odd <= 0x1_0000_0002 * 0x1_0000_0002) by (nonlinear_arith)
                requires
                    odd <= 0x1_0000_0002,
            ;
            assert((odd * odd) * l <= 0x1_0000_0002 * 0x1_0000_0002 * 0x8000_0000_0000_0000) by (nonlinear_arith)
                requires
                    odd * odd <= 0x1_0000_0002 * 0x1_0000_0002,
                    l <= 0x8000_0000_0000_0000,
            ;
        }
        if odd * odd * l <= four_a2 {
            lo = mid;
        } else {
            hi = mid;
        }
    }
    proof {
        assert(hi == lo + 1);
        assert(2 * hi - 1 == 2 * lo + 1);
        lemma_rounded_root_ratio_is(a as int, l as int, lo as int);
    }
    lo
}

/// `n / sqrt(l)` rounded to the nearest integer, halves away from zero,
/// for `|n| <= |w| * sqrt(l)` (checked through `n = c * w` with `c * c <= l`).
fn round_over_root_exec(c: i64, w: i64, l: u128) -> (r: i64)
    requires
        0 < l <= 0x8000_0000_0000_0000,
        c * c <= l,
        -0x8000_0000 <= w <= 0x8000_0000,
    ensures
        r as int == round_over_root(c * w, l as int),
        abs(r as int) <= abs(w as int),
{
    proof {
        assert(-0x1_0000_0000 <= c <= 0x1_0000_0000) by (nonlinear_arith)
            requires
                c * c <= 0x8000_0000_0000_0000,
        ;
    }
    let ca: u128 = if c < 0 { (-c) as u128 } else { c as u128 };
    let wa: u128 = if w < 0 { (-w) as u128 } else { w as u128 };
    proof {
        assert(ca * ca == c * c) by (nonlinear_arith)
            requires
                ca == abs(c as int),
        ;
        assert(ca * wa <= 0x1_0000_0000 * 0x8000_0000) by (nonlinear_arith)
            requires
                ca <= 0x1_0000_0000,
                wa <= 0x8000_0000,
        ;
    }
    let a: u128 = ca * wa;
    proof {
        assert(a * a <= wa * wa * l) by (nonlinear_arith)
            requires
                a == ca * wa,
                ca * ca <= l,
                ca >= 0,
                wa >= 0,
        ;
        assert(abs(c * w) == a) by (nonlinear_arith)
            requires
                a == ca * wa,
                ca == abs(c as int),
                wa == abs(w as int),
        ;
    }
    let m = rounded_root_ratio_exec(a, l, wa);
    if (c < 0) == (w < 0) || c == 0 || w == 0 {
        proof {
            assert(c * w >= 0) by (nonlinear_arith)
                requires
                    (c < 0) == (w < 0) || c == 0 || w == 0,
            ;
        }
        m as i64
    } else {
        proof {
            assert(c * w < 0) by (nonlinear_arith)
                requires
                    (c < 0) != (w < 0),
                    c != 0,
                    w != 0,
            ;
        }
        -(m as i64)
    }
}

/// `v` held to the range of `i32`.
pub fn clamp_to_i32(v: i64) -> (r: i32)
    ensures
        r as int == clamp_i32(v as int),
{
    if v < i32::MIN as i64 {
        i32::MIN
    } else if v > i32::MAX as i64 {
        i32::MAX
    } else {
        v as i32
    }
}

/// The block `w` steps along the left-hand normal of `(dx, dz)` from `(x, z)`,
/// rounded and held to the range of `i32` as `side_point` states.
pub fn side_block(x: i32, z: i32, dx: i32, dz: i32, w: i64) -> (p: (i32, i32))
    requires
        -0x8000_0000 <= w <= 0x8000_0000,
    ensures
        (p.0 as int, p.1 as int) == side_point(x as int, z as int, dx as int, dz as int, w as int),
{
    if dx == 0 && dz == 0 {
        return (clamp_to_i32(x as i64), clamp_to_i32(z as i64 + w));
    }
    let dx64 = dx as i64;
    let dz64 = dz as i64;
    proof {
        assert(0 <= dx64 * dx64 <= 0x4000_0000_0000_0000) by (nonlinear_arith)
            requires
                -0x8000_0000 <= dx64 <= 0x8000_0000,
        ;
        assert(0 <= dz64 * dz64 <= 0x4000_0000_0000_0000) by (nonlinear_arith)
            requires
                -0x8000_0000 <= dz64 <= 0x8000_0000,
        ;
        assert(dx64 * dx64 + dz64 * dz64 > 0) by (nonlinear_arith)
            requires
                dx64 != 0 || dz64 != 0,
        ;
    }
    let l: u128 = (dx64 as i128 * dx64 as i128 + dz64 as i128 * dz64 as i128) as u128;
    proof {
        assert((-dz64) * (-dz64) == dz64 * dz64) by (nonlinear_arith);
    }
    let ox = round_over_root_exec(-dz64, w, l);
    let oz = round_over_root_exec(dx64, w, l);
    proof {
        assert(-dz64 * w == -(dz64 as int) * (w as int));
    }
    (clamp_to_i32(x as i64 + ox), clamp_to_i32(z as i64 + oz))
}

} // verus!

use vstd::prelude::*;
use crate::geometry::abs;

verus! {

/// How far the minor axis has moved after `i` steps along the major axis of a
/// Bresenham line with extents `major >= minor >= 0`: `i * minor / major`
/// rounded to the nearest integer, halves rounded up.
pub open spec fn minor_offset(i: int, minor: int, major: int) -> int {
    if major == 0 {
        0
    } else {
        (2 * i * minor + major) / (2 * major)
    }
}

pub open spec fn step_sign(from: int, to: int) -> int {
    if from < to {
        1
    } else {
        -1
    }
}

/// The number of blocks on the line from `(x1, z1)` to `(x2, z2)`.
pub open spec fn line_len(x1: int, z1: int, x2: int, z2: int) -> int {
    let dx = abs(x2 - x1);
    let dz = abs(z2 - z1);
    if dx >= dz {
        dx + 1
    } else {
        dz + 1
    }
}

/// The `i`-th block of the Bresenham line from `(x1, z1)` to `(x2, z2)`: one step
/// along the longer axis per block (the x axis on a tie), the other coordinate
/// following the exact line rounded to the nearest block.
pub open spec fn line_point(x1: int, z1: int, x2: int, z2: int, i: int) -> (int, int) {
    let dx = abs(x2 - x1);
    let dz = abs(z2 - z1);
    if dx >= dz {
        (x1 + step_sign(x1, x2) * i, z1 + step_sign(z1, z2) * minor_offset(i, dz, dx))
    } else {
        (x1 + step_sign(x1, x2) * minor_offset(i, dx, dz), z1 + step_sign(z1, z2) * i)
    }
}

/// The minor-axis offsets of a Bresenham line, one per block.
fn minor_offsets(major: i64, minor: i64) -> (ks: Vec<i64>)
    requires
        0 <= minor <= major <= 0x1_0000_0000,
    ensures
        ks.len() == major + 1,
        forall|i: int| 0 <= i <= major ==> ks@[i] == minor_offset(i, minor as int, major as int),
        forall|i: int| 0 <= i <= major ==> 0 <= #[trigger] ks@[i] <= minor,
{
    let mut ks: Vec<i64> = Vec::new();
    ks.push(0);
    if major == 0 {
        return ks;
    }
    let mut k: i64 = 0;
    let mut r: i64 = major;
    let mut i: i64 = 0;
    proof {
        vstd::arithmetic::div_mod::lemma_fundamental_div_mod_converse_div(
            2 * 0 * minor + major, 2 * major, 0, major as int);
    }
    while i < major
        invariant
            0 < major <= 0x1_0000_0000,
            0 <= minor <= major,
            0 <= i <= major,
            0 <= k <= i,
            k <= minor,
            0 <= r < 2 * major,
            2 * i * minor + major == k * (2 * major) + r,
            ks.len() == i + 1,
            forall|j: int| 0 <= j <= i ==> ks@[j] == minor_offset(j, minor as int, major as int),
            forall|j: int| 0 <= j <= i ==> 0 <= #[trigger] ks@[j] <= minor,
        decreases major - i,
    {
        assert(2 * (i + 1) * minor + major == 2 * i * minor + major + 2 * minor) by (nonlinear_arith);
        if r + 2 * minor >= 2 * major {
            assert((k + 1) * (2 * major) == k * (2 * major) + 2 * major) by (nonlinear_arith);
            k = k + 1;
            r = r + 2 * minor - 2 * major;
        } else {
            r = r + 2 * minor;
        }
        i = i + 1;
        proof {
            vstd::arithmetic::div_mod::lemma_fundamental_div_mod_converse_div(
                2 * i * minor + major, 2 * major, k as int, r as int);
            // the line never climbs faster than it runs
            assert(k <= minor) by (nonlinear_arith)
                requires
                    2 * i * minor + major == k * (2 * major) + r,
                    0 <= r,
                    i <= major,
                    0 < major,
                    0 <= minor <= major,
            ;
        }
        ks.push(k);
    }
    ks
}

/// The blocks of the Bresenham line from `(x1, z1)` to `(x2, z2)` in the
/// ground plane, from the first end to the second.
pub fn bresenham_line(x1: i32, z1: i32, x2: i32, z2: i32) -> (pts: Vec<(i32, i32)>)
    ensures
        pts.len() == line_len(x1 as int, z1 as int, x2 as int, z2 as int),
        forall|i: int|
            0 <= i < pts.len() ==> (#[trigger] pts@[i].0 as int, pts@[i].1 as int) == line_point(
                x1 as int,
                z1 as int,
                x2 as int,
                z2 as int,
                i,
            ),
{
    let dx: i64 = if x1 < x2 { x2 as i64 - x1 as i64 } else { x1 as i64 - x2 as i64 };
    let dz: i64 = if z1 < z2 { z2 as i64 - z1 as i64 } else { z1 as i64 - z2 as i64 };
    let sx: i64 = if x1 < x2 { 1 } else { -1 };
    let sz: i64 = if z1 < z2 { 1 } else { -1 };
    let x_major = dx >= dz;
    let (major, minor) = if x_major { (dx, dz) } else { (dz, dx) };
    let ks = minor_offsets(major, minor);
    let mut pts: Vec<(i32, i32)> = Vec::new();
    let mut i: i64 = 0;
    while i <= major
        invariant
            0 <= i <= major + 1,
            major <= 0x1_0000_0000,
            ks.len() == major + 1,
            forall|j: int| 0 <= j <= major ==> ks@[j] == minor_offset(j, minor as int, major as int),
            forall|j: int| 0 <= j <= major ==> 0 <= #[trigger] ks@[j] <= minor,
            dx == abs(x2 - x1),
            dz == abs(z2 - z1),
            sx == step_sign(x1 as int, x2 as int),
            sz == step_sign(z1 as int, z2 as int),
            x_major == (dx >= dz),
            x_major ==> major == dx && minor == dz,
            !x_major ==> major == dz && minor == dx,
            pts.len() == i,
            forall|j: int|
                0 <= j < i ==> (#[trigger] pts@[j].0 as int, pts@[j].1 as int) == line_point(
                    x1 as int,
                    z1 as int,
                    x2 as int,
                    z2 as int,
                    j,
                ),
        decreases major + 1 - i,
    {
        let k = ks[i as usize];
        proof {
            lemma_line_point_between(x1 as int, z1 as int, x2 as int, z2 as int, i as int);
        }
        let p: (i32, i32) = if x_major {
            ((x1 as i64 + sx * i) as i32, (z1 as i64 + sz * k) as i32)
        } else {
            ((x1 as i64 + sx * k) as i32, (z1 as i64 + sz * i) as i32)
        };
        pts.push(p);
        i = i + 1;
    }
    pts
}

} // verus!
verus! {

/// Every block of a line lies in the box spanned by its ends.
pub proof fn lemma_line_point_between(x1: int, z1: int, x2: int, z2: int, i: int)
    requires
        0 <= i < line_len(x1, z1, x2, z2),
    ensures
        ({
            let p = line_point(x1, z1, x2, z2, i);
            &&& (x1 <= p.0 <= x2 || x2 <= p.0 <= x1)
            &&& (z1 <= p.1 <= z2 || z2 <= p.1 <= z1)
        }),
{
    let dx = abs(x2 - x1);
    let dz = abs(z2 - z1);
    let sx = step_sign(x1, x2);
    let sz = step_sign(z1, z2);
    if dx >= dz {
        lemma_minor_offset_range(i, dz, dx);
        let k = minor_offset(i, dz, dx);
        if x1 < x2 {
            assert(sx * i == i);
        } else {
            assert(sx * i == -i);
        }
        if z1 < z2 {
            assert(sz * k == k);
        } else {
            assert(sz * k == -k);
        }
    } else {
        lemma_minor_offset_range(i, dx, dz);
        let k = minor_offset(i, dx, dz);
        if x1 < x2 {
            assert(sx * k == k);
        } else {
            assert(sx * k == -k);
        }
        if z1 < z2 {
            assert(sz * i == i);
        } else {
            assert(sz * i == -i);
        }
    }
}

/// The minor offset stays between 0 and the minor extent.
pub proof fn lemma_minor_offset_range(i: int, minor: int, major: int)
    requires
        0 <= minor <= major,
        0 <= i <= major,
    ensures
        0 <= minor_offset(i, minor, major) <= minor,
{
    if major > 0 {
        let num = 2 * i * minor + major;
        assert(num >= 0) by (nonlinear_arith)
            requires
                i >= 0,
                minor >= 0,
                major > 0,
                num == 2 * i * minor + major,
        ;
        assert(num < (minor + 1) * (2 * major)) by (nonlinear_arith)
            requires
                0 <= i <= major,
                0 <= minor,
                major > 0,
                num == 2 * i * minor + major,
        ;
        let d = 2 * major;
        let q = num / d;
        vstd::arithmetic::div_mod::lemma_fundamental_div_mod(num, d);
        vstd::arithmetic::div_mod::lemma_mod_bound(num, d);
        assert(0 <= q <= minor) by (nonlinear_arith)
            requires
                num == d * q + num % d,
                0 <= num % d < d,
                0 <= num < (minor + 1) * d,
                d > 0,
        ;
    }
}

} // verus!

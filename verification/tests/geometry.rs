use lib::geometry::side_block;
use lib::line::bresenham_line;
use lib::text::{parse_i32, text_eq};

/// The side offset as the floating-point formula computes it: the unit
/// direction, its left-hand normal, then rounding.
fn float_side(x: i32, z: i32, dx: i32, dz: i32, w: i64) -> (i32, i32) {
    let fdx = dx as f64;
    let fdz = dz as f64;
    let len = (fdx * fdx + fdz * fdz).sqrt();
    let (dir_x, dir_z) = if len > 0.0 { (fdx / len, fdz / len) } else { (1.0, 0.0) };
    let perp_x = -dir_z;
    let perp_z = dir_x;
    (
        (x as f64 + perp_x * w as f64).round() as i32,
        (z as f64 + perp_z * w as f64).round() as i32,
    )
}

/// The three-dimensional Bresenham walk at y = 0, step by step.
fn stepped_line(x1: i32, z1: i32, x2: i32, z2: i32) -> Vec<(i32, i32)> {
    let dx = (x2 - x1).abs();
    let dz = (z2 - z1).abs();
    let xs = if x1 < x2 { 1 } else { -1 };
    let zs = if z1 < z2 { 1 } else { -1 };
    let (mut x, mut z) = (x1, z1);
    let mut points = vec![(x, z)];
    if dx >= dz {
        let mut p = 2 * dz - dx;
        while x != x2 {
            x += xs;
            if p >= 0 {
                z += zs;
                p -= 2 * dx;
            }
            p += 2 * dz;
            points.push((x, z));
        }
    } else {
        let mut p = 2 * dx - dz;
        while z != z2 {
            z += zs;
            if p >= 0 {
                x += xs;
                p -= 2 * dz;
            }
            p += 2 * dx;
            points.push((x, z));
        }
    }
    points
}

#[test]
fn side_block_matches_float_formula() {
    for dx in -12..=12 {
        for dz in -12..=12 {
            for w in -5..=5 {
                assert_eq!(side_block(7, -3, dx, dz, w), float_side(7, -3, dx, dz, w), "dir ({}, {}), w {}", dx, dz, w);
            }
        }
    }
}

#[test]
fn side_block_on_axes() {
    assert_eq!(side_block(30, 50, 40, 0, 3), (30, 53));
    assert_eq!(side_block(30, 50, 40, 0, -3), (30, 47));
    assert_eq!(side_block(30, 50, -40, 0, 3), (30, 47));
    assert_eq!(side_block(30, 50, 0, 5, 2), (28, 50));
    assert_eq!(side_block(30, 50, 0, -5, 2), (32, 50));
    // a zero direction counts as east
    assert_eq!(side_block(30, 50, 0, 0, 2), (30, 52));
}

#[test]
fn side_block_diagonal_and_exact() {
    // unit normal of (1, 1) is (-0.707.., 0.707..)
    assert_eq!(side_block(0, 0, 1, 1, 1), (-1, 1));
    assert_eq!(side_block(0, 0, 1, 1, 2), (-1, 1));
    assert_eq!(side_block(0, 0, 1, 1, 3), (-2, 2));
    // a 3-4-5 direction gives an exact offset
    assert_eq!(side_block(0, 0, 3, 4, 5), (-4, 3));
    assert_eq!(side_block(0, 0, 3, 4, -5), (4, -3));
}

#[test]
fn side_blocks_mirror_each_other() {
    for (dx, dz) in [(1, 2), (5, -3), (-7, 7), (2, 9)] {
        for w in 1..=4 {
            let l = side_block(10, 10, dx, dz, -w);
            let r = side_block(10, 10, dx, dz, w);
            assert_eq!(l.0 - 10, 10 - r.0);
            assert_eq!(l.1 - 10, 10 - r.1);
        }
    }
}

#[test]
fn side_block_far_out_and_at_the_edge() {
    // far from the origin, with long segment steps
    let big = 2_000_000_000;
    for (dx, dz) in [(1_999_999_999, 7), (-3, 2_147_483_647), (-2_147_483_648, -2_147_483_648), (5, -12)] {
        for w in [-7, -1, 0, 3, 9] {
            assert_eq!(side_block(big, -big, dx, dz, w), float_side(big, -big, dx, dz, w), "dir ({}, {}), w {}", dx, dz, w);
        }
    }
    // beyond the range of i32 a coordinate is held to its end, as a float cast holds it
    assert_eq!(side_block(i32::MAX - 1, 0, 0, 1, -5), (i32::MAX, 0));
    assert_eq!(side_block(0, i32::MIN, 1, 0, -3), (0, i32::MIN));
    assert_eq!(side_block(0, i32::MIN, 1, 0, -3), float_side(0, i32::MIN, 1, 0, -3));
    // the widest reach
    assert_eq!(side_block(0, 0, 1, 0, 2_147_483_648), (0, i32::MAX));
    assert_eq!(side_block(0, 0, 3, 4, -2_147_483_648), float_side(0, 0, 3, 4, -2_147_483_648));
}

#[test]
fn bresenham_matches_stepping() {
    for x2 in -9..=9 {
        for z2 in -9..=9 {
            assert_eq!(bresenham_line(0, 0, x2, z2), stepped_line(0, 0, x2, z2), "to ({}, {})", x2, z2);
        }
    }
    assert_eq!(bresenham_line(10, 50, 50, 50), stepped_line(10, 50, 50, 50));
    assert_eq!(bresenham_line(10, 10, 50, 50), stepped_line(10, 10, 50, 50));
}

#[test]
fn bresenham_ends_and_steps() {
    let pts = bresenham_line(3, -4, -8, 15);
    assert_eq!(pts.len(), 20);
    assert_eq!(pts[0], (3, -4));
    assert_eq!(pts[pts.len() - 1], (-8, 15));
    for i in 1..pts.len() {
        let (a, b) = (pts[i - 1], pts[i]);
        assert!((a.0 - b.0).abs() <= 1 && (a.1 - b.1).abs() <= 1);
        assert_eq!((a.1 - b.1).abs(), 1);
    }
}

#[test]
fn bresenham_at_the_ends_of_the_range() {
    let pts = bresenham_line(i32::MAX - 4, i32::MIN, i32::MAX, i32::MIN + 2);
    assert_eq!(pts, vec![
        (i32::MAX - 4, i32::MIN),
        (i32::MAX - 3, i32::MIN + 1),
        (i32::MAX - 2, i32::MIN + 1),
        (i32::MAX - 1, i32::MIN + 2),
        (i32::MAX, i32::MIN + 2),
    ]);
    assert_eq!(pts, stepped_line(i32::MAX - 4, i32::MIN, i32::MAX, i32::MIN + 2));
    let pts = bresenham_line(-2_000_000_000, 7, -2_000_000_000, 3);
    assert_eq!(pts, vec![(-2_000_000_000, 7), (-2_000_000_000, 6), (-2_000_000_000, 5), (-2_000_000_000, 4), (-2_000_000_000, 3)]);
}

#[test]
fn bresenham_single_point_and_tie() {
    assert_eq!(bresenham_line(5, 5, 5, 5), vec![(5, 5)]);
    // on a tie the x axis leads and every step is diagonal
    assert_eq!(bresenham_line(0, 0, 3, 3), vec![(0, 0), (1, 1), (2, 2), (3, 3)]);
    assert_eq!(bresenham_line(0, 0, 4, 2), vec![(0, 0), (1, 1), (2, 1), (3, 2), (4, 2)]);
}

#[test]
fn parse_i32_like_std() {
    for s in [
        "42", "-7", "+3", "0", "-0", "", "-", "+", "abc", "1x", " 1", "2147483647", "2147483648",
        "-2147483648", "-2147483649", "99999999999999999999", "007", "\u{663}",
    ] {
        assert_eq!(parse_i32(s), s.parse::<i32>().ok(), "{:?}", s);
    }
    assert_eq!(parse_i32("2"), Some(2));
    assert_eq!(parse_i32("-12"), Some(-12));
}

#[test]
fn text_eq_compares_characters() {
    assert!(text_eq("bridge", "bridge"));
    assert!(!text_eq("bridge", "bridge:material"));
    assert!(!text_eq("", "x"));
    assert!(text_eq("", ""));
}

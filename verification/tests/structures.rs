use lib::blocks::{Block, CHAIN, COBBLESTONE_WALL, IRON_BARS, LIGHT_GRAY_CONCRETE, STONE_BRICKS, STONE_BRICK_WALL};
use lib::bridges::{
    add_railway_bridge_railings, calculate_bridge_deck_y, generate_bridges, get_railway_bridge_info,
    place_railings_for_segment, place_support_pillar, BridgeConfig, BridgeStructure,
};
use lib::osm::{ProcessedNode, ProcessedWay, Tags};
use lib::structures::{
    place_arch_understructure, place_bridge_abutments, place_cable_stayed_structure,
    place_suspension_cables, place_truss_sides,
};
use lib::world::WorldEditor;

fn node(id: u64, x: i32, z: i32) -> ProcessedNode {
    ProcessedNode { id, tags: Tags::new(), x, z }
}

fn way(tags: &[(&str, &str)], nodes: &[(i32, i32)]) -> ProcessedWay {
    let mut t = Tags::new();
    for (k, v) in tags {
        t.insert(k.to_string(), v.to_string());
    }
    ProcessedWay {
        id: 7,
        nodes: nodes.iter().enumerate().map(|(i, &(x, z))| node(i as u64, x, z)).collect(),
        tags: t,
    }
}

fn editor() -> WorldEditor {
    WorldEditor::new(0, 0, 200, 200)
}

fn block(e: &WorldEditor, x: i32, y: i32, z: i32) -> Option<Block> {
    e.get_block(x, y, z)
}

#[test]
fn deck_level_is_highest_ground_plus_layers() {
    let mut e = editor();
    e.set_ground_level(10, 50, 4);
    e.set_ground_level(30, 50, 9);
    e.set_ground_level(50, 50, 2);
    let nodes = vec![node(0, 10, 50), node(1, 30, 50), node(2, 50, 50)];
    assert_eq!(calculate_bridge_deck_y(&e, &nodes), Some(9));
    let w = way(&[("bridge", "yes"), ("layer", "2")], &[(10, 50), (30, 50), (50, 50)]);
    assert_eq!(get_railway_bridge_info(&e, &w).map(|(y, _)| y), Some(15));
    // a layer below 1, or one that is no number, counts as 1
    let w = way(&[("bridge", "yes"), ("layer", "-2")], &[(10, 50), (50, 50)]);
    assert_eq!(get_railway_bridge_info(&e, &w).map(|(y, _)| y), Some(7));
    let w = way(&[("bridge", "yes"), ("layer", "high")], &[(10, 50), (50, 50)]);
    assert_eq!(get_railway_bridge_info(&e, &w).map(|(y, _)| y), Some(7));
}

#[test]
fn railway_info_config_follows_tags() {
    let e = editor();
    let w = way(&[("railway", "rail"), ("bridge", "viaduct"), ("bridge:material", "wood")], &[(10, 10), (20, 10)]);
    let (deck_y, config) = get_railway_bridge_info(&e, &w).unwrap();
    assert_eq!(deck_y, 3);
    assert_eq!(config.half_width, 3);
    assert_eq!(config.structure_type, BridgeStructure::Arch);
    assert_eq!(config.deck_block, lib::blocks::OAK_PLANKS);
    // a single node is no bridge
    let w = way(&[("bridge", "yes")], &[(10, 10)]);
    assert!(get_railway_bridge_info(&e, &w).is_none());
}

#[test]
fn config_material_and_structure_aliases() {
    let cases: [(&str, &str, Block); 6] = [
        ("metal", "beam", lib::blocks::GRAY_CONCRETE),
        ("timber", "simple-beam", lib::blocks::OAK_PLANKS),
        ("masonry", "cable_stayed", STONE_BRICKS),
        ("stone", "arch", STONE_BRICKS),
        ("prestressed_concrete", "truss", LIGHT_GRAY_CONCRETE),
        ("reinforced_concrete", "suspension", LIGHT_GRAY_CONCRETE),
    ];
    let expected = [
        BridgeStructure::Beam,
        BridgeStructure::Beam,
        BridgeStructure::CableStayed,
        BridgeStructure::Arch,
        BridgeStructure::Truss,
        BridgeStructure::Suspension,
    ];
    for (i, (m, s, deck)) in cases.iter().enumerate() {
        let mut tags = Tags::new();
        tags.insert("bridge".to_string(), "boardwalk".to_string());
        tags.insert("bridge:material".to_string(), m.to_string());
        tags.insert("bridge:structure".to_string(), s.to_string());
        let c = BridgeConfig::from_tags(&tags);
        assert_eq!(c.deck_block, *deck);
        assert_eq!(c.structure_type, expected[i]);
        // the bridge type keeps the geometry
        assert_eq!(c.half_width, 1);
        assert_eq!(c.support_interval, 4);
    }
    // an unknown structure keeps the type's default, no bridge tag means "yes"
    let mut tags = Tags::new();
    tags.insert("bridge:structure".to_string(), "cantilever".to_string());
    let c = BridgeConfig::from_tags(&tags);
    assert_eq!(c.structure_type, BridgeStructure::Beam);
    assert_eq!(c.deck_block, LIGHT_GRAY_CONCRETE);
    assert_eq!(c.support_interval, 8);
}

#[test]
fn support_pillar_from_ground_to_deck() {
    let mut e = editor();
    e.set_ground_level(20, 20, 2);
    let c = BridgeConfig::from_bridge_type("yes");
    place_support_pillar(&mut e, 20, 7, 20, &c);
    for y in 3..7 {
        assert_eq!(block(&e, 20, y, 20), Some(STONE_BRICKS));
    }
    assert!(!e.block_at_absolute(20, 7, 20));
    for dx in -1..=1 {
        for dz in -1..=1 {
            assert_eq!(block(&e, 20 + dx, 2, 20 + dz), Some(STONE_BRICKS));
        }
    }
    // no pillar where the deck is not above the ground
    e.set_ground_level(40, 40, 3);
    place_support_pillar(&mut e, 40, 3, 40, &c);
    assert!(!e.block_at_absolute(40, 3, 40));
    assert!(!e.block_at_absolute(41, 3, 41));
}

#[test]
fn railings_for_a_segment() {
    let mut e = editor();
    let c = BridgeConfig::from_bridge_type("aqueduct");
    let points = vec![(10, 10), (11, 11), (12, 12)];
    place_railings_for_segment(&mut e, &points, 5, &c, 2, 2);
    // half width 2: three steps along the normal (-0.707, 0.707), rounded
    assert_eq!(block(&e, 8, 6, 12), Some(STONE_BRICK_WALL));
    assert_eq!(block(&e, 12, 6, 8), Some(STONE_BRICK_WALL));
    assert_eq!(block(&e, 10, 6, 14), Some(STONE_BRICK_WALL));
}

#[test]
fn railway_railings_two_out_two_up() {
    let mut e = editor();
    let c = BridgeConfig::from_bridge_type("yes");
    add_railway_bridge_railings(&mut e, 30, 30, 4, &c, 0, 1);
    assert_eq!(block(&e, 28, 6, 30), Some(COBBLESTONE_WALL));
    assert_eq!(block(&e, 32, 6, 30), Some(COBBLESTONE_WALL));
    assert!(!e.block_at_absolute(30, 6, 30));
}

#[test]
fn highway_railings_relative_to_ground() {
    let mut e = editor();
    e.set_ground_level(30, 47, 4);
    e.set_block_absolute(CHAIN, 30, 6, 53, None, None);
    e.set_block_absolute(COBBLESTONE_WALL, 31, 2, 47, None, None);
    lib::bridges::add_highway_bridge_railings(&mut e, &[(30, 50), (31, 50)], &[1], false, 2, COBBLESTONE_WALL, 1, 0);
    // ground 4 + elevation 1 + 1
    assert_eq!(block(&e, 30, 6, 47), Some(COBBLESTONE_WALL));
    // another block is replaced by the railing
    assert_eq!(block(&e, 30, 2, 53), Some(COBBLESTONE_WALL));
    assert_eq!(block(&e, 30, 6, 53), Some(CHAIN));
    // a missing elevation counts as 0
    assert_eq!(block(&e, 31, 1, 47), Some(COBBLESTONE_WALL));
}

/// How far below its crown the arch lies, as the floating-point parabola
/// `depth * t^2` gives it.
fn float_arch_drop(span: i32, pos: i32) -> i32 {
    let arch_depth = ((span as f64 / 3.0).round() as i32).clamp(2, 6);
    let t = 2.0 * (pos as f64) / (span as f64) - 1.0;
    ((arch_depth as f64) * t * t).round() as i32
}

#[test]
fn arch_follows_the_parabola() {
    let mut e = editor();
    let w = way(&[("bridge", "aqueduct"), ("layer", "4")], &[(10, 50), (60, 50)]);
    generate_bridges(&mut e, &w);
    let deck_y = 12;
    for counter in 0..=50 {
        let x = 10 + counter;
        let pos = counter % 6;
        if pos > 0 {
            let arch_y = deck_y - 2 - float_arch_drop(6, pos);
            for dz in -2..=2 {
                assert_eq!(block(&e, x, arch_y, 50 + dz), Some(STONE_BRICKS), "x {} dz {}", x, dz);
            }
        }
    }
    // highest at midspan, lower toward the pillars
    assert_eq!(block(&e, 13, 10, 50), Some(STONE_BRICKS));
    assert!(!e.block_at_absolute(13, 9, 50));
    assert_eq!(block(&e, 11, 9, 50), Some(STONE_BRICKS));
}

#[test]
fn arch_alone() {
    let mut e = editor();
    let w = way(&[("bridge", "aqueduct")], &[(10, 50), (20, 50)]);
    let c = BridgeConfig::from_bridge_type("aqueduct");
    place_arch_understructure(&mut e, &w, 10, &c);
    // pos 3 of 6 is midspan: the crown at 10 - 2 = 8, with no block above it
    assert_eq!(block(&e, 13, 8, 50), Some(STONE_BRICKS));
    assert!(!e.block_at_absolute(13, 9, 50));
    assert!(!e.block_at_absolute(13, 7, 50));
    // pos 1 of 6: t = -2/3, drop round(2 * 4/9) = 1, arch at 7 with one block above
    assert_eq!(block(&e, 11, 7, 50), Some(STONE_BRICKS));
    assert_eq!(block(&e, 11, 8, 50), Some(STONE_BRICKS));
    assert!(!e.block_at_absolute(11, 6, 50));
    // pos 5 of 6 mirrors pos 1
    assert_eq!(block(&e, 15, 7, 50), Some(STONE_BRICKS));
    // pos 0 is a pillar position: no arch
    for y in 5..=9 {
        assert!(!e.block_at_absolute(16, y, 50));
    }
    // the ground blocks the arch where it is not below it
    let mut e = editor();
    e.set_ground_level(13, 50, 8);
    place_arch_understructure(&mut e, &w, 10, &c);
    assert!(!e.block_at_absolute(13, 8, 50));
    assert_eq!(block(&e, 12, 8, 50), Some(STONE_BRICKS));
}

#[test]
fn truss_posts_chord_and_bracing() {
    let mut e = editor();
    let w = way(&[("bridge", "yes")], &[(10, 50), (30, 50)]);
    let c = BridgeConfig::from_bridge_type("yes");
    place_truss_sides(&mut e, &w, 3, &c);
    // post at counter 0 (x = 10), three high, on both sides
    for y in 4..=6 {
        assert_eq!(block(&e, 10, y, 47), Some(STONE_BRICKS));
        assert_eq!(block(&e, 10, y, 53), Some(STONE_BRICKS));
    }
    // chord at counter 1, bracing at counter 2
    assert_eq!(block(&e, 11, 6, 47), Some(STONE_BRICKS));
    assert!(!e.block_at_absolute(11, 5, 47));
    assert_eq!(block(&e, 12, 5, 53), Some(IRON_BARS));
    assert_eq!(block(&e, 14, 4, 47), Some(STONE_BRICKS));
}

/// How far the main cable hangs above its lowest point, as the
/// floating-point parabola `7 * t^2` gives it.
fn float_rise(interval: i32, pos: i32) -> i32 {
    let t = 2.0 * (pos as f64) / (interval as f64) - 1.0;
    ((8.0 - 1.0) * t * t).round() as i32
}

#[test]
fn suspension_towers_and_cables() {
    let mut e = editor();
    let w = way(&[("bridge", "yes")], &[(10, 50), (70, 50)]);
    let c = BridgeConfig::from_bridge_type("yes");
    place_suspension_cables(&mut e, &w, 3, &c);
    // tower every 24 blocks, not at the start
    for y in 4..=11 {
        assert_eq!(block(&e, 34, y, 47), Some(STONE_BRICKS));
        assert_eq!(block(&e, 58, y, 53), Some(STONE_BRICKS));
    }
    assert!(!e.block_at_absolute(10, 5, 47));
    for counter in 1..60 {
        let pos = counter % 24;
        if pos == 0 {
            continue;
        }
        let cable_y = 3 + 1 + float_rise(24, pos);
        assert_eq!(block(&e, 10 + counter, cable_y, 47), Some(CHAIN), "counter {}", counter);
        if pos % 3 == 0 && cable_y > 5 {
            assert_eq!(block(&e, 10 + counter, 5, 53), Some(CHAIN));
        }
    }
    // the cable hangs lowest at midspan, one above the deck ...
    assert_eq!(block(&e, 22, 4, 47), Some(CHAIN));
    assert!(!e.block_at_absolute(22, 10, 47));
    // ... and rises toward the towers: round(7 * (11/12)^2) = 6 blocks higher
    assert_eq!(block(&e, 11, 10, 47), Some(CHAIN));
    assert_eq!(block(&e, 33, 10, 53), Some(CHAIN));
}

#[test]
fn cable_stayed_pylons_and_stays() {
    let mut e = editor();
    let w = way(&[("bridge", "yes")], &[(10, 50), (79, 50)]);
    let c = BridgeConfig::from_bridge_type("yes");
    place_cable_stayed_structure(&mut e, &w, 3, &c);
    // pylon interval 32: a pylon at index 32 (x = 42), not at 0 or 64 ... 69
    for y in 4..=13 {
        assert_eq!(block(&e, 42, y, 47), Some(STONE_BRICKS));
        assert_eq!(block(&e, 42, y, 53), Some(STONE_BRICKS));
    }
    assert!(!e.block_at_absolute(10, 4, 47));
    assert_eq!(block(&e, 74, 4, 47), Some(STONE_BRICKS));
    // reach 16: stays at 2, 4, ..., 14 blocks, height 13 - max(10 d / 16, 1)
    for d in (2..16).step_by(2) {
        let drop = std::cmp::max(10 * d / 16, 1);
        assert_eq!(block(&e, 42 + d, 13 - drop, 47), Some(CHAIN));
        assert_eq!(block(&e, 42 - d, 13 - drop, 53), Some(CHAIN));
    }
}

#[test]
fn abutments_at_both_ends() {
    let mut e = editor();
    let w = way(&[("bridge", "yes")], &[(10, 50), (40, 50)]);
    let c = BridgeConfig::from_bridge_type("yes");
    place_bridge_abutments(&mut e, &w, 3, &c);
    for dz in -3..=3 {
        for y in 0..=3 {
            assert_eq!(block(&e, 10, y, 50 + dz), Some(STONE_BRICKS));
            assert_eq!(block(&e, 40, y, 50 + dz), Some(STONE_BRICKS));
        }
    }
    assert!(!e.block_at_absolute(10, 0, 46));
    // no abutment where the deck is at most one above the ground
    let mut e = editor();
    e.set_ground_level(10, 50, 2);
    place_bridge_abutments(&mut e, &w, 3, &c);
    assert!(!e.block_at_absolute(10, 3, 50));
    assert!(e.block_at_absolute(40, 3, 50));
}

#[test]
fn generated_bridge_has_every_part() {
    let mut e = editor();
    let w = way(&[("bridge", "yes"), ("bridge:structure", "truss")], &[(10, 50), (50, 50), (50, 90)]);
    generate_bridges(&mut e, &w);
    // deck and foundation along both segments; each deck row spreads
    // half_width blocks along x
    for x in 8..=52 {
        assert_eq!(block(&e, x, 3, 50), Some(LIGHT_GRAY_CONCRETE));
        assert_eq!(block(&e, x, 2, 50), Some(STONE_BRICKS));
    }
    assert!(!e.block_at_absolute(30, 3, 51));
    for z in 51..=90 {
        for dx in -2..=2 {
            assert_eq!(block(&e, 50 + dx, 3, z), Some(LIGHT_GRAY_CONCRETE));
        }
    }
    // pillars every 8 blocks of the running count
    assert_eq!(block(&e, 18, 1, 50), Some(STONE_BRICKS));
    assert!(!e.block_at_absolute(19, 1, 50));
    // railings one block beyond the deck
    assert_eq!(block(&e, 20, 4, 47), Some(COBBLESTONE_WALL));
    assert_eq!(block(&e, 20, 4, 53), Some(COBBLESTONE_WALL));
    // truss chord above the railing line
    assert_eq!(block(&e, 21, 6, 47), Some(STONE_BRICKS));
    // abutment at the far end, across the second segment
    assert_eq!(block(&e, 47, 0, 90), Some(STONE_BRICKS));
}

#[test]
fn bridge_far_from_origin_and_high_ground() {
    let x0 = 2_000_000_000;
    let mut e = WorldEditor::new(x0, -2_100_000_000, x0 + 100, -2_099_999_900);
    let z = -2_099_999_950;
    for x in x0..=x0 + 100 {
        for dz in -5..=5 {
            e.set_ground_level(x, z + dz, 500_000_000);
        }
    }
    let w = way(&[("bridge", "yes"), ("layer", "2")], &[(x0 + 10, z), (x0 + 40, z)]);
    generate_bridges(&mut e, &w);
    // the deck six blocks above the highest ground, foundation below it
    for x in x0 + 8..=x0 + 42 {
        assert_eq!(block(&e, x, 500_000_006, z), Some(LIGHT_GRAY_CONCRETE));
        assert_eq!(block(&e, x, 500_000_005, z), Some(STONE_BRICKS));
    }
    // railings on both sides
    assert_eq!(block(&e, x0 + 20, 500_000_007, z - 3), Some(COBBLESTONE_WALL));
    assert_eq!(block(&e, x0 + 20, 500_000_007, z + 3), Some(COBBLESTONE_WALL));
    // a pillar at the first node, down to the ground
    assert_eq!(block(&e, x0 + 10, 500_000_001, z), Some(STONE_BRICKS));
}

#[test]
fn not_a_bridge_writes_nothing() {
    for tags in [vec![("highway", "primary")], vec![("bridge", "no")]] {
        let mut e = editor();
        let w = way(&tags, &[(10, 50), (50, 50)]);
        generate_bridges(&mut e, &w);
        for x in 5..=55 {
            for y in 0..=12 {
                assert!(!e.block_at_absolute(x, y, 50));
            }
        }
    }
}

#[test]
fn repeated_node_and_diagonal_route() {
    let mut e = editor();
    let w = way(&[("bridge", "yes")], &[(10, 10), (10, 10), (30, 20)]);
    generate_bridges(&mut e, &w);
    // the repeated node makes a one-block segment; the diagonal follows the line
    for (x, z) in lib::line::bresenham_line(10, 10, 30, 20) {
        assert_eq!(block(&e, x, 3, z), Some(LIGHT_GRAY_CONCRETE));
    }
    // railings of the first, zero-length segment lie north and south
    assert_eq!(block(&e, 10, 4, 7), Some(COBBLESTONE_WALL));
    assert_eq!(block(&e, 10, 4, 13), Some(COBBLESTONE_WALL));
}

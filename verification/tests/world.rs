use lib::blocks::{CHAIN, COBBLESTONE_WALL, IRON_BARS, OAK_LOG, STONE_BRICKS};
use lib::osm::Tags;
use lib::world::{Placement, WorldEditor};

#[test]
fn first_write_wins() {
    let mut editor = WorldEditor::new(0, 0, 10, 10);
    editor.set_block_absolute(STONE_BRICKS, 1, 2, 3, None, None);
    editor.set_block_absolute(OAK_LOG, 1, 2, 3, None, None);
    assert_eq!(editor.get_block(1, 2, 3), Some(STONE_BRICKS));
    assert!(editor.block_at_absolute(1, 2, 3));
    assert!(!editor.block_at_absolute(1, 3, 3));
}

#[test]
fn writes_outside_the_area_are_dropped() {
    let mut editor = WorldEditor::new(0, 0, 10, 10);
    editor.set_block_absolute(STONE_BRICKS, 11, 0, 5, None, None);
    editor.set_block_absolute(STONE_BRICKS, 5, 0, -1, None, None);
    editor.set_block_absolute(STONE_BRICKS, 10, 0, 10, None, None);
    assert!(!editor.block_at_absolute(11, 0, 5));
    assert!(!editor.block_at_absolute(5, 0, -1));
    assert!(editor.block_at_absolute(10, 0, 10));
}

#[test]
fn override_lists() {
    let mut editor = WorldEditor::new(0, 0, 10, 10);
    editor.set_block_absolute(STONE_BRICKS, 1, 1, 1, None, None);
    // the whitelist allows replacing what it names
    editor.set_block_absolute(OAK_LOG, 1, 1, 1, Some(&[CHAIN]), None);
    assert_eq!(editor.get_block(1, 1, 1), Some(STONE_BRICKS));
    editor.set_block_absolute(OAK_LOG, 1, 1, 1, Some(&[STONE_BRICKS]), None);
    assert_eq!(editor.get_block(1, 1, 1), Some(OAK_LOG));
    // the blacklist protects what it names
    editor.set_block_absolute(IRON_BARS, 1, 1, 1, None, Some(&[OAK_LOG]));
    assert_eq!(editor.get_block(1, 1, 1), Some(OAK_LOG));
    editor.set_block_absolute(IRON_BARS, 1, 1, 1, None, Some(&[COBBLESTONE_WALL]));
    assert_eq!(editor.get_block(1, 1, 1), Some(IRON_BARS));
}

#[test]
fn ground_levels() {
    let mut editor = WorldEditor::new(0, 0, 10, 10);
    assert_eq!(editor.get_ground_level(4, 4), 0);
    editor.set_ground_level(4, 4, 12);
    editor.set_ground_level(4, 5, -3);
    editor.set_ground_level(4, 4, 7);
    assert_eq!(editor.get_ground_level(4, 4), 7);
    assert_eq!(editor.get_ground_level(4, 5), -3);
    assert_eq!(editor.get_absolute_y(4, 2, 4), 9);
}

#[test]
fn plans_apply_in_order() {
    let mut editor = WorldEditor::new(0, 0, 10, 10);
    let plan = vec![
        Placement { block: CHAIN, x: 1, y: 1, z: 1 },
        Placement { block: OAK_LOG, x: 1, y: 1, z: 1 },
        Placement { block: OAK_LOG, x: 2, y: 1, z: 1 },
    ];
    editor.place_all(&plan);
    assert_eq!(editor.get_block(1, 1, 1), Some(CHAIN));
    assert_eq!(editor.get_block(2, 1, 1), Some(OAK_LOG));
}

#[test]
fn tags_keep_the_last_value() {
    let mut tags = Tags::new();
    assert!(tags.get("bridge").is_none());
    tags.insert("bridge".to_string(), "yes".to_string());
    tags.insert("layer".to_string(), "2".to_string());
    tags.insert("bridge".to_string(), "viaduct".to_string());
    assert_eq!(tags.get("bridge").map(|s| s.as_str()), Some("viaduct"));
    assert_eq!(tags.get("layer").map(|s| s.as_str()), Some("2"));
    assert!(tags.get("bridg").is_none());
}

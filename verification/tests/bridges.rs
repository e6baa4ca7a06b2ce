use lib::blocks::{
    BRICK, BRICK_WALL, COBBLESTONE_WALL, GRAY_CONCRETE, IRON_BARS, IRON_BLOCK, LIGHT_GRAY_CONCRETE,
    OAK_FENCE, OAK_LOG, OAK_PLANKS, STONE_BRICKS, STONE_BRICK_WALL,
};
use lib::bridges::{
    add_highway_bridge_railings, calculate_bridge_deck_y, generate_bridges,
    get_railway_bridge_info, BridgeConfig, BridgeStructure,
};
use lib::osm::{ProcessedNode, ProcessedWay, Tags};
use lib::world::WorldEditor;

/// Helper to create a WorldEditor for testing: a 100 x 100 area with the
/// ground at level 0.
fn test_editor() -> WorldEditor {
    WorldEditor::new(0, 0, 100, 100)
}

fn node(id: u64, x: i32, z: i32) -> ProcessedNode {
    ProcessedNode { id, tags: Tags::new(), x, z }
}

/// Helper to create a ProcessedWay with bridge tags
fn make_bridge_way(bridge_type: &str, nodes: Vec<(i32, i32)>, extra_tags: Vec<(&str, &str)>) -> ProcessedWay {
    let mut tags = Tags::new();
    tags.insert("bridge".to_string(), bridge_type.to_string());
    for (k, v) in extra_tags {
        tags.insert(k.to_string(), v.to_string());
    }
    ProcessedWay {
        id: 1,
        nodes: nodes
            .into_iter()
            .enumerate()
            .map(|(i, (x, z))| node(i as u64, x, z))
            .collect(),
        tags,
    }
}

// --- BridgeConfig tests ---

#[test]
fn test_config_default_bridge() {
    let config = BridgeConfig::from_bridge_type("yes");
    assert_eq!(config.deck_block, LIGHT_GRAY_CONCRETE);
    assert_eq!(config.railing_block, COBBLESTONE_WALL);
    assert_eq!(config.support_block, STONE_BRICKS);
    assert!(config.has_railings);
    assert_eq!(config.half_width, 2);
    assert_eq!(config.structure_type, BridgeStructure::Beam);
}

#[test]
fn test_config_aqueduct() {
    let config = BridgeConfig::from_bridge_type("aqueduct");
    assert_eq!(config.deck_block, STONE_BRICKS);
    assert_eq!(config.railing_block, STONE_BRICK_WALL);
    assert!(config.has_railings);
    assert_eq!(config.structure_type, BridgeStructure::Arch);
}

#[test]
fn test_config_boardwalk() {
    let config = BridgeConfig::from_bridge_type("boardwalk");
    assert_eq!(config.deck_block, OAK_PLANKS);
    assert_eq!(config.railing_block, OAK_FENCE);
    assert_eq!(config.support_block, OAK_LOG);
    assert_eq!(config.half_width, 1);
}

#[test]
fn test_config_viaduct() {
    let config = BridgeConfig::from_bridge_type("viaduct");
    assert_eq!(config.deck_block, STONE_BRICKS);
    assert_eq!(config.half_width, 3);
    assert_eq!(config.support_interval, 6);
    assert_eq!(config.structure_type, BridgeStructure::Arch);
}

#[test]
fn test_config_covered() {
    let config = BridgeConfig::from_bridge_type("covered");
    assert_eq!(config.deck_block, OAK_PLANKS);
    assert_eq!(config.support_block, OAK_LOG);
}

#[test]
fn test_config_unknown_type_uses_default() {
    let config = BridgeConfig::from_bridge_type("some_future_type");
    assert_eq!(config.deck_block, LIGHT_GRAY_CONCRETE);
    assert!(config.has_railings);
}

#[test]
fn test_config_from_tags_material_steel() {
    let mut tags = Tags::new();
    tags.insert("bridge".to_string(), "yes".to_string());
    tags.insert("bridge:material".to_string(), "steel".to_string());
    let config = BridgeConfig::from_tags(&tags);
    assert_eq!(config.deck_block, GRAY_CONCRETE);
    assert_eq!(config.railing_block, IRON_BARS);
    assert_eq!(config.support_block, IRON_BLOCK);
}

#[test]
fn test_config_from_tags_material_wood() {
    let mut tags = Tags::new();
    tags.insert("bridge".to_string(), "yes".to_string());
    tags.insert("bridge:material".to_string(), "wood".to_string());
    let config = BridgeConfig::from_tags(&tags);
    assert_eq!(config.deck_block, OAK_PLANKS);
    assert_eq!(config.railing_block, OAK_FENCE);
    assert_eq!(config.support_block, OAK_LOG);
}

#[test]
fn test_config_from_tags_material_concrete() {
    let mut tags = Tags::new();
    tags.insert("bridge".to_string(), "yes".to_string());
    tags.insert("bridge:material".to_string(), "concrete".to_string());
    let config = BridgeConfig::from_tags(&tags);
    assert_eq!(config.deck_block, LIGHT_GRAY_CONCRETE);
    assert_eq!(config.railing_block, GRAY_CONCRETE);
    assert_eq!(config.support_block, GRAY_CONCRETE);
}

#[test]
fn test_config_from_tags_material_brick() {
    let mut tags = Tags::new();
    tags.insert("bridge".to_string(), "yes".to_string());
    tags.insert("bridge:material".to_string(), "brick".to_string());
    let config = BridgeConfig::from_tags(&tags);
    assert_eq!(config.deck_block, BRICK);
    assert_eq!(config.railing_block, BRICK_WALL);
    assert_eq!(config.support_block, BRICK);
}

#[test]
fn test_config_from_tags_structure_override() {
    let mut tags = Tags::new();
    tags.insert("bridge".to_string(), "yes".to_string());
    tags.insert("bridge:structure".to_string(), "truss".to_string());
    let config = BridgeConfig::from_tags(&tags);
    assert_eq!(config.structure_type, BridgeStructure::Truss);
}

#[test]
fn test_config_from_tags_structure_suspension() {
    let mut tags = Tags::new();
    tags.insert("bridge".to_string(), "yes".to_string());
    tags.insert("bridge:structure".to_string(), "suspension".to_string());
    let config = BridgeConfig::from_tags(&tags);
    assert_eq!(config.structure_type, BridgeStructure::Suspension);
}

#[test]
fn test_config_from_tags_structure_cable_stayed() {
    let mut tags = Tags::new();
    tags.insert("bridge".to_string(), "yes".to_string());
    tags.insert("bridge:structure".to_string(), "cable-stayed".to_string());
    let config = BridgeConfig::from_tags(&tags);
    assert_eq!(config.structure_type, BridgeStructure::CableStayed);
}

#[test]
fn test_config_from_tags_material_and_structure() {
    let mut tags = Tags::new();
    tags.insert("bridge".to_string(), "yes".to_string());
    tags.insert("bridge:material".to_string(), "steel".to_string());
    tags.insert("bridge:structure".to_string(), "arch".to_string());
    let config = BridgeConfig::from_tags(&tags);
    assert_eq!(config.deck_block, GRAY_CONCRETE);
    assert_eq!(config.railing_block, IRON_BARS);
    assert_eq!(config.structure_type, BridgeStructure::Arch);
}

#[test]
fn test_config_from_tags_unknown_material_keeps_defaults() {
    let mut tags = Tags::new();
    tags.insert("bridge".to_string(), "yes".to_string());
    tags.insert("bridge:material".to_string(), "carbon_fiber".to_string());
    let config = BridgeConfig::from_tags(&tags);
    assert_eq!(config.deck_block, LIGHT_GRAY_CONCRETE);
    assert_eq!(config.railing_block, COBBLESTONE_WALL);
}

// --- calculate_bridge_deck_y tests ---

#[test]
fn test_deck_y_needs_two_nodes() {
    let editor = test_editor();
    let nodes = vec![node(0, 10, 10)];
    assert!(calculate_bridge_deck_y(&editor, &nodes).is_none());
}

#[test]
fn test_deck_y_returns_max_of_all_nodes() {
    let editor = test_editor();
    // Without ground data, get_ground_level returns 0 for all points
    let nodes = vec![node(0, 10, 10), node(1, 30, 30), node(2, 50, 50)];
    let y = calculate_bridge_deck_y(&editor, &nodes);
    assert_eq!(y, Some(0)); // All at ground level 0 without terrain
}

#[test]
fn test_deck_y_empty_nodes() {
    let editor = test_editor();
    let nodes: Vec<ProcessedNode> = vec![];
    assert!(calculate_bridge_deck_y(&editor, &nodes).is_none());
}

// --- generate_bridges tests ---

#[test]
fn test_generate_bridges_skips_bridge_no() {
    let mut editor = test_editor();
    let way = make_bridge_way("no", vec![(10, 10), (50, 10)], vec![]);
    generate_bridges(&mut editor, &way);
    assert!(!editor.block_at_absolute(30, 3, 10));
}

#[test]
fn test_generate_bridges_single_node_skips() {
    let mut editor = test_editor();
    let way = make_bridge_way("yes", vec![(10, 10)], vec![]);
    generate_bridges(&mut editor, &way);
    assert!(!editor.block_at_absolute(10, 3, 10));
}

#[test]
fn test_generate_bridges_places_deck() {
    let mut editor = test_editor();
    let way = make_bridge_way("yes", vec![(10, 50), (50, 50)], vec![]);
    generate_bridges(&mut editor, &way);
    // Default layer=1 -> bridge_height=3, deck_y=0+3=3
    assert!(editor.block_at_absolute(30, 3, 50));
}

#[test]
fn test_generate_bridges_respects_layer_tag() {
    let mut editor = test_editor();
    let way = make_bridge_way("yes", vec![(10, 50), (50, 50)], vec![("layer", "2")]);
    generate_bridges(&mut editor, &way);
    // layer=2 -> bridge_height=6, deck_y=0+6=6
    assert!(editor.block_at_absolute(30, 6, 50));
    assert!(!editor.block_at_absolute(30, 3, 50));
}

#[test]
fn test_generate_bridges_places_foundation() {
    let mut editor = test_editor();
    let way = make_bridge_way("yes", vec![(10, 50), (50, 50)], vec![]);
    generate_bridges(&mut editor, &way);
    // Foundation should be one block below deck (y=2)
    assert!(editor.block_at_absolute(30, 2, 50));
}

#[test]
fn test_generate_bridges_boardwalk_narrower() {
    let mut editor = test_editor();
    let way = make_bridge_way("boardwalk", vec![(10, 50), (50, 50)], vec![]);
    generate_bridges(&mut editor, &way);
    assert!(editor.block_at_absolute(30, 3, 50)); // Centre point
    assert!(editor.block_at_absolute(9, 3, 50)); // half_width=1
    assert!(!editor.block_at_absolute(8, 3, 50)); // outside half_width
}

#[test]
fn test_generate_bridges_with_material_tag() {
    let mut editor = test_editor();
    let way = make_bridge_way("yes", vec![(10, 50), (50, 50)], vec![("bridge:material", "steel")]);
    generate_bridges(&mut editor, &way);
    // Deck placed at y=3 (layer=1 default)
    assert!(editor.block_at_absolute(30, 3, 50));
}

// --- get_railway_bridge_info tests ---

fn railway_way(bridge: Option<&str>) -> ProcessedWay {
    let mut tags = Tags::new();
    tags.insert("railway".to_string(), "rail".to_string());
    if let Some(b) = bridge {
        tags.insert("bridge".to_string(), b.to_string());
    }
    ProcessedWay { id: 1, nodes: vec![node(0, 10, 10), node(1, 50, 50)], tags }
}

#[test]
fn test_railway_bridge_info_none_without_tag() {
    let editor = test_editor();
    let way = railway_way(None);
    assert!(get_railway_bridge_info(&editor, &way).is_none());
}

#[test]
fn test_railway_bridge_info_returns_config() {
    let editor = test_editor();
    let way = railway_way(Some("yes"));
    let info = get_railway_bridge_info(&editor, &way);
    assert!(info.is_some());
    let (deck_y, config) = info.unwrap();
    assert_eq!(deck_y, 3); // ground_y=0 + layer=1*3
    assert_eq!(config.deck_block, LIGHT_GRAY_CONCRETE);
}

#[test]
fn test_railway_bridge_info_skips_bridge_no() {
    let editor = test_editor();
    let way = railway_way(Some("no"));
    assert!(get_railway_bridge_info(&editor, &way).is_none());
}

// --- add_highway_bridge_railings tests ---

#[test]
fn test_highway_bridge_railings_places_blocks() {
    let mut editor = test_editor();
    // Horizontal segment along z=50
    let points: Vec<(i32, i32)> = (20..=40).map(|x| (x, 50)).collect();
    let deck_y = 5;
    let point_elevations: Vec<i32> = vec![deck_y; points.len()];
    let block_range = 2;
    // Direction is along x-axis
    add_highway_bridge_railings(
        &mut editor,
        &points,
        &point_elevations,
        true, // absolute Y
        block_range,
        COBBLESTONE_WALL,
        1,
        0,
    );
    // Railings should be at z=50 +/- (block_range+1) = z=47 and z=53
    // at y = deck_y + 1 = 6
    assert!(editor.block_at_absolute(30, 6, 47));
    assert!(editor.block_at_absolute(30, 6, 53));
    // No railing in the centre
    assert!(!editor.block_at_absolute(30, 6, 50));
}

#[test]
fn test_highway_bridge_railings_per_point_elevation() {
    let mut editor = test_editor();
    let points: Vec<(i32, i32)> = (20..=22).map(|x| (x, 50)).collect();
    // Each point has a different absolute Y
    let point_elevations = vec![3, 5, 7];
    add_highway_bridge_railings(&mut editor, &points, &point_elevations, true, 2, COBBLESTONE_WALL, 1, 0);
    // First point railing at y=4, second at y=6, third at y=8
    assert!(editor.block_at_absolute(20, 4, 47));
    assert!(editor.block_at_absolute(21, 6, 47));
    assert!(editor.block_at_absolute(22, 8, 47));
}

#[test]
fn test_highway_bridge_railings_custom_block() {
    let mut editor = test_editor();
    let points: Vec<(i32, i32)> = vec![(30, 50)];
    let point_elevations = vec![5];
    add_highway_bridge_railings(&mut editor, &points, &point_elevations, true, 2, IRON_BARS, 1, 0);
    // Railing placed at y=6
    assert!(editor.block_at_absolute(30, 6, 47));
}

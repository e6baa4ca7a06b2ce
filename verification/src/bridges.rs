use vstd::prelude::*;
use crate::blocks::{
    Block, BRICK, BRICK_WALL, COBBLESTONE_WALL, GRAY_CONCRETE, IRON_BARS, IRON_BLOCK,
    LIGHT_GRAY_CONCRETE, OAK_FENCE, OAK_LOG, OAK_PLANKS, STONE_BRICKS, STONE_BRICK_WALL,
};
use crate::geometry::side_block;
use crate::osm::{tag, ProcessedNode, ProcessedWay, Tags};
use crate::structures::{
    abutment_plan, abutment_writes, abutments_fit, arch_plan, cable_stayed_fits, cable_stayed_plan,
    cable_stayed_writes, detail_fits, detail_route_plan, detail_writes,
};
use crate::plan::{column, lemma_flatten_next, lemma_flatten_none, push_column, push_spot};
use crate::way::{
    fits_i32, lemma_points_before_mono, pairs, points_before, route_len, seg_dir, seg_len, seg_point,
    segment_line, segment_points, segments_fit, side_of, step_fits,
};
use crate::text::{parse_i32, parsed_i32, text_eq};
use crate::world::{ground_at, spots, Ground, Placement, Spot, WorldEditor};

verus! {

/// Bridge structural type, determined by the `bridge:structure` OSM tag.
#[derive(PartialEq, Eq, Structural, Clone, Copy, Debug)]
pub enum BridgeStructure {
    /// Simple flat beam bridge (default)
    Beam,
    /// Arch bridge with curved underside
    Arch,
    /// Truss bridge with side bracing
    Truss,
    /// Suspension bridge with towers and draped cables
    Suspension,
    /// Cable-stayed bridge with diagonal cables from pylons
    CableStayed,
}

/// Visual configuration for a bridge, determined by OSM tags.
#[derive(PartialEq, Eq, Structural, Clone, Copy, Debug)]
pub struct BridgeConfig {
    pub deck_block: Block,
    pub railing_block: Block,
    pub support_block: Block,
    pub has_railings: bool,
    pub support_interval: i32,
    /// Half-width of the bridge deck (e.g. 2 means 5 blocks wide: -2..=2)
    pub half_width: i32,
    pub structure_type: BridgeStructure,
}

/// The configuration that a `bridge=*` value starts from.
pub open spec fn base_config(bridge_type: Seq<char>) -> BridgeConfig {
    if bridge_type == "aqueduct"@ {
        BridgeConfig {
            deck_block: STONE_BRICKS,
            railing_block: STONE_BRICK_WALL,
            support_block: STONE_BRICKS,
            has_railings: true,
            support_interval: 6,
            half_width: 2,
            structure_type: BridgeStructure::Arch,
        }
    } else if bridge_type == "boardwalk"@ {
        BridgeConfig {
            deck_block: OAK_PLANKS,
            railing_block: OAK_FENCE,
            support_block: OAK_LOG,
            has_railings: true,
            support_interval: 4,
            half_width: 1,
            structure_type: BridgeStructure::Beam,
        }
    } else if bridge_type == "viaduct"@ {
        BridgeConfig {
            deck_block: STONE_BRICKS,
            railing_block: STONE_BRICK_WALL,
            support_block: STONE_BRICKS,
            has_railings: true,
            support_interval: 6,
            half_width: 3,
            structure_type: BridgeStructure::Arch,
        }
    } else if bridge_type == "covered"@ {
        BridgeConfig {
            deck_block: OAK_PLANKS,
            railing_block: OAK_PLANKS,
            support_block: OAK_LOG,
            has_railings: true,
            support_interval: 5,
            half_width: 2,
            structure_type: BridgeStructure::Beam,
        }
    } else {
        BridgeConfig {
            deck_block: LIGHT_GRAY_CONCRETE,
            railing_block: COBBLESTONE_WALL,
            support_block: STONE_BRICKS,
            has_railings: true,
            support_interval: 8,
            half_width: 2,
            structure_type: BridgeStructure::Beam,
        }
    }
}

/// The deck, railing and support blocks of a `bridge:material` value, if it
/// is one that is recognised.
pub open spec fn material_blocks(material: Seq<char>) -> Option<(Block, Block, Block)> {
    if material == "steel"@ || material == "metal"@ {
        Some((GRAY_CONCRETE, IRON_BARS, IRON_BLOCK))
    } else if material == "stone"@ || material == "masonry"@ {
        Some((STONE_BRICKS, STONE_BRICK_WALL, STONE_BRICKS))
    } else if material == "wood"@ || material == "timber"@ {
        Some((OAK_PLANKS, OAK_FENCE, OAK_LOG))
    } else if material == "concrete"@ || material == "prestressed_concrete"@
        || material == "reinforced_concrete"@ {
        Some((LIGHT_GRAY_CONCRETE, GRAY_CONCRETE, GRAY_CONCRETE))
    } else if material == "brick"@ {
        Some((BRICK, BRICK_WALL, BRICK))
    } else {
        None
    }
}

/// `config` with the blocks of a recognised material.
pub open spec fn with_material(config: BridgeConfig, material: Option<Seq<char>>) -> BridgeConfig {
    match material {
        Some(m) => match material_blocks(m) {
            Some(b) => BridgeConfig {
                deck_block: b.0,
                railing_block: b.1,
                support_block: b.2,
                ..config
            },
            None => config,
        },
        None => config,
    }
}

/// The structure type of a `bridge:structure` value, if it is one that is
/// recognised.
pub open spec fn structure_of(structure: Seq<char>) -> Option<BridgeStructure> {
    if structure == "arch"@ {
        Some(BridgeStructure::Arch)
    } else if structure == "truss"@ {
        Some(BridgeStructure::Truss)
    } else if structure == "suspension"@ {
        Some(BridgeStructure::Suspension)
    } else if structure == "cable-stayed"@ || structure == "cable_stayed"@ {
        Some(BridgeStructure::CableStayed)
    } else if structure == "beam"@ || structure == "simple-beam"@ {
        Some(BridgeStructure::Beam)
    } else {
        None
    }
}

/// `config` with the structure type of a recognised structure.
pub open spec fn with_structure(config: BridgeConfig, structure: Option<Seq<char>>) -> BridgeConfig {
    match structure {
        Some(s) => match structure_of(s) {
            Some(t) => BridgeConfig { structure_type: t, ..config },
            None => config,
        },
        None => config,
    }
}

/// The `bridge=*` value, `yes` where the tag is missing.
pub open spec fn bridge_type_of(tags: Map<Seq<char>, Seq<char>>) -> Seq<char> {
    match tag(tags, "bridge"@) {
        Some(t) => t,
        None => "yes"@,
    }
}

/// The configuration for a set of tags.
pub open spec fn config_from_tags(tags: Map<Seq<char>, Seq<char>>) -> BridgeConfig {
    with_structure(
        with_material(base_config(bridge_type_of(tags)), tag(tags, "bridge:material"@)),
        tag(tags, "bridge:structure"@),
    )
}

/// What every configuration made from tags satisfies.
pub open spec fn config_in_range(c: BridgeConfig) -> bool {
    &&& c.has_railings
    &&& 1 <= c.half_width <= 3
    &&& 4 <= c.support_interval <= 8
}

fn material_override(mat: &str) -> (r: Option<(Block, Block, Block)>)
    ensures
        r == material_blocks(mat@),
{
    if text_eq(mat, "steel") || text_eq(mat, "metal") {
        Some((GRAY_CONCRETE, IRON_BARS, IRON_BLOCK))
    } else if text_eq(mat, "stone") || text_eq(mat, "masonry") {
        Some((STONE_BRICKS, STONE_BRICK_WALL, STONE_BRICKS))
    } else if text_eq(mat, "wood") || text_eq(mat, "timber") {
        Some((OAK_PLANKS, OAK_FENCE, OAK_LOG))
    } else if text_eq(mat, "concrete") || text_eq(mat, "prestressed_concrete") || text_eq(
        mat,
        "reinforced_concrete",
    ) {
        Some((LIGHT_GRAY_CONCRETE, GRAY_CONCRETE, GRAY_CONCRETE))
    } else if text_eq(mat, "brick") {
        Some((BRICK, BRICK_WALL, BRICK))
    } else {
        None
    }
}

fn structure_override(st: &str) -> (r: Option<BridgeStructure>)
    ensures
        r == structure_of(st@),
{
    if text_eq(st, "arch") {
        Some(BridgeStructure::Arch)
    } else if text_eq(st, "truss") {
        Some(BridgeStructure::Truss)
    } else if text_eq(st, "suspension") {
        Some(BridgeStructure::Suspension)
    } else if text_eq(st, "cable-stayed") || text_eq(st, "cable_stayed") {
        Some(BridgeStructure::CableStayed)
    } else if text_eq(st, "beam") || text_eq(st, "simple-beam") {
        Some(BridgeStructure::Beam)
    } else {
        None
    }
}

impl BridgeConfig {
    /// Create a bridge configuration from the OSM `bridge=*` tag value only.
    pub fn from_bridge_type(bridge_type: &str) -> (c: Self)
        ensures
            c == config_from_tags(Map::empty().insert("bridge"@, bridge_type@)),
            c == base_config(bridge_type@),
            config_in_range(c),
    {
        let mut tags = Tags::new();
        tags.insert("bridge".to_owned(), bridge_type.to_owned());
        let c = Self::from_tags(&tags);
        proof {
            let m = Map::<Seq<char>, Seq<char>>::empty().insert("bridge"@, bridge_type@);
            assert(tags@ == m);
            assert(!m.contains_key("bridge:material"@)) by {
                reveal_strlit("bridge");
                reveal_strlit("bridge:material");
                assert("bridge"@.len() != "bridge:material"@.len());
            }
            assert(!m.contains_key("bridge:structure"@)) by {
                reveal_strlit("bridge");
                reveal_strlit("bridge:structure");
                assert("bridge"@.len() != "bridge:structure"@.len());
            }
        }
        c
    }

    /// Create a bridge configuration from the full set of OSM tags.
    /// Uses `bridge`, `bridge:material`, and `bridge:structure` tags.
    pub fn from_tags(tags: &Tags) -> (c: Self)
        ensures
            c == config_from_tags(tags@),
            config_in_range(c),
    {
        let bridge_type: &str = match tags.get("bridge") {
            Some(t) => t.as_str(),
            None => "yes",
        };
        let mut config = if text_eq(bridge_type, "aqueduct") {
            BridgeConfig {
                deck_block: STONE_BRICKS,
                railing_block: STONE_BRICK_WALL,
                support_block: STONE_BRICKS,
                has_railings: true,
                support_interval: 6,
                half_width: 2,
                structure_type: BridgeStructure::Arch,
            }
        } else if text_eq(bridge_type, "boardwalk") {
            BridgeConfig {
                deck_block: OAK_PLANKS,
                railing_block: OAK_FENCE,
                support_block: OAK_LOG,
                has_railings: true,
                support_interval: 4,
                half_width: 1,
                structure_type: BridgeStructure::Beam,
            }
        } else if text_eq(bridge_type, "viaduct") {
            BridgeConfig {
                deck_block: STONE_BRICKS,
                railing_block: STONE_BRICK_WALL,
                support_block: STONE_BRICKS,
                has_railings: true,
                support_interval: 6,
                half_width: 3,
                structure_type: BridgeStructure::Arch,
            }
        } else if text_eq(bridge_type, "covered") {
            BridgeConfig {
                deck_block: OAK_PLANKS,
                railing_block: OAK_PLANKS,
                support_block: OAK_LOG,
                has_railings: true,
                support_interval: 5,
                half_width: 2,
                structure_type: BridgeStructure::Beam,
            }
        } else {
            // Default for "yes" and any other unrecognised value
            BridgeConfig {
                deck_block: LIGHT_GRAY_CONCRETE,
                railing_block: COBBLESTONE_WALL,
                support_block: STONE_BRICKS,
                has_railings: true,
                support_interval: 8,
                half_width: 2,
                structure_type: BridgeStructure::Beam,
            }
        };
        assert(config == base_config(bridge_type_of(tags@)));

        // Override blocks based on bridge:material tag
        if let Some(mat) = tags.get("bridge:material") {
            if let Some(b) = material_override(mat.as_str()) {
                config.deck_block = b.0;
                config.railing_block = b.1;
                config.support_block = b.2;
            }
        }
        assert(config == with_material(
            base_config(bridge_type_of(tags@)),
            tag(tags@, "bridge:material"@),
        ));

        // Override structure type from bridge:structure tag
        if let Some(st) = tags.get("bridge:structure") {
            if let Some(t) = structure_override(st.as_str()) {
                config.structure_type = t;
            }
        }
        config
    }
}

/// The ground level under a node.
pub open spec fn node_ground(g: Ground, n: ProcessedNode) -> int {
    ground_at(g, n.x as int, n.z as int)
}

/// The highest ground level under the nodes.
pub open spec fn max_ground(g: Ground, nodes: Seq<ProcessedNode>) -> int
    decreases nodes.len(),
{
    if nodes.len() <= 1 {
        node_ground(g, nodes[0])
    } else {
        let rest = max_ground(g, nodes.drop_last());
        let last = node_ground(g, nodes.last());
        if rest >= last {
            rest
        } else {
            last
        }
    }
}

/// The highest ground level under the nodes is at least the ground under
/// each node, and it is the ground under one of them.
pub proof fn lemma_max_ground_bounds(g: Ground, nodes: Seq<ProcessedNode>)
    requires
        nodes.len() >= 1,
    ensures
        forall|i: int| 0 <= i < nodes.len() ==> node_ground(g, #[trigger] nodes[i]) <= max_ground(g, nodes),
        exists|i: int| 0 <= i < nodes.len() && node_ground(g, #[trigger] nodes[i]) == max_ground(g, nodes),
    decreases nodes.len(),
{
    if nodes.len() == 1 {
        assert(node_ground(g, nodes[0]) == max_ground(g, nodes));
    } else {
        let rest = nodes.drop_last();
        lemma_max_ground_bounds(g, rest);
        assert forall|i: int| 0 <= i < nodes.len() implies node_ground(g, #[trigger] nodes[i]) <= max_ground(g, nodes) by {
            if i < nodes.len() - 1 {
                assert(nodes[i] == rest[i]);
            }
        }
        if max_ground(g, rest) >= node_ground(g, nodes.last()) {
            let j = choose|j: int| 0 <= j < rest.len() && node_ground(g, #[trigger] rest[j]) == max_ground(g, rest);
            assert(nodes[j] == rest[j]);
        } else {
            assert(nodes[nodes.len() - 1] == nodes.last());
        }
    }
}

/// Calculate a flat bridge deck Y level from the way's node ground elevations.
/// Samples ALL nodes (not just endpoints) so the deck clears terrain everywhere.
pub fn calculate_bridge_deck_y(editor: &WorldEditor, nodes: &[ProcessedNode]) -> (r: Option<i32>)
    ensures
        r is Some <==> nodes@.len() >= 2,
        r matches Some(y) ==> y == max_ground(editor@.ground, nodes@),
        r matches Some(y) ==> forall|i: int|
            0 <= i < nodes@.len() ==> node_ground(editor@.ground, #[trigger] nodes@[i]) <= y,
        r matches Some(y) ==> exists|i: int|
            0 <= i < nodes@.len() && node_ground(editor@.ground, #[trigger] nodes@[i]) == y,
{
    if nodes.len() < 2 {
        return None;
    }
    let mut best = editor.get_ground_level(nodes[0].x, nodes[0].z);
    let mut i: usize = 1;
    proof {
        assert(nodes@.take(1).len() == 1);
        assert(nodes@.take(1)[0] == nodes@[0]);
    }
    while i < nodes.len()
        invariant
            1 <= i <= nodes@.len(),
            best == max_ground(editor@.ground, nodes@.take(i as int)),
        decreases nodes@.len() - i,
    {
        let g = editor.get_ground_level(nodes[i].x, nodes[i].z);
        proof {
            assert(nodes@.take(i + 1).drop_last() =~= nodes@.take(i as int));
            assert(nodes@.take(i + 1).last() == nodes@[i as int]);
        }
        if g > best {
            best = g;
        }
        i = i + 1;
    }
    proof {
        assert(nodes@.take(i as int) =~= nodes@);
        lemma_max_ground_bounds(editor@.ground, nodes@);
    }
    Some(best)
}

/// The 3x3 footing of a pillar at ground level.
pub open spec fn pillar_base(block: Block, x: int, ground_y: int, z: int) -> Seq<Spot> {
    seq![
        (block, x - 1, ground_y, z - 1),
        (block, x - 1, ground_y, z),
        (block, x - 1, ground_y, z + 1),
        (block, x, ground_y, z - 1),
        (block, x, ground_y, z),
        (block, x, ground_y, z + 1),
        (block, x + 1, ground_y, z - 1),
        (block, x + 1, ground_y, z),
        (block, x + 1, ground_y, z + 1),
    ]
}

/// A support pillar at `(x, z)` from the ground up to just below `deck_y`,
/// standing on a 3x3 footing; nothing where the deck is not above the ground.
pub open spec fn pillar_plan(ground_y: int, block: Block, x: int, deck_y: int, z: int) -> Seq<Spot> {
    if deck_y <= ground_y {
        Seq::empty()
    } else {
        column(block, x, z, ground_y + 1, deck_y) + pillar_base(block, x, ground_y, z)
    }
}

/// The column `(x, z)` has a neighbour on every side within the range of
/// `i32`, as the footing of a pillar needs.
pub open spec fn inner_column(x: int, z: int) -> bool {
    i32::MIN < x < i32::MAX && i32::MIN < z < i32::MAX
}

fn pillar_writes(plan: &mut Vec<Placement>, ground_y: i32, block: Block, x: i32, deck_y: i32, z: i32)
    requires
        ground_y < deck_y ==> inner_column(x as int, z as int),
    ensures
        spots(final(plan)@) == spots(old(plan)@) + pillar_plan(
            ground_y as int,
            block,
            x as int,
            deck_y as int,
            z as int,
        ),
{
    if deck_y <= ground_y {
        assert(spots(plan@) =~= spots(plan@) + Seq::<Spot>::empty());
        return;
    }
    // Pillar column
    push_column(plan, block, x, z, ground_y as i64 + 1, deck_y as i64);
    // Pillar base (3x3)
    push_spot(plan, block, x - 1, ground_y, z - 1);
    push_spot(plan, block, x - 1, ground_y, z);
    push_spot(plan, block, x - 1, ground_y, z + 1);
    push_spot(plan, block, x, ground_y, z - 1);
    push_spot(plan, block, x, ground_y, z);
    push_spot(plan, block, x, ground_y, z + 1);
    push_spot(plan, block, x + 1, ground_y, z - 1);
    push_spot(plan, block, x + 1, ground_y, z);
    push_spot(plan, block, x + 1, ground_y, z + 1);
    proof {
        assert(spots(plan@) =~= spots(old(plan)@) + pillar_plan(
            ground_y as int,
            block,
            x as int,
            deck_y as int,
            z as int,
        ));
    }
}

/// Place a support pillar from ground level up to the bridge deck.
pub fn place_support_pillar(
    editor: &mut WorldEditor,
    x: i32,
    deck_y: i32,
    z: i32,
    config: &BridgeConfig,
)
    requires
        ground_at(old(editor)@.ground, x as int, z as int) < deck_y ==> inner_column(x as int, z as int),
    ensures
        final(editor)@ == old(editor)@.place_all(
            pillar_plan(
                ground_at(old(editor)@.ground, x as int, z as int),
                config.support_block,
                x as int,
                deck_y as int,
                z as int,
            ),
        ),
{
    let ground_y = editor.get_ground_level(x, z);
    let mut plan: Vec<Placement> = Vec::new();
    pillar_writes(&mut plan, ground_y, config.support_block, x, deck_y, z);
    assert(spots(plan@) =~= Seq::<Spot>::empty() + spots(plan@));
    editor.place_all(plan.as_slice());
}

/// The railings on both sides of one block of a bridge: `reach` steps to the
/// left of the direction `dir`, then `reach` steps to the right, at height `y`.
pub open spec fn railing_pair(block: Block, y: int, p: (int, int), dir: (int, int), reach: int) -> Seq<Spot> {
    let l = side_of(p, dir, -reach);
    let r = side_of(p, dir, reach);
    seq![(block, l.0, y, l.1), (block, r.0, y, r.1)]
}

/// The railings along a run of blocks: one block beyond the deck edge on each
/// side, one block above the deck.
pub open spec fn railings_plan(c: BridgeConfig, deck_y: int, pts: Seq<(int, int)>, dir: (int, int)) -> Seq<Spot> {
    Seq::new(
        pts.len(),
        |j: int| railing_pair(c.railing_block, deck_y + 1, pts[j], dir, c.half_width + 1),
    ).flatten()
}

/// Appends the two side blocks `reach` steps either side of `(x, z)`.
fn railing_pair_writes(
    plan: &mut Vec<Placement>,
    block: Block,
    y: i32,
    x: i32,
    z: i32,
    dx: i32,
    dz: i32,
    reach: i64,
)
    requires
        -0x8000_0000 <= reach <= 0x8000_0000,
    ensures
        spots(final(plan)@) == spots(old(plan)@) + railing_pair(
            block,
            y as int,
            (x as int, z as int),
            (dx as int, dz as int),
            reach as int,
        ),
{
    let l = side_block(x, z, dx, dz, -reach);
    let r = side_block(x, z, dx, dz, reach);
    push_spot(plan, block, l.0, y, l.1);
    push_spot(plan, block, r.0, y, r.1);
    proof {
        assert(spots(plan@) =~= spots(old(plan)@) + railing_pair(
            block,
            y as int,
            (x as int, z as int),
            (dx as int, dz as int),
            reach as int,
        ));
    }
}

fn railing_writes(
    plan: &mut Vec<Placement>,
    config: &BridgeConfig,
    deck_y: i32,
    points: &[(i32, i32)],
    dx: i32,
    dz: i32,
)
    requires
        points@.len() > 0 ==> deck_y < i32::MAX,
    ensures
        spots(final(plan)@) == spots(old(plan)@) + railings_plan(
            *config,
            deck_y as int,
            pairs(points@),
            (dx as int, dz as int),
        ),
{
    let ghost start = spots(plan@);
    let ghost pts = pairs(points@);
    let ghost f = |j: int|
        railing_pair(
            config.railing_block,
            deck_y + 1,
            pts[j],
            (dx as int, dz as int),
            config.half_width + 1,
        );
    proof {
        lemma_flatten_none(f);
    }
    let mut j: usize = 0;
    while j < points.len()
        invariant
            j <= points@.len(),
            pts == pairs(points@),
            points@.len() > 0 ==> deck_y < i32::MAX,
            f == (|j: int|
                railing_pair(
                    config.railing_block,
                    deck_y + 1,
                    pts[j],
                    (dx as int, dz as int),
                    config.half_width + 1,
                )),
            spots(plan@) == start + Seq::new(j as nat, f).flatten(),
        decreases points@.len() - j,
    {
        let (x, z) = points[j];
        proof {
            assert(pts[j as int] == (x as int, z as int));
        }
        railing_pair_writes(plan, config.railing_block, deck_y + 1, x, z, dx, dz, config.half_width as i64 + 1);
        proof {
            lemma_flatten_next(f, j as int);
            assert(start + Seq::new(j as nat, f).flatten() + f(j as int) =~= start + Seq::new(
                (j + 1) as nat,
                f,
            ).flatten());
        }
        j = j + 1;
    }
}

/// Place railings along both sides of a bridge segment, for a segment that
/// runs in the direction `(dir_dx, dir_dz)`.
pub fn place_railings_for_segment(
    editor: &mut WorldEditor,
    points: &[(i32, i32)],
    deck_y: i32,
    config: &BridgeConfig,
    dir_dx: i32,
    dir_dz: i32,
)
    requires
        points@.len() > 0 ==> deck_y < i32::MAX,
    ensures
        final(editor)@ == old(editor)@.place_all(
            railings_plan(*config, deck_y as int, pairs(points@), (dir_dx as int, dir_dz as int)),
        ),
{
    let mut plan: Vec<Placement> = Vec::new();
    railing_writes(&mut plan, config, deck_y, points, dir_dx, dir_dz);
    assert(spots(plan@) =~= railings_plan(
        *config,
        deck_y as int,
        pairs(points@),
        (dir_dx as int, dir_dz as int),
    ));
    editor.place_all(plan.as_slice());
}

/// How many blocks wide a deck of half-width `hw` is.
pub open spec fn span_len(hw: int) -> nat {
    if hw >= 0 {
        (2 * hw + 1) as nat
    } else {
        0
    }
}

/// One deck block and the foundation block under it, `k` blocks from the
/// deck's left edge.
pub open spec fn deck_cell(c: BridgeConfig, deck_y: int, x: int, z: int, k: int) -> Seq<Spot> {
    seq![
        (c.deck_block, x + k - c.half_width, deck_y, z),
        (c.support_block, x + k - c.half_width, deck_y - 1, z),
    ]
}

/// The deck across one block of the route: `x - hw ..= x + hw` at `deck_y`,
/// with the foundation layer underneath.
pub open spec fn deck_row(c: BridgeConfig, deck_y: int, x: int, z: int) -> Seq<Spot> {
    Seq::new(span_len(c.half_width as int), |k: int| deck_cell(c, deck_y, x, z, k)).flatten()
}

/// The deck at one block of the route, and a support pillar under it where
/// the running count of blocks is a multiple of the support interval.
pub open spec fn deck_point_plan(
    g: Ground,
    c: BridgeConfig,
    deck_y: int,
    p: (int, int),
    counter: int,
) -> Seq<Spot> {
    deck_row(c, deck_y, p.0, p.1) + if counter % (c.support_interval as int) == 0 {
        pillar_plan(ground_at(g, p.0, p.1), c.support_block, p.0, deck_y - 1, p.1)
    } else {
        Seq::empty()
    }
}

/// The deck along segment `s`, then its railings where the bridge has them.
pub open spec fn deck_segment_plan(
    g: Ground,
    c: BridgeConfig,
    deck_y: int,
    nodes: Seq<ProcessedNode>,
    s: int,
) -> Seq<Spot> {
    let pts = segment_points(nodes, s);
    Seq::new(
        pts.len(),
        |j: int| deck_point_plan(g, c, deck_y, pts[j], points_before(nodes, s) + j),
    ).flatten() + if c.has_railings {
        railings_plan(c, deck_y, pts, seg_dir(nodes, s))
    } else {
        Seq::empty()
    }
}

/// The segment count of a way with `n` nodes.
pub open spec fn seg_count(n: int) -> nat {
    if n >= 1 {
        (n - 1) as nat
    } else {
        0
    }
}

/// The deck, pillars and railings along all segments, in order.
pub open spec fn deck_plan(g: Ground, c: BridgeConfig, deck_y: int, nodes: Seq<ProcessedNode>) -> Seq<Spot> {
    Seq::new(
        seg_count(nodes.len() as int),
        |t: int| deck_segment_plan(g, c, deck_y, nodes, t + 1),
    ).flatten()
}

/// Every node leaves room within the range of `i32` for the deck, `hw`
/// blocks to each side along x.
pub open spec fn deck_fits(nodes: Seq<ProcessedNode>, hw: int) -> bool {
    forall|i: int| 0 <= i < nodes.len() ==> i32::MIN + hw <= #[trigger] nodes[i].x <= i32::MAX - hw
}

/// Wherever the running count of blocks puts a pillar under a deck at
/// `deck_y` that stands above the ground, the column has neighbours on both
/// sides along z within the range of `i32`, for the footing.
pub open spec fn pillars_fit(g: Ground, c: BridgeConfig, deck_y: int, nodes: Seq<ProcessedNode>) -> bool {
    forall|s: int, j: int|
        1 <= s < nodes.len() && 0 <= j < seg_len(nodes, s) && (points_before(nodes, s) + j) % (
        c.support_interval as int) == 0 && ground_at(g, #[trigger] seg_point(nodes, s, j).0, seg_point(nodes, s, j).1)
            < deck_y - 1 ==> i32::MIN < seg_point(nodes, s, j).1 < i32::MAX
}

/// Every block of segment `s` leaves the room that `deck_fits` leaves at the
/// nodes.
proof fn lemma_segment_fits(nodes: Seq<ProcessedNode>, hw: int, s: int, j: int)
    requires
        deck_fits(nodes, hw),
        1 <= s < nodes.len(),
        0 <= j < segment_points(nodes, s).len(),
    ensures
        i32::MIN + hw <= segment_points(nodes, s)[j].0 <= i32::MAX - hw,
{
    let a = nodes[s - 1];
    let b = nodes[s];
    crate::line::lemma_line_point_between(a.x as int, a.z as int, b.x as int, b.z as int, j);
}

fn deck_row_writes(plan: &mut Vec<Placement>, config: &BridgeConfig, deck_y: i32, x: i32, z: i32)
    requires
        config_in_range(*config),
        i32::MIN + config.half_width <= x <= i32::MAX - config.half_width,
        i32::MIN < deck_y,
    ensures
        spots(final(plan)@) == spots(old(plan)@) + deck_row(*config, deck_y as int, x as int, z as int),
{
    let ghost start = spots(plan@);
    let ghost f = |k: int| deck_cell(*config, deck_y as int, x as int, z as int, k);
    proof {
        lemma_flatten_none(f);
    }
    let hw = config.half_width;
    let mut k: i32 = 0;
    while k <= 2 * hw
        invariant
            config_in_range(*config),
            hw == config.half_width,
            0 <= k <= 2 * hw + 1,
            i32::MIN + hw <= x <= i32::MAX - hw,
            i32::MIN < deck_y,
            f == (|k: int| deck_cell(*config, deck_y as int, x as int, z as int, k)),
            spots(plan@) == start + Seq::new(k as nat, f).flatten(),
        decreases 2 * hw + 1 - k,
    {
        let dx = k - hw;
        push_spot(plan, config.deck_block, x + dx, deck_y, z);
        // Foundation layer underneath
        push_spot(plan, config.support_block, x + dx, deck_y - 1, z);
        proof {
            lemma_flatten_next(f, k as int);
            assert(start + Seq::new(k as nat, f).flatten() + f(k as int) =~= start + Seq::new(
                (k + 1) as nat,
                f,
            ).flatten());
            assert(spots(plan@) =~= start + Seq::new(k as nat, f).flatten() + f(k as int));
        }
        k = k + 1;
    }
}

fn deck_writes(
    plan: &mut Vec<Placement>,
    editor: &WorldEditor,
    config: &BridgeConfig,
    deck_y: i32,
    nodes: &[ProcessedNode],
)
    requires
        config_in_range(*config),
        i32::MIN < deck_y < i32::MAX,
        deck_fits(nodes@, config.half_width as int),
        pillars_fit(editor@.ground, *config, deck_y as int, nodes@),
        segments_fit(nodes@),
        route_len(nodes@) <= i32::MAX,
    ensures
        spots(final(plan)@) == spots(old(plan)@) + deck_plan(
            editor@.ground,
            *config,
            deck_y as int,
            nodes@,
        ),
{
    let ghost start = spots(plan@);
    let ghost g = editor@.ground;
    let ghost f = |t: int| deck_segment_plan(g, *config, deck_y as int, nodes@, t + 1);
    proof {
        lemma_flatten_none(f);
    }
    if nodes.len() == 0 {
        return;
    }
    let mut s: usize = 1;
    let mut counter: i64 = 0;
    while s < nodes.len()
        invariant
            1 <= s <= nodes@.len(),
            config_in_range(*config),
            i32::MIN < deck_y < i32::MAX,
            deck_fits(nodes@, config.half_width as int),
            pillars_fit(g, *config, deck_y as int, nodes@),
            segments_fit(nodes@),
            route_len(nodes@) <= i32::MAX,
            g == editor@.ground,
            counter == points_before(nodes@, s as int),
            f == (|t: int| deck_segment_plan(g, *config, deck_y as int, nodes@, t + 1)),
            spots(plan@) == start + Seq::new((s - 1) as nat, f).flatten(),
        decreases nodes@.len() - s,
    {
        let pts = segment_line(nodes, s);
        let ghost spts = segment_points(nodes@, s as int);
        let ghost base = counter as int;
        let ghost mid = spots(plan@);
        let ghost h = |j: int| deck_point_plan(g, *config, deck_y as int, spts[j], base + j);
        proof {
            lemma_flatten_none(h);
            lemma_points_before_mono(nodes@, s + 1, nodes@.len() as int);
            lemma_points_before_mono(nodes@, s as int, s as int);
        }
        let mut j: usize = 0;
        while j < pts.len()
            invariant
                j <= pts@.len(),
                1 <= s < nodes@.len(),
                pairs(pts@) == spts,
                spts == segment_points(nodes@, s as int),
                spts.len() == pts@.len(),
                deck_fits(nodes@, config.half_width as int),
                pillars_fit(g, *config, deck_y as int, nodes@),
                config_in_range(*config),
                i32::MIN < deck_y < i32::MAX,
                g == editor@.ground,
                base == points_before(nodes@, s as int),
                0 <= base,
                base + spts.len() <= i32::MAX,
                counter == base + j,
                h == (|j: int| deck_point_plan(g, *config, deck_y as int, spts[j], base + j)),
                spots(plan@) == mid + Seq::new(j as nat, h).flatten(),
            decreases pts@.len() - j,
        {
            let (x, z) = pts[j];
            proof {
                assert(spts[j as int] == (x as int, z as int));
                lemma_segment_fits(nodes@, config.half_width as int, s as int, j as int);
            }
            let ghost before = spots(plan@);
            // Place deck
            deck_row_writes(plan, config, deck_y, x, z);
            let ghost after_row = spots(plan@);
            let ghost row = deck_row(*config, deck_y as int, x as int, z as int);
            assert(h(j as int) == row + if (base + j) % (config.support_interval as int) == 0 {
                pillar_plan(ground_at(g, x as int, z as int), config.support_block, x as int, deck_y - 1, z as int)
            } else {
                Seq::<Spot>::empty()
            });
            // Support pillars at interval
            if counter % (config.support_interval as i64) == 0 {
                let ground_y = editor.get_ground_level(x, z);
                proof {
                    assert(spts[j as int] == seg_point(nodes@, s as int, j as int));
                }
                pillar_writes(plan, ground_y, config.support_block, x, deck_y - 1, z);
                proof {
                    assert(spots(plan@) =~= before + h(j as int));
                }
            } else {
                proof {
                    assert(spots(plan@) =~= before + h(j as int));
                }
            }
            proof {
                lemma_flatten_next(h, j as int);
                assert(mid + Seq::new(j as nat, h).flatten() + h(j as int) =~= mid + Seq::new(
                    (j + 1) as nat,
                    h,
                ).flatten());
            }
            counter = counter + 1;
            j = j + 1;
        }
        // Railings
        if config.has_railings {
            let prev = &nodes[s - 1];
            let cur = &nodes[s];
            proof {
                assert(step_fits(nodes@[s - 1], nodes@[s as int]));
            }
            railing_writes(plan, config, deck_y, pts.as_slice(), cur.x - prev.x, cur.z - prev.z);
        }
        proof {
            assert(Seq::new(spts.len(), h) =~= Seq::new(
                spts.len(),
                |j: int| deck_point_plan(g, *config, deck_y as int, spts[j], points_before(nodes@, s as int) + j),
            ));
            assert(spots(plan@) =~= mid + f((s - 1) as int));
            lemma_flatten_next(f, (s - 1) as int);
            assert(start + Seq::new((s - 1) as nat, f).flatten() + f((s - 1) as int) =~= start + Seq::new(
                s as nat,
                f,
            ).flatten());
        }
        s = s + 1;
    }
}

/// The way carries a `bridge` tag whose value is not `no`.
pub open spec fn is_bridge(tags: Map<Seq<char>, Seq<char>>) -> bool {
    match tag(tags, "bridge"@) {
        Some(v) => v != "no"@,
        None => false,
    }
}

/// The `layer` tag as a number: 1 where it is missing or not a number, and
/// at least 1.
pub open spec fn layer_offset(tags: Map<Seq<char>, Seq<char>>) -> int {
    let l = match tag(tags, "layer"@) {
        Some(v) => match parsed_i32(v) {
            Some(n) => n as int,
            None => 1,
        },
        None => 1,
    };
    if l >= 1 {
        l
    } else {
        1
    }
}

/// The deck level: three blocks per layer above the highest ground under
/// the nodes.
pub open spec fn bridge_deck_y(g: Ground, tags: Map<Seq<char>, Seq<char>>, nodes: Seq<ProcessedNode>) -> int {
    max_ground(g, nodes) + layer_offset(tags) * 3
}

/// The structural detail of the configuration's structure type.
pub open spec fn structure_detail_plan(
    g: Ground,
    c: BridgeConfig,
    deck_y: int,
    nodes: Seq<ProcessedNode>,
) -> Seq<Spot> {
    match c.structure_type {
        BridgeStructure::Arch => arch_plan(g, c, deck_y, nodes),
        BridgeStructure::Truss => detail_route_plan(BridgeStructure::Truss, g, c, deck_y, nodes),
        BridgeStructure::Suspension => detail_route_plan(BridgeStructure::Suspension, g, c, deck_y, nodes),
        BridgeStructure::CableStayed => cable_stayed_plan(c, deck_y, nodes),
        BridgeStructure::Beam => Seq::empty(),
    }
}

/// Everything a standalone bridge writes: the deck with its pillars and
/// railings, the structural detail, then the abutments; nothing for a way
/// that is no bridge or has fewer than two nodes.
pub open spec fn bridge_plan(g: Ground, tags: Map<Seq<char>, Seq<char>>, nodes: Seq<ProcessedNode>) -> Seq<Spot> {
    if !is_bridge(tags) || nodes.len() < 2 {
        Seq::empty()
    } else {
        let c = config_from_tags(tags);
        let deck_y = bridge_deck_y(g, tags, nodes);
        deck_plan(g, c, deck_y, nodes) + structure_detail_plan(g, c, deck_y, nodes) + abutment_plan(
            g,
            c,
            deck_y,
            nodes,
        )
    }
}

/// Whether the structural detail of `c` stays within the range of `i32`.
pub open spec fn structure_fits(c: BridgeConfig, deck_y: int, nodes: Seq<ProcessedNode>) -> bool {
    match c.structure_type {
        BridgeStructure::CableStayed => cable_stayed_fits(c, deck_y, nodes),
        BridgeStructure::Beam => true,
        st => detail_fits(st, c, deck_y, nodes),
    }
}

/// The inputs under which a standalone bridge stays within the range of
/// `i32`: the deck level, every block of the deck and its pillars, the
/// railings above it, the segment steps, the count of blocks, the
/// structural detail and the abutments.
pub open spec fn bridge_fits(g: Ground, tags: Map<Seq<char>, Seq<char>>, nodes: Seq<ProcessedNode>) -> bool {
    is_bridge(tags) && nodes.len() >= 2 ==> {
        let c = config_from_tags(tags);
        let deck_y = bridge_deck_y(g, tags, nodes);
        &&& layer_offset(tags) * 3 <= i32::MAX
        &&& deck_y < i32::MAX
        &&& deck_fits(nodes, c.half_width as int)
        &&& pillars_fit(g, c, deck_y, nodes)
        &&& segments_fit(nodes)
        &&& route_len(nodes) <= i32::MAX
        &&& structure_fits(c, deck_y, nodes)
        &&& abutments_fit(g, c, deck_y, nodes)
    }
}

fn layer_offset_of(tags: &Tags) -> (l: i32)
    ensures
        l == layer_offset(tags@),
{
    let l = match tags.get("layer") {
        Some(v) => match parse_i32(v.as_str()) {
            Some(n) => n,
            None => 1,
        },
        None => 1,
    };
    if l >= 1 {
        l
    } else {
        1
    }
}

fn is_bridge_tagged(tags: &Tags) -> (r: bool)
    ensures
        r == is_bridge(tags@),
{
    match tags.get("bridge") {
        Some(bt) => !text_eq(bt.as_str(), "no"),
        None => false,
    }
}

/// Generates a standalone bridge for ways that have a `bridge=*` tag but no
/// primary infrastructure tag (highway, railway, etc.).
pub fn generate_bridges(editor: &mut WorldEditor, element: &ProcessedWay)
    requires
        bridge_fits(old(editor)@.ground, element.tags@, element.nodes@),
    ensures
        final(editor)@ == old(editor)@.place_all(bridge_plan(old(editor)@.ground, element.tags@, element.nodes@)),
{
    if !is_bridge_tagged(&element.tags) {
        return;
    }
    if element.nodes.len() < 2 {
        return;
    }
    let config = BridgeConfig::from_tags(&element.tags);
    let deck_ground_y = match calculate_bridge_deck_y(editor, element.nodes.as_slice()) {
        Some(y) => y,
        None => return,
    };
    // Elevate the deck above ground: use layer tag if present, otherwise default +3
    let layer_offset = layer_offset_of(&element.tags);
    let bridge_height = layer_offset * 3;
    let deck_y = deck_ground_y + bridge_height;
    let ghost g = editor@.ground;
    let ghost c = config;
    let ghost nodes = element.nodes@;
    let mut plan: Vec<Placement> = Vec::new();
    proof {
        lemma_max_ground_bounds(g, nodes);
        assert(deck_y as int == bridge_deck_y(g, element.tags@, nodes));
    }
    deck_writes(&mut plan, editor, &config, deck_y, element.nodes.as_slice());
    // Structural details based on bridge:structure type
    match config.structure_type {
        BridgeStructure::Arch => {
            if config.support_interval >= 4 {
                detail_writes(BridgeStructure::Arch, &mut plan, editor, &config, deck_y, element.nodes.as_slice());
            } else {
                assert(spots(plan@) =~= spots(plan@) + Seq::<Spot>::empty());
            }
        },
        BridgeStructure::Truss => detail_writes(BridgeStructure::Truss, &mut plan, editor, &config, deck_y, element.nodes.as_slice()),
        BridgeStructure::Suspension => detail_writes(BridgeStructure::Suspension, &mut plan, editor, &config, deck_y, element.nodes.as_slice()),
        BridgeStructure::CableStayed => cable_stayed_writes(&mut plan, &config, deck_y, element.nodes.as_slice()),
        BridgeStructure::Beam => {
            assert(spots(plan@) =~= spots(plan@) + Seq::<Spot>::empty());
        },
    }
    // Abutments at bridge endpoints
    abutment_writes(&mut plan, editor, &config, deck_y, element.nodes.as_slice());
    proof {
        assert(spots(plan@) =~= bridge_plan(g, element.tags@, nodes));
    }
    editor.place_all(plan.as_slice());
}

/// What a railway bridge rests on: the deck level and the configuration,
/// for a way that is a bridge with at least two nodes.
pub open spec fn railway_bridge_info(
    g: Ground,
    tags: Map<Seq<char>, Seq<char>>,
    nodes: Seq<ProcessedNode>,
) -> Option<(int, BridgeConfig)> {
    if is_bridge(tags) && nodes.len() >= 2 {
        Some((bridge_deck_y(g, tags, nodes), config_from_tags(tags)))
    } else {
        None
    }
}

/// Adds bridge elevation support to a railway way that has `bridge=yes`.
///
/// Returns `Some((deck_y, config))` if this railway should be elevated as a bridge,
/// or `None` if it is not a bridge.
pub fn get_railway_bridge_info(editor: &WorldEditor, element: &ProcessedWay) -> (r: Option<(i32, BridgeConfig)>)
    requires
        is_bridge(element.tags@) && element.nodes@.len() >= 2 ==> layer_offset(element.tags@) * 3 <= i32::MAX
            && max_ground(editor@.ground, element.nodes@) + layer_offset(element.tags@) * 3 <= i32::MAX,
    ensures
        r is Some == railway_bridge_info(editor@.ground, element.tags@, element.nodes@) is Some,
        r matches Some(info) ==> railway_bridge_info(editor@.ground, element.tags@, element.nodes@) == Some(
            (info.0 as int, info.1),
        ),
{
    if !is_bridge_tagged(&element.tags) {
        return None;
    }
    if element.nodes.len() < 2 {
        return None;
    }
    let config = BridgeConfig::from_tags(&element.tags);
    let deck_ground_y = match calculate_bridge_deck_y(editor, element.nodes.as_slice()) {
        Some(y) => y,
        None => return None,
    };
    let layer_offset = layer_offset_of(&element.tags);
    let bridge_height = layer_offset * 3;
    let deck_y = deck_ground_y + bridge_height;
    Some((deck_y, config))
}

/// The railings of a railway bridge at one block: on both sides, two
/// blocks out from the track, two blocks above the gravel bed.
pub open spec fn railway_railings_plan(c: BridgeConfig, deck_y: int, p: (int, int), dir: (int, int)) -> Seq<Spot> {
    railing_pair(c.railing_block, deck_y + 2, p, dir, 2)
}

/// Adds railings to a railway bridge at a single block position, for a
/// railway running in the direction `(dir_dx, dir_dz)`.
///
/// `deck_y` is the absolute Y of the gravel bed.
pub fn add_railway_bridge_railings(
    editor: &mut WorldEditor,
    bx: i32,
    bz: i32,
    deck_y: i32,
    config: &BridgeConfig,
    dir_dx: i32,
    dir_dz: i32,
)
    requires
        deck_y + 2 <= i32::MAX,
    ensures
        final(editor)@ == old(editor)@.place_all(
            railway_railings_plan(*config, deck_y as int, (bx as int, bz as int), (dir_dx as int, dir_dz as int)),
        ),
{
    let mut plan: Vec<Placement> = Vec::new();
    // Railing at deck+2 (one above the rail at deck+1), at the rail gauge offset
    railing_pair_writes(&mut plan, config.railing_block, deck_y + 2, bx, bz, dir_dx, dir_dz, 2);
    assert(spots(plan@) =~= railway_railings_plan(*config, deck_y as int, (bx as int, bz as int), (dir_dx as int, dir_dz as int)));
    editor.place_all(plan.as_slice());
}

/// The elevation given for the `i`-th point, 0 where none is given.
pub open spec fn elevation_at(elevations: Seq<i32>, i: int) -> int {
    if 0 <= i < elevations.len() {
        elevations[i] as int
    } else {
        0
    }
}

/// The height of a highway railing at `q`: one above the point's elevation,
/// which is absolute or counts from the ground at `q`.
pub open spec fn highway_railing_y(g: Ground, y: int, absolute: bool, q: (int, int)) -> int {
    if absolute {
        y + 1
    } else {
        ground_at(g, q.0, q.1) + y + 1
    }
}

/// The railings at one point of a highway bridge, `range + 1` blocks out on
/// each side.
pub open spec fn highway_point_railings(
    g: Ground,
    p: (int, int),
    y: int,
    absolute: bool,
    range: int,
    block: Block,
    dir: (int, int),
) -> Seq<Spot> {
    let l = side_of(p, dir, -(range + 1));
    let r = side_of(p, dir, range + 1);
    seq![
        (block, l.0, highway_railing_y(g, y, absolute, l), l.1),
        (block, r.0, highway_railing_y(g, y, absolute, r), r.1),
    ]
}

/// The railings at one point of a highway bridge stay within the range of
/// `i32`: the elevation lies below its top, and each railing height is an
/// `i32` value.
pub open spec fn highway_point_fits(
    g: Ground,
    p: (int, int),
    y: int,
    absolute: bool,
    range: int,
    dir: (int, int),
) -> bool {
    let l = side_of(p, dir, -(range + 1));
    let r = side_of(p, dir, range + 1);
    &&& y < i32::MAX
    &&& fits_i32(highway_railing_y(g, y, absolute, l))
    &&& fits_i32(highway_railing_y(g, y, absolute, r))
}

/// The railings along a highway bridge segment.
pub open spec fn highway_railings_plan(
    g: Ground,
    pts: Seq<(int, int)>,
    elevations: Seq<i32>,
    absolute: bool,
    range: int,
    block: Block,
    dir: (int, int),
) -> Seq<Spot> {
    Seq::new(
        pts.len(),
        |i: int| highway_point_railings(g, pts[i], elevation_at(elevations, i), absolute, range, block, dir),
    ).flatten()
}

/// Adds railings to an existing highway bridge segment that runs in the
/// direction `(dir_dx, dir_dz)`.
///
/// `point_elevations` holds the Y value for each point (absolute when
/// `elevations_are_absolute` is true, ground-relative otherwise).
/// `block_range` is the highway half-width, and `railing_block` the block to use.
/// A railing replaces any block but another railing block.
pub fn add_highway_bridge_railings(
    editor: &mut WorldEditor,
    points: &[(i32, i32)],
    point_elevations: &[i32],
    elevations_are_absolute: bool,
    block_range: i32,
    railing_block: Block,
    dir_dx: i32,
    dir_dz: i32,
)
    requires
        forall|i: int|
            0 <= i < points@.len() ==> highway_point_fits(
                old(editor)@.ground,
                #[trigger] pairs(points@)[i],
                elevation_at(point_elevations@, i),
                elevations_are_absolute,
                block_range as int,
                (dir_dx as int, dir_dz as int),
            ),
    ensures
        final(editor)@ == old(editor)@.write_all(
            highway_railings_plan(
                old(editor)@.ground,
                pairs(points@),
                point_elevations@,
                elevations_are_absolute,
                block_range as int,
                railing_block,
                (dir_dx as int, dir_dz as int),
            ),
            None,
            Some(seq![railing_block]),
        ),
{
    let ghost g = editor@.ground;
    let ghost pts = pairs(points@);
    let ghost dir = (dir_dx as int, dir_dz as int);
    let ghost f = |i: int|
        highway_point_railings(
            g,
            pts[i],
            elevation_at(point_elevations@, i),
            elevations_are_absolute,
            block_range as int,
            railing_block,
            dir,
        );
    proof {
        lemma_flatten_none(f);
    }
    let mut plan: Vec<Placement> = Vec::new();
    let mut i: usize = 0;
    while i < points.len()
        invariant
            i <= points@.len(),
            pts == pairs(points@),
            forall|i: int|
                0 <= i < points@.len() ==> highway_point_fits(
                    g,
                    #[trigger] pts[i],
                    elevation_at(point_elevations@, i),
                    elevations_are_absolute,
                    block_range as int,
                    dir,
                ),
            dir == (dir_dx as int, dir_dz as int),
            g == editor@.ground,
            f == (|i: int|
                highway_point_railings(
                    g,
                    pts[i],
                    elevation_at(point_elevations@, i),
                    elevations_are_absolute,
                    block_range as int,
                    railing_block,
                    dir,
                )),
            spots(plan@) == Seq::new(i as nat, f).flatten(),
        decreases points@.len() - i,
    {
        let (x, z) = points[i];
        proof {
            assert(pts[i as int] == (x as int, z as int));
            assert(highway_point_fits(
                g,
                pts[i as int],
                elevation_at(point_elevations@, i as int),
                elevations_are_absolute,
                block_range as int,
                dir,
            ));
        }
        let y: i32 = if i < point_elevations.len() { point_elevations[i] } else { 0 };
        let reach = block_range as i64 + 1;
        let l = side_block(x, z, dir_dx, dir_dz, -reach);
        let r = side_block(x, z, dir_dx, dir_dz, reach);
        let ly = if elevations_are_absolute { y + 1 } else { editor.get_absolute_y(l.0, y + 1, l.1) };
        let ry = if elevations_are_absolute { y + 1 } else { editor.get_absolute_y(r.0, y + 1, r.1) };
        let ghost before = spots(plan@);
        push_spot(&mut plan, railing_block, l.0, ly, l.1);
        push_spot(&mut plan, railing_block, r.0, ry, r.1);
        proof {
            assert(spots(plan@) =~= before + f(i as int));
            lemma_flatten_next(f, i as int);
        }
        i = i + 1;
    }
    let blacklist = vec![railing_block];
    let bl = blacklist.as_slice();
    proof {
        assert(bl@ =~= seq![railing_block]);
    }
    editor.write_all(plan.as_slice(), None, Some(bl));
}

} // verus!

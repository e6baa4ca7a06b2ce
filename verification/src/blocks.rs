use vstd::prelude::*;

verus! {

/// The block kinds that bridges are built from.
#[derive(PartialEq, Eq, Structural, Clone, Copy, Debug)]
pub enum Block {
    Brick,
    BrickWall,
    Chain,
    CobblestoneWall,
    GrayConcrete,
    IronBars,
    IronBlock,
    LightGrayConcrete,
    OakFence,
    OakLog,
    OakPlanks,
    StoneBricks,
    StoneBrickWall,
}

pub const BRICK: Block = Block::Brick;
pub const BRICK_WALL: Block = Block::BrickWall;
pub const CHAIN: Block = Block::Chain;
pub const COBBLESTONE_WALL: Block = Block::CobblestoneWall;
pub const GRAY_CONCRETE: Block = Block::GrayConcrete;
pub const IRON_BARS: Block = Block::IronBars;
pub const IRON_BLOCK: Block = Block::IronBlock;
pub const LIGHT_GRAY_CONCRETE: Block = Block::LightGrayConcrete;
pub const OAK_FENCE: Block = Block::OakFence;
pub const OAK_LOG: Block = Block::OakLog;
pub const OAK_PLANKS: Block = Block::OakPlanks;
pub const STONE_BRICKS: Block = Block::StoneBricks;
pub const STONE_BRICK_WALL: Block = Block::StoneBrickWall;

} // verus!

use vstd::prelude::*;
use crate::blocks::Block;

verus! {

/// The ground level of each column that has one.
pub type Ground = Map<(int, int), int>;

/// The ground level of the column `(x, z)`: 0 where none was given.
pub open spec fn ground_at(g: Ground, x: int, z: int) -> int {
    if g.contains_key((x, z)) {
        g[(x, z)]
    } else {
        0
    }
}

/// A block to be set at a position: `(block, x, y, z)`.
pub type Spot = (Block, int, int, int);

/// One block write, at absolute coordinates.
#[derive(Clone, Copy, PartialEq, Eq, Structural, Debug)]
pub struct Placement {
    pub block: Block,
    pub x: i32,
    pub y: i32,
    pub z: i32,
}

impl Placement {
    pub open spec fn spot(self) -> Spot {
        (self.block, self.x as int, self.y as int, self.z as int)
    }
}

/// The writes of a plan, in order.
pub open spec fn spots(plan: Seq<Placement>) -> Seq<Spot> {
    plan.map_values(|p: Placement| p.spot())
}

/// What the world editor holds: the area that it may write to (inclusive
/// bounds), the ground level of each column (0 where none was given) and the
/// block at each position.
pub struct WorldModel {
    pub min_x: int,
    pub min_z: int,
    pub max_x: int,
    pub max_z: int,
    pub ground: Map<(int, int), int>,
    pub blocks: Map<(int, int, int), Block>,
}

impl WorldModel {
    pub open spec fn in_area(self, x: int, z: int) -> bool {
        self.min_x <= x <= self.max_x && self.min_z <= z <= self.max_z
    }

    pub open spec fn ground_level(self, x: int, z: int) -> int {
        ground_at(self.ground, x, z)
    }

    pub open spec fn block_at(self, x: int, y: int, z: int) -> Option<Block> {
        if self.blocks.contains_key((x, y, z)) {
            Some(self.blocks[(x, y, z)])
        } else {
            None
        }
    }

    /// Whether a write at `(x, y, z)` takes effect: the column lies in the
    /// area, and the position is empty, or its block is on the whitelist, or
    /// (without a whitelist) not on the blacklist.
    pub open spec fn may_set(
        self,
        x: int,
        y: int,
        z: int,
        whitelist: Option<Seq<Block>>,
        blacklist: Option<Seq<Block>>,
    ) -> bool {
        &&& self.in_area(x, z)
        &&& match self.block_at(x, y, z) {
            None => true,
            Some(old) => match whitelist {
                Some(wl) => wl.contains(old),
                None => match blacklist {
                    Some(bl) => !bl.contains(old),
                    None => false,
                },
            },
        }
    }

    pub open spec fn set_block(
        self,
        block: Block,
        x: int,
        y: int,
        z: int,
        whitelist: Option<Seq<Block>>,
        blacklist: Option<Seq<Block>>,
    ) -> WorldModel {
        if self.may_set(x, y, z, whitelist, blacklist) {
            WorldModel { blocks: self.blocks.insert((x, y, z), block), ..self }
        } else {
            self
        }
    }

    /// A plain write: it takes effect on an empty position inside the area.
    pub open spec fn place(self, s: Spot) -> WorldModel {
        self.set_block(s.0, s.1, s.2, s.3, None, None)
    }

    /// The writes of `plan`, one after another.
    pub open spec fn place_all(self, plan: Seq<Spot>) -> WorldModel
        decreases plan.len(),
    {
        if plan.len() == 0 {
            self
        } else {
            self.place_all(plan.drop_last()).place(plan.last())
        }
    }

    /// The writes of `plan`, one after another, each with the same override
    /// lists.
    pub open spec fn write_all(
        self,
        plan: Seq<Spot>,
        whitelist: Option<Seq<Block>>,
        blacklist: Option<Seq<Block>>,
    ) -> WorldModel
        decreases plan.len(),
    {
        if plan.len() == 0 {
            self
        } else {
            let s = plan.last();
            self.write_all(plan.drop_last(), whitelist, blacklist).set_block(
                s.0,
                s.1,
                s.2,
                s.3,
                whitelist,
                blacklist,
            )
        }
    }

    /// Same area and ground.
    pub open spec fn same_land(self, other: WorldModel) -> bool {
        &&& self.min_x == other.min_x
        &&& self.min_z == other.min_z
        &&& self.max_x == other.max_x
        &&& self.max_z == other.max_z
        &&& self.ground == other.ground
    }
}

pub open spec fn ground_map(entries: Seq<(i32, i32, i32)>) -> Map<(int, int), int>
    decreases entries.len(),
{
    if entries.len() == 0 {
        Map::empty()
    } else {
        let e = entries.last();
        ground_map(entries.drop_last()).insert((e.0 as int, e.1 as int), e.2 as int)
    }
}

pub open spec fn block_map(entries: Seq<Placement>) -> Map<(int, int, int), Block>
    decreases entries.len(),
{
    if entries.len() == 0 {
        Map::empty()
    } else {
        let e = entries.last();
        block_map(entries.drop_last()).insert((e.x as int, e.y as int, e.z as int), e.block)
    }
}

proof fn lemma_ground_map_last_writes(entries: Seq<(i32, i32, i32)>, i: int, key: (int, int))
    requires
        0 <= i <= entries.len(),
        forall|j: int|
            i <= j < entries.len() ==> (#[trigger] entries[j].0 as int, entries[j].1 as int) != key,
    ensures
        ground_map(entries).contains_key(key) == ground_map(entries.take(i)).contains_key(key),
        ground_map(entries).contains_key(key) ==> ground_map(entries)[key] == ground_map(
            entries.take(i),
        )[key],
    decreases entries.len() - i,
{
    if i == entries.len() {
        assert(entries.take(i) =~= entries);
    } else {
        let last = entries.len() - 1;
        assert((entries[last].0 as int, entries[last].1 as int) != key);
        assert(entries.drop_last().take(i) =~= entries.take(i));
        lemma_ground_map_last_writes(entries.drop_last(), i, key);
    }
}

proof fn lemma_block_map_last_writes(entries: Seq<Placement>, i: int, key: (int, int, int))
    requires
        0 <= i <= entries.len(),
        forall|j: int|
            i <= j < entries.len() ==> (
            #[trigger] entries[j].x as int,
            entries[j].y as int,
            entries[j].z as int,
            ) != key,
    ensures
        block_map(entries).contains_key(key) == block_map(entries.take(i)).contains_key(key),
        block_map(entries).contains_key(key) ==> block_map(entries)[key] == block_map(
            entries.take(i),
        )[key],
    decreases entries.len() - i,
{
    if i == entries.len() {
        assert(entries.take(i) =~= entries);
    } else {
        let last = entries.len() - 1;
        assert((entries[last].x as int, entries[last].y as int, entries[last].z as int) != key);
        assert(entries.drop_last().take(i) =~= entries.take(i));
        lemma_block_map_last_writes(entries.drop_last(), i, key);
    }
}

/// An in-memory world: an area of columns with ground levels, into which
/// blocks are written.
pub struct WorldEditor {
    min_x: i32,
    min_z: i32,
    max_x: i32,
    max_z: i32,
    ground: Vec<(i32, i32, i32)>,
    blocks: Vec<Placement>,
}

impl View for WorldEditor {
    type V = WorldModel;

    closed spec fn view(&self) -> WorldModel {
        WorldModel {
            min_x: self.min_x as int,
            min_z: self.min_z as int,
            max_x: self.max_x as int,
            max_z: self.max_z as int,
            ground: ground_map(self.ground@),
            blocks: block_map(self.blocks@),
        }
    }
}

impl WorldEditor {
    /// An empty world over the columns `min_x..=max_x` by `min_z..=max_z`,
    /// with the ground at level 0 everywhere.
    pub fn new(min_x: i32, min_z: i32, max_x: i32, max_z: i32) -> (w: WorldEditor)
        ensures
            w@.min_x == min_x,
            w@.min_z == min_z,
            w@.max_x == max_x,
            w@.max_z == max_z,
            w@.ground == Map::<(int, int), int>::empty(),
            w@.blocks == Map::<(int, int, int), Block>::empty(),
    {
        WorldEditor { min_x, min_z, max_x, max_z, ground: Vec::new(), blocks: Vec::new() }
    }

    /// Sets the ground level of the column `(x, z)`.
    pub fn set_ground_level(&mut self, x: i32, z: i32, level: i32)
        ensures
            final(self)@ == (WorldModel {
                ground: old(self)@.ground.insert((x as int, z as int), level as int),
                ..old(self)@
            }),
    {
        self.ground.push((x, z, level));
        proof {
            assert(self.ground@.drop_last() =~= old(self).ground@);
        }
    }

    /// The ground level of the column `(x, z)`.
    pub fn get_ground_level(&self, x: i32, z: i32) -> (level: i32)
        ensures
            level == self@.ground_level(x as int, z as int),
    {
        let mut i = self.ground.len();
        while i > 0
            invariant
                i <= self.ground@.len(),
                forall|j: int|
                    i <= j < self.ground@.len() ==> (
                    #[trigger] self.ground@[j].0 as int,
                    self.ground@[j].1 as int,
                    ) != (x as int, z as int),
            decreases i,
        {
            let e = self.ground[i - 1];
            if e.0 == x && e.1 == z {
                proof {
                    lemma_ground_map_last_writes(self.ground@, i as int, (x as int, z as int));
                    assert(self.ground@.take(i as int).drop_last() =~= self.ground@.take(i - 1));
                    assert(self.ground@.take(i as int).last() == e);
                }
                return e.2;
            }
            i = i - 1;
        }
        proof {
            lemma_ground_map_last_writes(self.ground@, 0, (x as int, z as int));
            assert(self.ground@.take(0) =~= Seq::<(i32, i32, i32)>::empty());
        }
        0
    }

    /// The absolute height `y_offset` blocks above the ground of `(x, z)`.
    pub fn get_absolute_y(&self, x: i32, y_offset: i32, z: i32) -> (y: i32)
        requires
            i32::MIN <= self@.ground_level(x as int, z as int) + y_offset <= i32::MAX,
        ensures
            y == self@.ground_level(x as int, z as int) + y_offset,
    {
        self.get_ground_level(x, z) + y_offset
    }

    /// The block at `(x, y, z)`, if one was set there.
    pub fn get_block(&self, x: i32, y: i32, z: i32) -> (b: Option<Block>)
        ensures
            b == self@.block_at(x as int, y as int, z as int),
    {
        let ghost key = (x as int, y as int, z as int);
        let mut i = self.blocks.len();
        while i > 0
            invariant
                i <= self.blocks@.len(),
                key == (x as int, y as int, z as int),
                forall|j: int|
                    i <= j < self.blocks@.len() ==> (
                    #[trigger] self.blocks@[j].x as int,
                    self.blocks@[j].y as int,
                    self.blocks@[j].z as int,
                    ) != key,
            decreases i,
        {
            let e = self.blocks[i - 1];
            if e.x == x && e.y == y && e.z == z {
                proof {
                    lemma_block_map_last_writes(self.blocks@, i as int, key);
                    assert(self.blocks@.take(i as int).drop_last() =~= self.blocks@.take(i - 1));
                    assert(self.blocks@.take(i as int).last() == e);
                }
                return Some(e.block);
            }
            i = i - 1;
        }
        proof {
            lemma_block_map_last_writes(self.blocks@, 0, key);
            assert(self.blocks@.take(0) =~= Seq::<Placement>::empty());
        }
        None
    }

    /// Whether a block was set at `(x, y, z)`.
    pub fn block_at_absolute(&self, x: i32, y: i32, z: i32) -> (r: bool)
        ensures
            r == (self@.block_at(x as int, y as int, z as int) is Some),
    {
        self.get_block(x, y, z).is_some()
    }

    /// Sets `block` at `(x, y, z)` when the column lies in the area and the
    /// position is empty, or holds a block of the whitelist, or, without a
    /// whitelist, one that is not on the blacklist.
    pub fn set_block_absolute(
        &mut self,
        block: Block,
        x: i32,
        y: i32,
        z: i32,
        override_whitelist: Option<&[Block]>,
        override_blacklist: Option<&[Block]>,
    )
        ensures
            final(self)@ == old(self)@.set_block(
                block,
                x as int,
                y as int,
                z as int,
                block_list(override_whitelist),
                block_list(override_blacklist),
            ),
    {
        if x < self.min_x || x > self.max_x || z < self.min_z || z > self.max_z {
            return;
        }
        let allowed = match self.get_block(x, y, z) {
            None => true,
            Some(old) => match override_whitelist {
                Some(wl) => list_contains(wl, old),
                None => match override_blacklist {
                    Some(bl) => !list_contains(bl, old),
                    None => false,
                },
            },
        };
        if !allowed {
            return;
        }
        self.blocks.push(Placement { block, x, y, z });
        proof {
            assert(self.blocks@.drop_last() =~= old(self).blocks@);
            assert(self@.blocks =~= old(self)@.blocks.insert((x as int, y as int, z as int), block));
        }
    }

    /// Carries out the writes of `plan` in order, each with the same override
    /// lists.
    pub fn write_all(
        &mut self,
        plan: &[Placement],
        override_whitelist: Option<&[Block]>,
        override_blacklist: Option<&[Block]>,
    )
        ensures
            final(self)@ == old(self)@.write_all(
                spots(plan@),
                block_list(override_whitelist),
                block_list(override_blacklist),
            ),
    {
        let mut i: usize = 0;
        while i < plan.len()
            invariant
                i <= plan@.len(),
                self@ == old(self)@.write_all(
                    spots(plan@).take(i as int),
                    block_list(override_whitelist),
                    block_list(override_blacklist),
                ),
            decreases plan@.len() - i,
        {
            let p = plan[i];
            self.set_block_absolute(p.block, p.x, p.y, p.z, override_whitelist, override_blacklist);
            proof {
                assert(spots(plan@).take(i + 1).drop_last() =~= spots(plan@).take(i as int));
                assert(spots(plan@).take(i + 1).last() == p.spot());
            }
            i = i + 1;
        }
        proof {
            assert(spots(plan@).take(i as int) =~= spots(plan@));
        }
    }

    /// Carries out the writes of `plan` in order, each as a plain write.
    pub fn place_all(&mut self, plan: &[Placement])
        ensures
            final(self)@ == old(self)@.place_all(spots(plan@)),
    {
        let mut i: usize = 0;
        while i < plan.len()
            invariant
                i <= plan@.len(),
                self@ == old(self)@.place_all(spots(plan@).take(i as int)),
            decreases plan@.len() - i,
        {
            let p = plan[i];
            self.set_block_absolute(p.block, p.x, p.y, p.z, None, None);
            proof {
                assert(spots(plan@).take(i + 1).drop_last() =~= spots(plan@).take(i as int));
                assert(spots(plan@).take(i + 1).last() == p.spot());
            }
            i = i + 1;
        }
        proof {
            assert(spots(plan@).take(i as int) =~= spots(plan@));
        }
    }
}

/// The blocks of an optional override list.
pub open spec fn block_list(list: Option<&[Block]>) -> Option<Seq<Block>> {
    match list {
        Some(l) => Some(l@),
        None => None,
    }
}

/// Whether `list` holds `b`.
pub fn list_contains(list: &[Block], b: Block) -> (r: bool)
    ensures
        r == list@.contains(b),
{
    let mut i: usize = 0;
    while i < list.len()
        invariant
            i <= list@.len(),
            forall|j: int| 0 <= j < i ==> list@[j] != b,
        decreases list@.len() - i,
    {
        if list[i] == b {
            assert(list@[i as int] == b);
            return true;
        }
        i = i + 1;
    }
    false
}

} // verus!

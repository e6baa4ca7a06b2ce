use vstd::prelude::*;
use crate::blocks::Block;
use crate::world::{spots, Placement, Spot};

verus! {

/// `block` in the column `(x, z)` at every height `y` with `lo <= y < hi`,
/// from the bottom up.
pub open spec fn column(block: Block, x: int, z: int, lo: int, hi: int) -> Seq<Spot> {
    Seq::new(
        if hi > lo {
            (hi - lo) as nat
        } else {
            0
        },
        |i: int| (block, x, lo + i, z),
    )
}

/// Appends one write to a plan.
pub fn push_spot(plan: &mut Vec<Placement>, block: Block, x: i32, y: i32, z: i32)
    ensures
        spots(final(plan)@) == spots(old(plan)@).push((block, x as int, y as int, z as int)),
{
    plan.push(Placement { block, x, y, z });
    proof {
        assert(spots(plan@) =~= spots(old(plan)@).push((block, x as int, y as int, z as int)));
    }
}

/// Appends a column of writes to a plan.
pub fn push_column(plan: &mut Vec<Placement>, block: Block, x: i32, z: i32, lo: i64, hi: i64)
    requires
        lo < hi ==> i32::MIN <= lo && hi <= i32::MAX + 1,
    ensures
        spots(final(plan)@) == spots(old(plan)@) + column(block, x as int, z as int, lo as int, hi as int),
{
    let ghost start = spots(plan@);
    let mut y = lo;
    while y < hi
        invariant
            lo <= hi ==> lo <= y <= hi,
            hi < lo ==> y == lo,
            lo < hi ==> i32::MIN <= lo && hi <= i32::MAX + 1,
            spots(plan@) == start + column(block, x as int, z as int, lo as int, y as int),
        decreases hi - y,
    {
        push_spot(plan, block, x, y as i32, z);
        proof {
            assert(column(block, x as int, z as int, lo as int, y + 1) =~= column(
                block,
                x as int,
                z as int,
                lo as int,
                y as int,
            ).push((block, x as int, y as int, z as int)));
        }
        y = y + 1;
    }
    proof {
        if hi <= lo {
            assert(column(block, x as int, z as int, lo as int, hi as int) =~= Seq::<Spot>::empty());
            assert(column(block, x as int, z as int, lo as int, y as int) =~= Seq::<Spot>::empty());
        }
    }
}

/// Flattening one more part onto a flattened prefix.
pub proof fn lemma_flatten_next<A>(f: spec_fn(int) -> Seq<A>, n: int)
    requires
        n >= 0,
    ensures
        Seq::new((n + 1) as nat, f).flatten() == Seq::new(n as nat, f).flatten() + f(n),
{
    assert(Seq::new((n + 1) as nat, f) =~= Seq::new(n as nat, f).push(f(n)));
    Seq::new(n as nat, f).lemma_flatten_push(f(n));
}

/// Flattening no parts gives nothing.
pub proof fn lemma_flatten_none<A>(f: spec_fn(int) -> Seq<A>)
    ensures
        Seq::new(0, f).flatten() == Seq::<A>::empty(),
{
    assert(Seq::new(0, f) =~= Seq::<Seq<A>>::empty());
}

} // verus!

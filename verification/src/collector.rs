//! The result collector.
//!
//! Partial accumulators arrive one per partition; the collector seeds its
//! accumulator with the first arrival and combines each further arrival
//! left-to-right with the reducing operation.  As with the fold, an arbitrary
//! closure is only known as a relation, so `reduces_to` chains that relation
//! over the arrival sequence, and `seq_reduce` is the corresponding function
//! when the closure's behaviour is pinned to a mathematical function.

use vstd::prelude::*;

verus! {

/// Holds when `res` is a possible outcome of combining the non-empty
/// sequence `vals` left-to-right with `r`, seeded with the first value.
pub open spec fn reduces_to<U, R: Fn(U, U) -> U>(r: R, vals: Seq<U>, res: U) -> bool
    decreases vals.len(),
{
    if vals.len() == 0 {
        false
    } else if vals.len() == 1 {
        res == vals[0]
    } else {
        exists|mid: U|
            reduces_to(r, vals.drop_last(), mid) && #[trigger] call_ensures(
                r,
                (mid, vals.last()),
                res,
            )
    }
}

/// The left-to-right combination of the non-empty sequence `vals` by the
/// mathematical function `rr`, seeded with the first value.
pub open spec fn seq_reduce<U>(rr: spec_fn(U, U) -> U, vals: Seq<U>) -> U
    recommends
        vals.len() >= 1,
    decreases vals.len(),
{
    if vals.len() <= 1 {
        vals[0]
    } else {
        rr(seq_reduce(rr, vals.drop_last()), vals.last())
    }
}

/// When every outcome of `r` agrees with the mathematical function `rr`, the
/// collector's outcome is exactly `seq_reduce`.
pub proof fn lemma_reduces_to_agrees<U, R: Fn(U, U) -> U>(
    r: R,
    rr: spec_fn(U, U) -> U,
    vals: Seq<U>,
    res: U,
)
    requires
        reduces_to(r, vals, res),
        forall|a: U, b: U, out: U| #[trigger] call_ensures(r, (a, b), out) ==> out == rr(a, b),
    ensures
        vals.len() >= 1,
        res == seq_reduce(rr, vals),
    decreases vals.len(),
{
    if vals.len() > 1 {
        let m = choose|m: U|
            reduces_to(r, vals.drop_last(), m) && #[trigger] call_ensures(
                r,
                (m, vals.last()),
                res,
            );
        lemma_reduces_to_agrees(r, rr, vals.drop_last(), m);
    }
}

/// Combines the collected partial results left-to-right with `r`, seeded
/// with the first one.  One value is consumed per partition, in arrival
/// order; exactly `partials.len()` values are consumed before returning.
pub fn reduce_partials<U: Copy, R: Fn(U, U) -> U>(partials: &Vec<U>, r: R) -> (res: U)
    requires
        partials@.len() >= 1,
        forall|a: U, b: U| call_requires(r, (a, b)),
    ensures
        reduces_to(r, partials@, res),
{
    let mut acc = partials[0];
    let mut i: usize = 1;
    proof {
        assert(partials@.subrange(0, 1).len() == 1);
        assert(partials@.subrange(0, 1)[0] == partials@[0]);
    }
    while i < partials.len()
        invariant
            1 <= i <= partials@.len(),
            forall|a: U, b: U| call_requires(r, (a, b)),
            reduces_to(r, partials@.subrange(0, i as int), acc),
        decreases partials@.len() - i,
    {
        let next = r(acc, partials[i]);
        proof {
            let sub = partials@.subrange(0, i as int + 1);
            assert(sub.drop_last() =~= partials@.subrange(0, i as int));
            assert(sub.last() == partials@[i as int]);
            assert(call_ensures(r, (acc, sub.last()), next));
        }
        acc = next;
        i = i + 1;
    }
    proof {
        assert(partials@.subrange(0, partials@.len() as int) =~= partials@);
    }
    acc
}

} // verus!

//! The fold-then-reduce primitive.
//!
//! `parallel_foldl_with` runs the whole plan for a given worker count: it
//! plans the partitions, folds each one independently from the same initial
//! accumulator, and combines the partial results with the reducing
//! operation.  `parallel_foldl` is the entry point with the fixed default
//! worker count; a caller that has queried the host's concurrency resolves
//! it with `resolve_parallelism` and passes the count to
//! `parallel_foldl_with`.

use vstd::prelude::*;

verus! {

use crate::collector::lemma_reduces_to_agrees;
use crate::collector::reduce_partials;
use crate::collector::reduces_to;
use crate::collector::seq_reduce;
use crate::folding::fold_range;
use crate::folding::folds_to;
use crate::folding::lemma_folds_to_agrees;
use crate::folding::seq_fold;
use crate::planner::DEFAULT_PARALLELISM;
use crate::planner::lemma_plan_bounds;
use crate::planner::lemma_part_start_full;
use crate::planner::part_end;
use crate::planner::part_start;
use crate::planner::plan_partitions;

/// Holds when `partials` is one possible set of partial results for the
/// `(s.len(), p)` plan: exactly one accumulator per partition, each a
/// possible outcome of folding its partition from `init` with `f`.
pub open spec fn partials_of<T, U, F: Fn(U, &T) -> U>(
    f: F,
    init: U,
    s: Seq<T>,
    p: int,
    partials: Seq<U>,
) -> bool {
    &&& partials.len() == p
    &&& forall|i: int|
        0 <= i < p ==> folds_to(
            f,
            init,
            s.subrange(part_start(s.len() as int, p, i), part_end(s.len() as int, p, i)),
            #[trigger] partials[i],
        )
}

/// Holds when `res` is a possible result of the primitive with worker count
/// `p`: exactly `p` partial results are produced, one per partition, and all
/// `p` of them are consumed by the left-to-right reduction.
pub open spec fn par_foldl_result<T, U, F: Fn(U, &T) -> U, R: Fn(U, U) -> U>(
    f: F,
    r: R,
    init: U,
    s: Seq<T>,
    p: int,
    res: U,
) -> bool {
    exists|partials: Seq<U>|
        #[trigger] partials_of(f, init, s, p, partials) && reduces_to(r, partials, res)
}

/// Performs the fold-then-reduce over `s` with exactly `parallelism`
/// partitions.
///
/// Each partition is folded with `f` starting from the same `init`; the
/// partial results are then combined left-to-right with `r`, seeded with the
/// first.  The library runs the partition folds in partition order, which is
/// one admissible arrival order; the contract holds for any arrival order a
/// concurrent driver may produce, since `par_foldl_result` does not pin one.
pub fn parallel_foldl_with<T, U, F, R>(s: &[T], init: U, f: F, r: R, parallelism: usize) -> (res: U)
    where
        U: Copy,
        F: Fn(U, &T) -> U + Copy,
        R: Fn(U, U) -> U,
    requires
        1 <= parallelism,
        forall|acc: U, i: int| 0 <= i < s@.len() ==> call_requires(f, (acc, &s@[i])),
        forall|a: U, b: U| call_requires(r, (a, b)),
    ensures
        par_foldl_result(f, r, init, s@, parallelism as int, res),
{
    let ghost n = s@.len() as int;
    let ghost gp = parallelism as int;
    let parts = plan_partitions(s.len(), parallelism);
    let mut partials: Vec<U> = Vec::new();
    let mut i: usize = 0;
    while i < parallelism
        invariant
            1 <= parallelism,
            i <= parallelism,
            n == s@.len() as int,
            gp == parallelism as int,
            crate::planner::is_plan(parts@, n, gp),
            partials@.len() == i,
            forall|acc: U, j: int| 0 <= j < s@.len() ==> call_requires(f, (acc, &s@[j])),
            forall|j: int|
                0 <= j < i ==> folds_to(
                    f,
                    init,
                    s@.subrange(part_start(n, gp, j), part_end(n, gp, j)),
                    #[trigger] partials@[j],
                ),
        decreases parallelism - i,
    {
        proof {
            lemma_plan_bounds(n, gp, i as int);
        }
        let pt = parts[i];
        let v = fold_range(s, pt.start, pt.end, init, f);
        partials.push(v);
        i = i + 1;
    }
    let res = reduce_partials(&partials, r);
    proof {
        assert(partials_of(f, init, s@, gp, partials@));
    }
    res
}

/// Performs the fold-then-reduce over `s` with the default worker count.
///
/// Each worker folds its partition of `s` left-to-right with `f` from the
/// caller-supplied `init`; the partial results are combined with `r`.  The
/// library performs no environment access, so this entry uses
/// `DEFAULT_PARALLELISM` workers; a caller that knows the host's concurrency
/// passes its resolved count to `parallel_foldl_with` instead.
pub fn parallel_foldl<T, U, F, R>(s: &[T], init: U, f: F, r: R) -> (res: U)
    where
        U: Copy,
        F: Fn(U, &T) -> U + Copy,
        R: Fn(U, U) -> U,
    requires
        forall|acc: U, i: int| 0 <= i < s@.len() ==> call_requires(f, (acc, &s@[i])),
        forall|a: U, b: U| call_requires(r, (a, b)),
    ensures
        par_foldl_result(f, r, init, s@, DEFAULT_PARALLELISM as int, res),
{
    parallel_foldl_with(s, init, f, r, DEFAULT_PARALLELISM)
}

/// Reducing a prefix of the partial results equals folding the prefix of the
/// sequence those partitions cover, when the reduce operation distributes
/// over concatenated folds.
proof fn lemma_reduce_prefix<T, U>(
    ff: spec_fn(U, T) -> U,
    rr: spec_fn(U, U) -> U,
    init: U,
    s: Seq<T>,
    p: int,
    partials: Seq<U>,
    k: int,
)
    requires
        1 <= p,
        1 <= k <= p,
        partials.len() == p,
        forall|i: int|
            0 <= i < p ==> #[trigger] partials[i] == seq_fold(
                ff,
                init,
                s.subrange(part_start(s.len() as int, p, i), part_end(s.len() as int, p, i)),
            ),
        forall|a: Seq<T>, b: Seq<T>|
            rr(seq_fold(ff, init, a), seq_fold(ff, init, b)) == #[trigger] seq_fold(
                ff,
                init,
                a + b,
            ),
    ensures
        seq_reduce(rr, partials.subrange(0, k)) == seq_fold(
            ff,
            init,
            s.subrange(0, part_start(s.len() as int, p, k)),
        ),
    decreases k,
{
    let n = s.len() as int;
    lemma_plan_bounds(n, p, k - 1);
    if k == 1 {
        let sub = partials.subrange(0, 1);
        assert(sub.len() == 1);
        assert(seq_reduce(rr, sub) == sub[0]);
        assert(sub[0] == partials[0]);
        assert(part_start(n, p, 0) == 0);
    } else {
        lemma_reduce_prefix(ff, rr, init, s, p, partials, k - 1);
        lemma_plan_bounds(n, p, k - 2);
        let sub = partials.subrange(0, k);
        assert(sub.drop_last() =~= partials.subrange(0, k - 1));
        assert(sub.last() == partials[k - 1]);
        let a = s.subrange(0, part_start(n, p, k - 1));
        let b = s.subrange(part_start(n, p, k - 1), part_end(n, p, k - 1));
        assert(a + b =~= s.subrange(0, part_start(n, p, k)));
        assert(rr(seq_fold(ff, init, a), seq_fold(ff, init, b)) == seq_fold(ff, init, a + b));
    }
}

/// The parallel result equals the sequential left-to-right fold of the whole
/// sequence, for any worker count and any arrival order of the partial
/// results.
///
/// The fold and reduce closures must behave as the mathematical functions
/// `ff` and `rr`, and `rr` must combine the folds of two adjacent ranges
/// into the fold of their concatenation — the compatibility that an
/// associative, `init`-identity reduce of an associative accumulation
/// provides.  Under that caller contract, every value `res` admitted by
/// `par_foldl_result` is the sequential fold of `s` from `init`.
pub proof fn lemma_parallel_matches_sequential<T, U, F: Fn(U, &T) -> U, R: Fn(U, U) -> U>(
    f: F,
    r: R,
    ff: spec_fn(U, T) -> U,
    rr: spec_fn(U, U) -> U,
    init: U,
    s: Seq<T>,
    p: int,
    res: U,
)
    requires
        1 <= p,
        par_foldl_result(f, r, init, s, p, res),
        forall|acc: U, x: T, out: U| #[trigger]
            call_ensures(f, (acc, &x), out) ==> out == ff(acc, x),
        forall|a: U, b: U, out: U| #[trigger] call_ensures(r, (a, b), out) ==> out == rr(a, b),
        forall|a: Seq<T>, b: Seq<T>|
            rr(seq_fold(ff, init, a), seq_fold(ff, init, b)) == #[trigger] seq_fold(
                ff,
                init,
                a + b,
            ),
    ensures
        res == seq_fold(ff, init, s),
{
    let n = s.len() as int;
    let partials = choose|partials: Seq<U>|
        #[trigger] partials_of(f, init, s, p, partials) && reduces_to(r, partials, res);
    assert forall|i: int| 0 <= i < p implies #[trigger] partials[i] == seq_fold(
        ff,
        init,
        s.subrange(part_start(n, p, i), part_end(n, p, i)),
    ) by {
        lemma_plan_bounds(n, p, i);
        lemma_folds_to_agrees(
            f,
            ff,
            init,
            s.subrange(part_start(n, p, i), part_end(n, p, i)),
            partials[i],
        );
    }
    lemma_reduces_to_agrees(r, rr, partials, res);
    lemma_reduce_prefix(ff, rr, init, s, p, partials, p);
    assert(partials.subrange(0, p) =~= partials);
    lemma_part_start_full(n, p);
    assert(s.subrange(0, n) =~= s);
}

} // verus!

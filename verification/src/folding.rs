//! The worker's local fold.
//!
//! A worker folds its partition of the input slice left-to-right from the
//! caller-supplied initial accumulator.  Because the fold operation is an
//! arbitrary closure, its behaviour is only known as a relation between
//! arguments and result (`call_ensures`); `folds_to` chains that relation
//! across a sequence, and `seq_fold` is the corresponding function when the
//! closure's behaviour is pinned to a mathematical function.

use vstd::prelude::*;

verus! {

/// Holds when `res` is a possible outcome of folding `s` left-to-right with
/// `f`, starting from the accumulator `acc`.
pub open spec fn folds_to<T, U, F: Fn(U, &T) -> U>(f: F, acc: U, s: Seq<T>, res: U) -> bool
    decreases s.len(),
{
    if s.len() == 0 {
        res == acc
    } else {
        exists|mid: U|
            #[trigger] call_ensures(f, (acc, &s[0]), mid) && folds_to(f, mid, s.drop_first(), res)
    }
}

/// The left-to-right fold of `s` by the mathematical function `ff`, starting
/// from the accumulator `acc`.
pub open spec fn seq_fold<T, U>(ff: spec_fn(U, T) -> U, acc: U, s: Seq<T>) -> U
    decreases s.len(),
{
    if s.len() == 0 {
        acc
    } else {
        seq_fold(ff, ff(acc, s[0]), s.drop_first())
    }
}

/// Extending a fold by one element on the right extends the chain of
/// possible outcomes by one application of `f`.
pub proof fn lemma_folds_to_push<T, U, F: Fn(U, &T) -> U>(
    f: F,
    init: U,
    s: Seq<T>,
    mid: U,
    x: T,
    res: U,
)
    requires
        folds_to(f, init, s, mid),
        call_ensures(f, (mid, &x), res),
    ensures
        folds_to(f, init, s.push(x), res),
    decreases s.len(),
{
    if s.len() == 0 {
        assert(s.push(x)[0] == x);
        assert(s.push(x).drop_first() =~= Seq::<T>::empty());
        assert(call_ensures(f, (init, &x), res));
        assert(folds_to(f, res, s.push(x).drop_first(), res));
    } else {
        let m = choose|m: U|
            #[trigger] call_ensures(f, (init, &s[0]), m) && folds_to(f, m, s.drop_first(), mid);
        lemma_folds_to_push(f, m, s.drop_first(), mid, x, res);
        assert(s.push(x).drop_first() =~= s.drop_first().push(x));
        assert(s.push(x)[0] == s[0]);
        assert(call_ensures(f, (init, &s.push(x)[0]), m));
        assert(folds_to(f, m, s.push(x).drop_first(), res));
    }
}

/// When every outcome of `f` agrees with the mathematical function `ff`, the
/// fold's outcome is exactly `seq_fold`.
pub proof fn lemma_folds_to_agrees<T, U, F: Fn(U, &T) -> U>(
    f: F,
    ff: spec_fn(U, T) -> U,
    init: U,
    s: Seq<T>,
    res: U,
)
    requires
        folds_to(f, init, s, res),
        forall|acc: U, x: T, out: U| #[trigger]
            call_ensures(f, (acc, &x), out) ==> out == ff(acc, x),
    ensures
        res == seq_fold(ff, init, s),
    decreases s.len(),
{
    if s.len() != 0 {
        let m = choose|m: U|
            #[trigger] call_ensures(f, (init, &s[0]), m) && folds_to(f, m, s.drop_first(), res);
        assert(m == ff(init, s[0]));
        lemma_folds_to_agrees(f, ff, m, s.drop_first(), res);
    }
}

/// Folds `s[start..end]` left-to-right with `f`, starting from `init`.
///
/// This is the work of one partition's worker: it reads only its own range of
/// the shared slice and produces exactly one accumulator value.
pub fn fold_range<T, U, F: Fn(U, &T) -> U>(
    s: &[T],
    start: usize,
    end: usize,
    init: U,
    f: F,
) -> (res: U)
    requires
        start <= end <= s@.len(),
        forall|acc: U, i: int| start <= i < end ==> call_requires(f, (acc, &s@[i])),
    ensures
        folds_to(f, init, s@.subrange(start as int, end as int), res),
{
    let mut acc = init;
    let mut i: usize = start;
    while i < end
        invariant
            start <= i <= end <= s@.len(),
            forall|a: U, j: int| start <= j < end ==> call_requires(f, (a, &s@[j])),
            folds_to(f, init, s@.subrange(start as int, i as int), acc),
        decreases end - i,
    {
        let next = f(acc, &s[i]);
        proof {
            assert(s@.subrange(start as int, i as int + 1) =~= s@.subrange(
                start as int,
                i as int,
            ).push(s@[i as int]));
            lemma_folds_to_push(
                f,
                init,
                s@.subrange(start as int, i as int),
                acc,
                s@[i as int],
                next,
            );
        }
        acc = next;
        i = i + 1;
    }
    acc
}

} // verus!

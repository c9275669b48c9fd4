//! The parallelism resolver and the partition planner.
//!
//! The resolver turns an optionally known hardware concurrency into a worker
//! count that is always at least one.  The planner divides a sequence of
//! length `n` into exactly `p` contiguous partitions whose sizes differ by at
//! most one, laid out in increasing index order with no gaps or overlaps.

use vstd::prelude::*;

verus! {

use vstd::arithmetic::div_mod::lemma_div_pos_is_pos;
use vstd::arithmetic::div_mod::lemma_fundamental_div_mod;
use vstd::arithmetic::div_mod::lemma_mod_division_less_than_divisor;

/// Worker count used when the host's hardware concurrency is unknown.
pub const DEFAULT_PARALLELISM: usize = 16;

/// The worker count that a queried hardware concurrency resolves to: the
/// queried value when it is known and positive, the fallback otherwise.
pub open spec fn spec_resolved_parallelism(queried: Option<usize>, fallback: usize) -> usize {
    match queried {
        Some(q) => if q >= 1 {
            q
        } else {
            fallback
        },
        None => fallback,
    }
}

/// Resolves how many concurrent workers to use.  `queried` is the hardware
/// concurrency reported by the host, if any; absence of that information is
/// handled by the fallback, never surfaced as an error.
pub fn resolve_parallelism(queried: Option<usize>, fallback: usize) -> (p: usize)
    requires
        fallback >= 1,
    ensures
        p == spec_resolved_parallelism(queried, fallback),
        p >= 1,
{
    match queried {
        Some(q) => if q >= 1 {
            q
        } else {
            fallback
        },
        None => fallback,
    }
}

/// One partition: the half-open index range `[start, end)` of the input
/// sequence that a single worker folds.
#[derive(Clone, Copy, PartialEq, Eq, Structural, Debug)]
pub struct Partition {
    pub start: usize,
    pub end: usize,
}

/// Size of partition `i` when a sequence of length `n` is divided into `p`
/// partitions: the first `n % p` partitions take one extra element.
pub open spec fn part_size(n: int, p: int, i: int) -> int {
    n / p + if i < n % p {
        1int
    } else {
        0int
    }
}

/// Start of partition `i`: the sum of the sizes of all prior partitions.
pub open spec fn part_start(n: int, p: int, i: int) -> int
    decreases i,
{
    if i <= 0 {
        0
    } else {
        part_start(n, p, i - 1) + part_size(n, p, i - 1)
    }
}

/// End of partition `i`, one past its last index.
pub open spec fn part_end(n: int, p: int, i: int) -> int {
    part_start(n, p, i) + part_size(n, p, i)
}

/// A sequence of partitions is the plan for `(n, p)` when it has exactly `p`
/// entries and entry `i` is the range `[part_start(n, p, i), part_end(n, p, i))`.
pub open spec fn is_plan(parts: Seq<Partition>, n: int, p: int) -> bool {
    &&& parts.len() == p
    &&& forall|i: int|
        0 <= i < p ==> (#[trigger] parts[i]).start == part_start(n, p, i) && parts[i].end
            == part_end(n, p, i)
}

proof fn lemma_part_size_bounds(n: int, p: int, i: int)
    requires
        0 <= n,
        1 <= p,
    ensures
        0 <= part_size(n, p, i),
        part_size(n, p, i) <= n / p + 1,
{
    lemma_div_pos_is_pos(n, p);
}

/// The closed form of the running prefix sum: partition `i` starts at
/// `i * (n / p)` plus one extra slot for each remainder element handed to a
/// prior partition.
proof fn lemma_part_start_closed(n: int, p: int, i: int)
    requires
        0 <= n,
        1 <= p,
        0 <= i,
    ensures
        part_start(n, p, i) == i * (n / p) + if i <= n % p {
            i
        } else {
            n % p
        },
    decreases i,
{
    if i == 0 {
        assert(part_start(n, p, 0) == 0);
    } else {
        lemma_part_start_closed(n, p, i - 1);
        lemma_mod_division_less_than_divisor(n, p);
        assert((i - 1) * (n / p) + n / p == i * (n / p)) by (nonlinear_arith);
    }
}

/// All `p` partition sizes sum to exactly `n`: the plan ends where the
/// sequence does.
pub proof fn lemma_part_start_full(n: int, p: int)
    requires
        0 <= n,
        1 <= p,
    ensures
        part_start(n, p, p) == n,
{
    lemma_part_start_closed(n, p, p);
    lemma_mod_division_less_than_divisor(n, p);
    lemma_fundamental_div_mod(n, p);
    assert(p * (n / p) == (n / p) * p) by (nonlinear_arith);
}

/// Partition starts never decrease as the index grows.
pub proof fn lemma_part_start_monotonic(n: int, p: int, i: int, j: int)
    requires
        0 <= n,
        1 <= p,
        0 <= i <= j,
    ensures
        part_start(n, p, i) <= part_start(n, p, j),
    decreases j - i,
{
    if i < j {
        lemma_part_size_bounds(n, p, j - 1);
        lemma_part_start_monotonic(n, p, i, j - 1);
    }
}

/// Every partition of a plan lies inside `[0, n]`, its start does not exceed
/// its end, and consecutive partitions meet exactly.
pub proof fn lemma_plan_bounds(n: int, p: int, i: int)
    requires
        0 <= n,
        1 <= p,
        0 <= i < p,
    ensures
        0 <= part_start(n, p, i),
        part_start(n, p, i) <= part_end(n, p, i),
        part_end(n, p, i) <= n,
        part_end(n, p, i) == part_start(n, p, i + 1),
{
    lemma_part_size_bounds(n, p, i);
    lemma_part_start_monotonic(n, p, 0, i);
    lemma_part_start_monotonic(n, p, i + 1, p);
    lemma_part_start_full(n, p);
}

/// Index `k` of the sequence falls inside at least one partition.
pub open spec fn covers_index(parts: Seq<Partition>, k: int) -> bool {
    exists|i: int| 0 <= i < parts.len() && (#[trigger] parts[i]).start <= k < parts[i].end
}

proof fn lemma_plan_find(n: int, p: int, k: int, j: int)
    requires
        0 <= n,
        1 <= p,
        0 <= k,
        0 <= j <= p,
        k < part_start(n, p, j),
    ensures
        exists|i: int| 0 <= i < j && part_start(n, p, i) <= k < #[trigger] part_end(n, p, i),
    decreases j,
{
    if k >= part_start(n, p, j - 1) {
        assert(part_start(n, p, j - 1) <= k < part_end(n, p, j - 1));
    } else {
        lemma_plan_find(n, p, k, j - 1);
    }
}

/// The partitions of a plan are pairwise disjoint, collectively cover
/// `[0, n)` exactly, and differ in size by at most one.
pub proof fn lemma_plan_covers(parts: Seq<Partition>, n: int, p: int)
    requires
        0 <= n,
        1 <= p,
        is_plan(parts, n, p),
    ensures
        forall|i: int, j: int|
            0 <= i < j < p ==> (#[trigger] parts[i]).end <= (#[trigger] parts[j]).start,
        forall|k: int| 0 <= k < n ==> #[trigger] covers_index(parts, k),
        forall|i: int, j: int|
            0 <= i < p && 0 <= j < p ==> (#[trigger] parts[i]).end - parts[i].start <= (
            #[trigger] parts[j]).end - parts[j].start + 1,
{
    assert forall|i: int, j: int|
        0 <= i < j < p implies (#[trigger] parts[i]).end <= (#[trigger] parts[j]).start by {
        lemma_part_size_bounds(n, p, i);
        lemma_part_start_monotonic(n, p, i + 1, j);
    }
    assert forall|k: int| 0 <= k < n implies #[trigger] covers_index(parts, k) by {
        lemma_part_start_full(n, p);
        lemma_plan_find(n, p, k, p);
        let i = choose|i: int| 0 <= i < p && part_start(n, p, i) <= k < #[trigger] part_end(
            n,
            p,
            i,
        );
        assert(parts[i].start <= k < parts[i].end);
    }
    assert forall|i: int, j: int|
        0 <= i < p && 0 <= j < p implies (#[trigger] parts[i]).end - parts[i].start <= (
    #[trigger] parts[j]).end - parts[j].start + 1 by {
        assert(parts[i].end - parts[i].start == part_size(n, p, i));
        assert(parts[j].end - parts[j].start == part_size(n, p, j));
    }
}

/// Planning is deterministic: any two plans for the same `n` and `p` have
/// exactly the same partition boundaries.
pub proof fn lemma_plan_deterministic(parts1: Seq<Partition>, parts2: Seq<Partition>, n: int, p: int)
    requires
        is_plan(parts1, n, p),
        is_plan(parts2, n, p),
    ensures
        parts1 == parts2,
{
    assert forall|i: int| 0 <= i < p implies parts1[i] == parts2[i] by {
        assert(parts1[i].start == parts2[i].start);
        assert(parts1[i].end == parts2[i].end);
    }
    assert(parts1 =~= parts2);
}

/// Divides a sequence of length `n` into exactly `p` contiguous partitions.
///
/// The first `n % p` partitions receive `n / p + 1` elements and the rest
/// `n / p`, laid out contiguously from index `0`, so the partitions cover
/// `[0, n)` exactly once each.  Boundaries are derived from a running prefix
/// sum of the partition sizes.
pub fn plan_partitions(n: usize, p: usize) -> (parts: Vec<Partition>)
    requires
        1 <= p,
    ensures
        is_plan(parts@, n as int, p as int),
{
    let base: usize = n / p;
    let rem: usize = n % p;
    let mut parts: Vec<Partition> = Vec::new();
    let mut start: usize = 0;
    let mut i: usize = 0;
    while i < p
        invariant
            1 <= p,
            i <= p,
            base == n as int / p as int,
            rem == n as int % p as int,
            parts@.len() == i,
            start == part_start(n as int, p as int, i as int),
            forall|j: int|
                0 <= j < i ==> (#[trigger] parts@[j]).start == part_start(n as int, p as int, j)
                    && parts@[j].end == part_end(n as int, p as int, j),
        decreases p - i,
    {
        proof {
            lemma_plan_bounds(n as int, p as int, i as int);
        }
        let size: usize = if i < rem {
            base + 1
        } else {
            base
        };
        let end: usize = start + size;
        parts.push(Partition { start, end });
        start = end;
        i = i + 1;
    }
    parts
}

} // verus!

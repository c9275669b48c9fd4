//! A parallel fold-then-reduce primitive over an in-memory slice.
//!
//! The slice is split into contiguous, non-overlapping partitions, each
//! partition is folded independently from the same initial accumulator, and
//! the partial results are combined with a reducing operation into a single
//! value.  The partition planning, the per-partition fold, and the collection
//! of partial results are verified; a driver that runs the partition folds on
//! concurrent threads lives outside the library and calls into these
//! functions.

mod collector;
mod folding;
mod parallel;
mod planner;

pub use collector::lemma_reduces_to_agrees;
pub use collector::reduce_partials;
pub use collector::reduces_to;
pub use collector::seq_reduce;
pub use folding::fold_range;
pub use folding::folds_to;
pub use folding::lemma_folds_to_agrees;
pub use folding::lemma_folds_to_push;
pub use folding::seq_fold;
pub use parallel::lemma_parallel_matches_sequential;
pub use parallel::par_foldl_result;
pub use parallel::parallel_foldl;
pub use parallel::parallel_foldl_with;
pub use parallel::partials_of;
pub use planner::Partition;
pub use planner::DEFAULT_PARALLELISM;
pub use planner::covers_index;
pub use planner::is_plan;
pub use planner::lemma_part_start_full;
pub use planner::lemma_part_start_monotonic;
pub use planner::lemma_plan_bounds;
pub use planner::lemma_plan_covers;
pub use planner::lemma_plan_deterministic;
pub use planner::part_end;
pub use planner::part_size;
pub use planner::part_start;
pub use planner::plan_partitions;
pub use planner::resolve_parallelism;
pub use planner::spec_resolved_parallelism;

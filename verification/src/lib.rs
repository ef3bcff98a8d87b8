//! TaskerRT scheduling core: pure, synchronous, no I/O, no wall clock.
//!
//! Layers, innermost first. Each may depend only on the ones before it:
//! `domain`, `cluster`, `policy`, `engine`. Around them stand the decisions of
//! the programs that use the core: `bench`, `loadgen` and `cli`.
//!
//! Contracts are stated over views: an arena is a map from live handles to
//! values, a ready set one map from handles to scores per class, a tracker a map
//! from arena indices to what is watched there. What the layers promise together
//! stands in the public proof functions whose names begin with `law_`.

pub mod bench;
pub mod cli;
pub mod cluster;
pub mod domain;
pub mod engine;
pub mod loadgen;
pub mod policy;
pub mod text;

// Re-exports keep the public paths flat: `tasker::Job`, not `tasker::domain::job::Job`.
pub use bench::{bench_config, synthetic, Workload};
pub use cluster::{CapacityError, SlotIndex, SlotInventory, WorkerSlot};
pub use domain::{
    AccountId, Arena, ArenaRestoreError, Capacity, Deps, Job, JobId, JobState, PriorityClass,
    ResourceRequest, Resources, SlotState, TransitionError, VirtualDuration, VirtualTime,
};
pub use engine::{CycleConfig, CycleOutcome, LifecycleError, Scheduler};
pub use policy::{
    build_decay_table, decay_factor, easy_backfill, pack, plan_preemption, reservation_time, score,
    AccountError, BackfillOutcome, BackfillScratch, DependencyError, DependencyTracker,
    DispatchDecision, Disposition, Eviction, FairShare, FairShareConfig, Ledger, OrderKey,
    PackBudget, PackOutcome, PreemptConfig, PriorityConfig, PriorityHeap, PriorityWeights,
    Readiness, ReadyEntry, ReadySet, RunningJob, Score, Usage, DECAY_ONE, DECAY_STEPS, FACTOR_SCALE,
    MAX_ACCOUNTS, USAGE_PER_CORE_SECOND,
};

//! The scheduling algorithms. Depends on `domain` and `cluster`.
//!
//! Every function here is pure: it reads and changes what it is handed.

pub mod backfill;
pub mod dag;
pub mod decay;
pub mod eligibility;
pub mod fairshare;
pub mod pack;
pub mod preempt;
pub mod priority;
pub mod ready_set;
pub mod sort;

pub use backfill::{easy_backfill, reservation_time, BackfillOutcome, BackfillScratch, RunningJob};
pub use decay::{build_decay_table, decay_factor, DECAY_ONE, DECAY_STEPS};
pub use eligibility::{DependencyError, DependencyTracker, Readiness};
pub use fairshare::{
    AccountError, FairShare, FairShareConfig, Ledger, Usage, MAX_ACCOUNTS, USAGE_PER_CORE_SECOND,
};
pub use pack::{pack, DispatchDecision, Disposition, PackBudget, PackOutcome};
pub use preempt::{plan_preemption, Eviction, PreemptConfig};
pub use priority::{score, OrderKey, PriorityConfig, PriorityWeights, Score, FACTOR_SCALE};
pub use ready_set::{PriorityHeap, ReadyEntry, ReadySet};

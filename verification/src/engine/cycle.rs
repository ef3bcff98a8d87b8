//! The scheduling cycle: rescore, order, pack, backfill, emit, plus the job
//! lifecycle calls that feed it. Every stage is bounded so a single tick has
//! predictable cost.
use crate::cluster::slot;
use crate::cluster::{SlotInventory, WorkerSlot};
use crate::domain::arena;
use crate::domain::{
    AccountId, Arena, Job, JobId, JobState, PriorityClass, TransitionError, VirtualTime,
};
use crate::policy::backfill;
use crate::policy::backfill::{easy_backfill, BackfillScratch, RunningJob};
use crate::policy::eligibility;
use crate::policy::eligibility::{DependencyError, DependencyTracker, Readiness, Watch};
use crate::policy::fairshare;
use crate::policy::fairshare::{
    AccountError, Accounts, FairShare, FairShareConfig, Ledger, MAX_ACCOUNTS,
};
use crate::policy::pack;
use crate::policy::pack::{DispatchDecision, Disposition, PackBudget, PackOutcome};
use crate::policy::preempt::PreemptConfig;
use crate::policy::priority;
use crate::policy::priority::{score, PriorityConfig, Score};
use crate::policy::ready_set;
use crate::policy::ready_set::{Queues, ReadyEntry, ReadySet};
use crate::policy::sort::sort_unstable_by_key;
use vstd::prelude::*;

verus! {

/// Everything a cycle needs that is not per-job state.
#[derive(Clone, Copy, Debug)]
pub struct CycleConfig {
    pub priority: PriorityConfig,
    pub fairshare: FairShareConfig,
    pub preempt: PreemptConfig,
    pub budget: PackBudget,
    /// Upper bound on jobs examined per cycle.
    pub max_candidates: usize,
}

/// What one cycle did.
#[derive(Clone, Copy, PartialEq, Eq, Debug, Structural)]
pub struct CycleOutcome {
    pub candidates: usize,
    pub dispatched: usize,
    pub backfilled: usize,
    /// The highest-priority job that did not fit, if any.
    pub head: Option<JobId>,
    pub reservation: Option<VirtualTime>,
    pub budget_exhausted: bool,
}

impl CycleOutcome {
    /// A cycle that looked at nothing.
    pub open spec fn idle() -> CycleOutcome {
        CycleOutcome {
            candidates: 0,
            dispatched: 0,
            backfilled: 0,
            head: None,
            reservation: None,
            budget_exhausted: false,
        }
    }
}

impl Default for CycleOutcome {
    fn default() -> (outcome: Self)
        ensures
            outcome == CycleOutcome::idle(),
    {
        CycleOutcome {
            candidates: 0,
            dispatched: 0,
            backfilled: 0,
            head: None,
            reservation: None,
            budget_exhausted: false,
        }
    }
}

/// A lifecycle call could not be applied.
#[derive(Clone, Copy, PartialEq, Eq, Debug, Structural)]
pub enum LifecycleError {
    /// There is no live job with this handle.
    UnknownJob(JobId),
    /// The job is in some other state than `Submitted`.
    NotSubmitted { job: JobId, state: JobState },
    Dependency(DependencyError),
    Account(AccountError),
    Transition(TransitionError),
}

impl From<DependencyError> for LifecycleError {
    fn from(error: DependencyError) -> (converted: Self) {
        LifecycleError::Dependency(error)
    }
}

impl vstd::std_specs::convert::FromSpecImpl<DependencyError> for LifecycleError {
    open spec fn obeys_from_spec() -> bool {
        true
    }

    open spec fn from_spec(error: DependencyError) -> LifecycleError {
        LifecycleError::Dependency(error)
    }
}

impl From<AccountError> for LifecycleError {
    fn from(error: AccountError) -> (converted: Self) {
        LifecycleError::Account(error)
    }
}

impl vstd::std_specs::convert::FromSpecImpl<AccountError> for LifecycleError {
    open spec fn obeys_from_spec() -> bool {
        true
    }

    open spec fn from_spec(error: AccountError) -> LifecycleError {
        LifecycleError::Account(error)
    }
}

impl From<TransitionError> for LifecycleError {
    fn from(error: TransitionError) -> (converted: Self) {
        LifecycleError::Transition(error)
    }
}

impl vstd::std_specs::convert::FromSpecImpl<TransitionError> for LifecycleError {
    open spec fn obeys_from_spec() -> bool {
        true
    }

    open spec fn from_spec(error: TransitionError) -> LifecycleError {
        LifecycleError::Transition(error)
    }
}

/// What a scheduler holds: the ready queues, the dependency watch, the accounts.
pub struct State {
    pub ready: Queues,
    pub watch: Watch,
    pub accounts: Accounts,
}

/// The score a job is queued at.
pub open spec fn queue_score(
    job: Job,
    accounts: Accounts,
    now: VirtualTime,
    config: CycleConfig,
) -> Score {
    priority::weighted_score(
        job,
        now,
        config.priority,
        accounts.factor_of(job.account),
    ) as u64
}

/// The entry a job is queued with.
pub open spec fn queue_entry(
    id: JobId,
    job: Job,
    accounts: Accounts,
    now: VirtualTime,
    config: CycleConfig,
) -> ReadyEntry {
    ReadyEntry {
        class: job.priority_class,
        job: id,
        score: queue_score(job, accounts, now, config),
    }
}

/// The queues with `job` out of its class queue.
pub open spec fn dequeued(ready: Queues, id: JobId, job: Job) -> Queues {
    let class = job.priority_class.rank() as int;
    ready.update(class, ready[class].remove(id))
}

/// The state a job takes once it has been registered.
pub open spec fn state_for(readiness: Readiness) -> JobState {
    match readiness {
        Readiness::Ready => JobState::Ready,
        Readiness::Blocked => JobState::Blocked,
        Readiness::Cancelled => JobState::Cancelled,
    }
}

/// The ready queues and the jobs, while a list of jobs is worked through.
pub struct Progress {
    pub ready: Queues,
    pub jobs: Map<JobId, Job>,
}

/// One job that has just lost its last dependency: it becomes `Ready` and is
/// queued, if it is live and may.
pub open spec fn promote_one(
    p: Progress,
    id: JobId,
    accounts: Accounts,
    now: VirtualTime,
    config: CycleConfig,
) -> Progress {
    if p.jobs.contains_key(id) && p.jobs[id].state.has_edge(JobState::Ready) {
        Progress {
            ready: ready_set::with_entry(
                p.ready,
                queue_entry(id, p.jobs[id], accounts, now, config),
            ),
            jobs: p.jobs.insert(id, p.jobs[id].in_state(JobState::Ready)),
        }
    } else {
        p
    }
}

/// Every job of `ids` promoted in turn.
pub open spec fn promote_all(
    p: Progress,
    ids: Seq<JobId>,
    accounts: Accounts,
    now: VirtualTime,
    config: CycleConfig,
) -> Progress
    decreases ids.len(),
{
    if ids.len() == 0 {
        p
    } else {
        promote_one(
            promote_all(p, ids.drop_last(), accounts, now, config),
            ids.last(),
            accounts,
            now,
            config,
        )
    }
}

/// One job swept up in a cascade: out of its queue if it was `Ready`, and
/// `Cancelled` if it may be.
pub open spec fn cancel_one(p: Progress, id: JobId) -> Progress {
    if p.jobs.contains_key(id) {
        let job = p.jobs[id];
        Progress {
            ready: if job.state is Ready {
                dequeued(p.ready, id, job)
            } else {
                p.ready
            },
            jobs: if job.state.has_edge(JobState::Cancelled) {
                p.jobs.insert(id, job.in_state(JobState::Cancelled))
            } else {
                p.jobs
            },
        }
    } else {
        p
    }
}

/// Every job of `ids` cancelled in turn.
pub open spec fn cancel_all(p: Progress, ids: Seq<JobId>) -> Progress
    decreases ids.len(),
{
    if ids.len() == 0 {
        p
    } else {
        cancel_one(cancel_all(p, ids.drop_last()), ids.last())
    }
}

/// No queued handle is stale at an index that a live job now holds.
pub open spec fn unshadowed(ready: Queues, jobs: Map<JobId, Job>) -> bool {
    forall|c: int, id: JobId, live: JobId|
        0 <= c < ready.len() && #[trigger] ready[c].contains_key(id) && #[trigger] jobs.contains_key(
            live,
        ) && id.idx() == live.idx() ==> id == live
}

/// `job` can be queued under `id`: no other handle of that arena index is in its
/// class queue, and the index is one that a table can hold.
pub open spec fn can_queue(ready: Queues, id: JobId, job: Job) -> bool {
    &&& ready_set::index_free_for(ready[job.priority_class.rank() as int], id)
    &&& id.idx() < u32::MAX
}

/// Every live job of `ids` can be queued.
pub open spec fn can_queue_all(ready: Queues, jobs: Map<JobId, Job>, ids: Seq<JobId>) -> bool {
    forall|k: int|
        0 <= k < ids.len() && jobs.contains_key(#[trigger] ids[k]) ==> can_queue(
            ready,
            ids[k],
            jobs[ids[k]],
        )
}

/// Every queued job that is live is `Ready` and queued in its own class.
pub open spec fn queued_ready(ready: Queues, jobs: Map<JobId, Job>) -> bool {
    forall|c: int, id: JobId|
        0 <= c < ready.len() && #[trigger] ready[c].contains_key(id) && jobs.contains_key(id)
            ==> jobs[id].state is Ready && jobs[id].priority_class.rank() == c
}

/// Owns the ready set, the dependency tracker, and the scratch buffers reused
/// across cycles.
#[derive(Debug)]
pub struct Scheduler {
    ready: ReadySet,
    deps: DependencyTracker,
    fairshare: FairShare,
    candidates: Vec<ReadyEntry>,
    disposition: Vec<Disposition>,
    backfill_scratch: BackfillScratch,
}

impl View for Scheduler {
    type V = State;

    closed spec fn view(&self) -> State {
        State { ready: self.ready@, watch: self.deps@, accounts: self.fairshare@ }
    }
}

impl Scheduler {
    /// Ready set, tracker and accounts are each well formed.
    pub closed spec fn wf(&self) -> bool {
        &&& self.ready.wf()
        &&& self.deps.wf()
        &&& self.fairshare.wf()
    }

    /// How many arena indices each class of the ready set covers.
    pub closed spec fn ready_slots(&self) -> Seq<nat> {
        self.ready.slots()
    }

    /// How many arena indices the dependency tracker covers.
    pub closed spec fn watch_slots(&self) -> nat {
        self.deps.slots()
    }

    /// Any job of this arena can be queued: no queued handle is stale at an index
    /// that a live job holds.
    pub open spec fn serves(&self, jobs: &Arena<Job>) -> bool {
        &&& jobs.states().len() <= u32::MAX
        &&& unshadowed(self@.ready, jobs@)
    }

    /// A scheduler that serves an arena can queue each of its jobs.
    pub proof fn law_served_jobs_can_be_queued(&self, jobs: &Arena<Job>, ids: Seq<JobId>)
        requires
            self.wf(),
            self.serves(jobs),
        ensures
            can_queue_all(self@.ready, jobs@, ids),
    {
        jobs.lemma_live_handles();
        self.ready.lemma_shape();
        assert forall|k: int|
            0 <= k < ids.len() && jobs@.contains_key(#[trigger] ids[k]) implies can_queue(
            self@.ready,
            ids[k],
            jobs@[ids[k]],
        ) by {
            let class = jobs@[ids[k]].priority_class;
            crate::domain::job::law_rank_determines_class(class, class);
        }
    }

    /// There is one queue per class, each finite, every watched job is filed under
    /// its own arena index, and every account has one factor, none above the scale.
    pub proof fn lemma_shape(&self)
        requires
            self.wf(),
        ensures
            self@.ready.len() == PriorityClass::COUNT,
            forall|c: int| 0 <= c < self@.ready.len() ==> (#[trigger] self@.ready[c]).dom().finite(),
            forall|i: u32| #[trigger]
                self@.watch.contains_key(i) ==> self@.watch[i].owner.idx() == i,
            self@.accounts.factors.len() == self@.accounts.ledgers.len() <= MAX_ACCOUNTS,
            forall|i: int|
                0 <= i < self@.accounts.factors.len() ==> #[trigger] self@.accounts.factors[i]
                    <= crate::policy::priority::FACTOR_SCALE,
    {
        self.ready.lemma_shape();
        self.deps.lemma_filed_by_index();
        self.fairshare.lemma_shape();
    }

    /// An empty scheduler.
    #[must_use]
    pub fn new() -> (scheduler: Self)
        ensures
            scheduler.wf(),
            scheduler@.ready.len() == PriorityClass::COUNT,
            ready_set::nothing_queued(scheduler@.ready),
            scheduler@.watch == Watch::empty(),
            scheduler@.accounts.ledgers == Seq::<fairshare::LedgerView>::empty(),
            scheduler@.accounts.factors == Seq::<u64>::empty(),
            scheduler.ready_slots() == Seq::new(PriorityClass::COUNT as nat, |c: int| 0nat),
            scheduler.watch_slots() == 0,
    {
        Scheduler {
            ready: ReadySet::new(),
            deps: DependencyTracker::new(),
            fairshare: FairShare::new(),
            candidates: Vec::new(),
            disposition: Vec::new(),
            backfill_scratch: BackfillScratch::new(),
        }
    }

    /// An empty scheduler preallocated for `slots` arena indices.
    #[must_use]
    pub fn with_slots(slots: usize) -> (scheduler: Self)
        requires
            slots <= u32::MAX,
        ensures
            scheduler.wf(),
            scheduler@.ready.len() == PriorityClass::COUNT,
            ready_set::nothing_queued(scheduler@.ready),
            scheduler@.watch == Watch::empty(),
            scheduler@.accounts.ledgers == Seq::<fairshare::LedgerView>::empty(),
            scheduler@.accounts.factors == Seq::<u64>::empty(),
            scheduler.ready_slots() == Seq::new(PriorityClass::COUNT as nat, |c: int| slots as nat),
            scheduler.watch_slots() == slots,
    {
        let mut scheduler = Scheduler::new();
        scheduler.ready.reserve_slots(slots);
        scheduler.deps.reserve_slots(slots);
        scheduler.candidates.reserve(slots);
        scheduler.disposition.reserve(slots);
        scheduler
    }

    /// How many jobs wait in the ready set.
    pub open spec fn waiting(&self) -> nat {
        self@.ready[0].dom().len() + self@.ready[1].dom().len() + self@.ready[2].dom().len()
            + self@.ready[3].dom().len()
    }

    /// Jobs waiting in the ready set.
    #[must_use]
    pub fn pending(&self) -> (count: usize)
        requires
            self.wf(),
            self.waiting() <= usize::MAX,
        ensures
            count == self.waiting(),
    {
        self.ready.len()
    }

    /// Adds a `Ready` job to the ready set at its current score.
    pub fn enqueue(&mut self, id: JobId, job: &Job, now: VirtualTime, config: &CycleConfig)
        requires
            old(self).wf(),
            can_queue(old(self)@.ready, id, *job),
        ensures
            final(self).wf(),
            final(self)@ == (State {
                ready: ready_set::with_entry(
                    old(self)@.ready,
                    queue_entry(id, *job, old(self)@.accounts, now, *config),
                ),
                ..old(self)@
            }),
    {
        let score: Score = score(job, now, &config.priority, self.fairshare.factor(job.account));
        self.ready.insert(job.priority_class, id, score);
    }

    /// Removes a job from the ready set without touching its state. Prefer
    /// `cancel`, which also cascades.
    pub fn withdraw(&mut self, class: PriorityClass, id: JobId) -> (present: bool)
        requires
            old(self).wf(),
        ensures
            final(self).wf(),
            present == old(self)@.ready[class.rank() as int].contains_key(id),
            final(self)@ == (State {
                ready: old(self)@.ready.update(
                    class.rank() as int,
                    old(self)@.ready[class.rank() as int].remove(id),
                ),
                ..old(self)@
            }),
    {
        self.ready.remove(class, id)
    }

    /// Sets an account's fair-share weight (default 1), creating its ledger if needed.
    ///
    /// # Errors
    /// `Account` when the id is not below `MAX_ACCOUNTS`.
    pub fn set_shares(&mut self, account: AccountId, shares: u32) -> (set: Result<
        (),
        LifecycleError,
    >)
        requires
            old(self).wf(),
        ensures
            final(self).wf(),
            set == (if account@ >= MAX_ACCOUNTS {
                Err(LifecycleError::Account(AccountError(account)))
            } else {
                Ok(())
            }),
            final(self)@ == (State {
                accounts: if set is Ok {
                    let grown = old(self)@.accounts.grown((account@ + 1) as nat);
                    grown.with_ledger(
                        account@ as int,
                        fairshare::LedgerView { shares, ..grown.ledgers[account@ as int] },
                    )
                } else {
                    old(self)@.accounts
                },
                ..old(self)@
            }),
    {
        match self.fairshare.set_shares(account, shares) {
            Ok(()) => Ok(()),
            Err(error) => Err(LifecycleError::from(error)),
        }
    }

    /// Per-account ledgers and factors, as of the last cycle.
    #[must_use]
    pub fn fairshare(&self) -> (accounts: &FairShare)
        requires
            self.wf(),
        ensures
            accounts.wf(),
            accounts@ == self@.accounts,
    {
        &self.fairshare
    }

    /// Validates a submit for the job that `id` (from `Arena::next_id`) will
    /// become, touching nothing. Lets a caller insert only what it will accept.
    ///
    /// # Errors
    /// `Account` or `Dependency`, exactly as `submit` would fail.
    pub fn check_submit(&self, id: JobId, job: &Job, jobs: &Arena<Job>) -> (verdict: Result<
        Readiness,
        LifecycleError,
    >)
        ensures
            verdict == submit_verdict(id, *job, jobs@),
    {
        if job.account.get() >= MAX_ACCOUNTS {
            return Err(LifecycleError::from(AccountError(job.account)));
        }
        match self.deps.classify(id, job, jobs) {
            Ok(readiness) => Ok(readiness),
            Err(error) => Err(LifecycleError::from(error)),
        }
    }

    /// Replays a dispatch: `Ready` to `Running` without a cycle, charging the
    /// account from `now`.
    ///
    /// # Errors
    /// `UnknownJob`, or `Transition` if `id` was not `Ready`.
    pub fn restore_running(
        &mut self,
        id: JobId,
        jobs: &mut Arena<Job>,
        now: VirtualTime,
        config: &CycleConfig,
    ) -> (restored: Result<(), LifecycleError>)
        requires
            old(self).wf(),
            old(jobs).wf(),
        ensures
            final(self).wf(),
            final(jobs).wf(),
            final(jobs).head() == old(jobs).head(),
            arena::same_layout(old(jobs).states(), final(jobs).states()),
            old(self).serves(&*old(jobs)) ==> final(self).serves(&*final(jobs)),
            queued_ready(old(self)@.ready, old(jobs)@) ==> queued_ready(
                final(self)@.ready,
                final(jobs)@,
            ),
            restored == move_verdict(id, old(jobs)@, JobState::Running),
            final(jobs)@ == (if restored is Ok {
                moved(old(jobs)@, id, JobState::Running)
            } else {
                old(jobs)@
            }),
            final(self)@ == (State {
                ready: if old(jobs)@.contains_key(id) {
                    dequeued(old(self)@.ready, id, old(jobs)@[id])
                } else {
                    old(self)@.ready
                },
                accounts: if restored is Ok {
                    old(self)@.accounts.dispatched(
                        old(jobs)@[id].account,
                        old(jobs)@[id].request.cpu_millis,
                        now,
                        config.fairshare,
                    )
                } else {
                    old(self)@.accounts
                },
                ..old(self)@
            }),
    {
        proof {
            self.ready.lemma_shape();
        }
        let Some(job) = jobs.get_mut(id) else {
            return Err(LifecycleError::UnknownJob(id));
        };
        proof {
            crate::domain::job::law_rank_determines_class(job.priority_class, job.priority_class);
        }
        // Removing is a no-op when absent; the transition below is the real check.
        self.ready.remove(job.priority_class, id);
        if let Err(error) = job.try_transition(JobState::Running) {
            proof {
                assert(old(jobs)@.insert(id, *job) =~= old(jobs)@);
            }
            return Err(LifecycleError::from(error));
        }
        self.fairshare.on_dispatch(job.account, job.request.cpu_millis, now, &config.fairshare);
        Ok(())
    }

    /// Marks a running job as being evicted. Its cpu stays charged and its
    /// capacity stays allocated until the worker reports that it stopped.
    ///
    /// # Errors
    /// `UnknownJob`, or `Transition` if `id` was not `Running`.
    pub fn preempt(&mut self, id: JobId, jobs: &mut Arena<Job>) -> (marked: Result<
        (),
        LifecycleError,
    >)
        requires
            old(jobs).wf(),
        ensures
            *final(self) == *old(self),
            final(jobs).wf(),
            final(jobs).head() == old(jobs).head(),
            arena::same_layout(old(jobs).states(), final(jobs).states()),
            old(self).serves(&*old(jobs)) ==> final(self).serves(&*final(jobs)),
            queued_ready(old(self)@.ready, old(jobs)@) ==> queued_ready(
                final(self)@.ready,
                final(jobs)@,
            ),
            marked == move_verdict(id, old(jobs)@, JobState::Preempted),
            final(jobs)@ == (if marked is Ok {
                moved(old(jobs)@, id, JobState::Preempted)
            } else {
                old(jobs)@
            }),
    {
        let Some(job) = jobs.get_mut(id) else {
            return Err(LifecycleError::UnknownJob(id));
        };
        if let Err(error) = job.try_transition(JobState::Preempted) {
            proof {
                assert(old(jobs)@.insert(id, *job) =~= old(jobs)@);
            }
            return Err(LifecycleError::from(error));
        }
        Ok(())
    }

    /// Returns a `Running` job to the ready set through `Preempted`: the edge
    /// for a job evicted through no fault of its own, e.g. its worker died.
    /// A job already mid-eviction is `Preempted` and goes back the same way.
    /// The caller releases slot capacity.
    ///
    /// # Errors
    /// `UnknownJob`, or `Transition` if `id` was neither `Running` nor `Preempted`.
    pub fn requeue(
        &mut self,
        id: JobId,
        jobs: &mut Arena<Job>,
        now: VirtualTime,
        config: &CycleConfig,
    ) -> (queued: Result<(), LifecycleError>)
        requires
            old(self).wf(),
            old(jobs).wf(),
            requeue_verdict(id, old(jobs)@) is Ok ==> can_queue(
                old(self)@.ready,
                id,
                old(jobs)@[id],
            ),
        ensures
            final(self).wf(),
            final(jobs).wf(),
            old(self).serves(&*old(jobs)) ==> final(self).serves(&*final(jobs)),
            queued_ready(old(self)@.ready, old(jobs)@) ==> queued_ready(
                final(self)@.ready,
                final(jobs)@,
            ),
            final(jobs).head() == old(jobs).head(),
            arena::same_layout(old(jobs).states(), final(jobs).states()),
            queued == requeue_verdict(id, old(jobs)@),
            queued is Ok ==> ({
                let job = old(jobs)@[id];
                let accounts = old(self)@.accounts.released(
                    job.account,
                    job.request.cpu_millis,
                    now,
                    config.fairshare,
                );
                &&& final(jobs)@ == moved(old(jobs)@, id, JobState::Ready)
                &&& final(self)@ == (State {
                    ready: ready_set::with_entry(
                        old(self)@.ready,
                        queue_entry(id, job, accounts, now, *config),
                    ),
                    accounts,
                    ..old(self)@
                })
            }),
            queued is Err ==> final(self)@ == old(self)@ && final(jobs)@ == old(jobs)@,
    {
        proof {
            jobs.lemma_live_handles();
            self.ready.lemma_shape();
        }
        let Some(job) = jobs.get_mut(id) else {
            return Err(LifecycleError::UnknownJob(id));
        };
        let ghost before = *job;
        match job.state {
            JobState::Running => {
                job.try_transition(JobState::Preempted).expect("a running job can be evicted");
            },
            JobState::Preempted => {},
            _ => {
                let error = TransitionError { from: job.state, to: JobState::Ready };
                proof {
                    assert(old(jobs)@.insert(id, *job) =~= old(jobs)@);
                }
                return Err(LifecycleError::from(error));
            },
        }
        job.try_transition(JobState::Ready).expect("an evicted job can be requeued");
        // Either way the job held its cpu until now.
        self.fairshare.on_release(job.account, job.request.cpu_millis, now, &config.fairshare);
        proof {
            assert(priority::weighted_score(
                *job,
                now,
                config.priority,
                self@.accounts.factor_of(job.account),
            ) == priority::weighted_score(
                before,
                now,
                config.priority,
                self@.accounts.factor_of(before.account),
            ));
        }
        self.enqueue(id, job, now, config);
        proof {
            crate::domain::job::law_rank_determines_class(job.priority_class, job.priority_class);
        }
        Ok(())
    }

    /// The worker confirmed the eviction: release the account, count it, requeue.
    ///
    /// # Errors
    /// `UnknownJob`, or `Transition` if `id` was not `Preempted`.
    pub fn on_preempted(
        &mut self,
        id: JobId,
        jobs: &mut Arena<Job>,
        now: VirtualTime,
        config: &CycleConfig,
    ) -> (queued: Result<(), LifecycleError>)
        requires
            old(self).wf(),
            old(jobs).wf(),
            preempted_verdict(id, old(jobs)@) is Ok ==> can_queue(
                old(self)@.ready,
                id,
                old(jobs)@[id],
            ),
        ensures
            final(self).wf(),
            final(jobs).wf(),
            old(self).serves(&*old(jobs)) ==> final(self).serves(&*final(jobs)),
            queued_ready(old(self)@.ready, old(jobs)@) ==> queued_ready(
                final(self)@.ready,
                final(jobs)@,
            ),
            final(jobs).head() == old(jobs).head(),
            arena::same_layout(old(jobs).states(), final(jobs).states()),
            queued == preempted_verdict(id, old(jobs)@),
            queued is Ok ==> ({
                let job = old(jobs)@[id];
                let accounts = old(self)@.accounts.released(
                    job.account,
                    job.request.cpu_millis,
                    now,
                    config.fairshare,
                );
                &&& final(jobs)@ == old(jobs)@.insert(
                    id,
                    Job { preemptions: one_more(job.preemptions), state: JobState::Ready, ..job },
                )
                &&& final(self)@ == (State {
                    ready: ready_set::with_entry(
                        old(self)@.ready,
                        queue_entry(id, job, accounts, now, *config),
                    ),
                    accounts,
                    ..old(self)@
                })
            }),
            queued is Err ==> final(self)@ == old(self)@ && final(jobs)@ == old(jobs)@,
    {
        let Some(job) = jobs.get_mut(id) else {
            return Err(LifecycleError::UnknownJob(id));
        };
        if job.state != JobState::Preempted {
            let error = TransitionError { from: job.state, to: JobState::Ready };
            proof {
                assert(old(jobs)@.insert(id, *job) =~= old(jobs)@);
            }
            return Err(LifecycleError::from(error));
        }
        job.preemptions = job.preemptions.saturating_add(1);
        let ghost counted = jobs@;
        let ghost between = jobs.states();
        proof {
            assert(counted.dom() =~= old(jobs)@.dom());
            assert(queued_ready(self@.ready, old(jobs)@) ==> queued_ready(self@.ready, counted));
        }
        let queued = self.requeue(id, jobs, now, config);
        proof {
            arena::lemma_same_layout_chains(old(jobs).states(), between, jobs.states());
            assert(jobs@ =~= old(jobs)@.insert(
                id,
                Job {
                    preemptions: one_more(old(jobs)@[id].preemptions),
                    state: JobState::Ready,
                    ..old(jobs)@[id]
                },
            ));
        }
        queued
    }

    /// Replaces every fair-share ledger with a snapshot's.
    ///
    /// # Errors
    /// `Account` when there are more ledgers than `MAX_ACCOUNTS`.
    pub fn restore_ledgers(&mut self, ledgers: Vec<Ledger>) -> (restored: Result<
        (),
        LifecycleError,
    >)
        requires
            old(self).wf(),
        ensures
            final(self).wf(),
            restored is Ok <==> ledgers@.len() <= MAX_ACCOUNTS,
            restored matches Err(error) ==> error matches LifecycleError::Account(AccountError(id))
                && id@ == MAX_ACCOUNTS,
            final(self)@ == (State {
                accounts: if restored is Ok {
                    Accounts {
                        ledgers: fairshare::ledger_views(ledgers@),
                        factors: Seq::new(ledgers@.len(), |i: int| priority::FACTOR_SCALE),
                    }
                } else {
                    old(self)@.accounts
                },
                ..old(self)@
            }),
    {
        match self.fairshare.restore(ledgers) {
            Ok(()) => Ok(()),
            Err(error) => Err(LifecycleError::from(error)),
        }
    }

    /// Classifies a `Submitted` job as `Ready`, `Blocked`, or `Cancelled` from
    /// its dependencies, applies the transition, and enqueues it if `Ready`.
    ///
    /// # Errors
    /// `UnknownJob`, `NotSubmitted`, `Account`, or `Dependency` when a dep does not
    /// resolve.
    pub fn submit(
        &mut self,
        id: JobId,
        jobs: &mut Arena<Job>,
        now: VirtualTime,
        config: &CycleConfig,
    ) -> (entered: Result<JobState, LifecycleError>)
        requires
            old(self).wf(),
            old(jobs).wf(),
            old(jobs).states().len() <= u32::MAX,
            old(jobs)@.contains_key(id) ==> old(jobs)@[id].deps@.len() <= u32::MAX,
            entry_verdict(id, old(jobs)@) == Ok::<JobState, LifecycleError>(JobState::Ready)
                ==> can_queue(old(self)@.ready, id, old(jobs)@[id]),
        ensures
            final(self).wf(),
            final(jobs).wf(),
            old(self).serves(&*old(jobs)) ==> final(self).serves(&*final(jobs)),
            queued_ready(old(self)@.ready, old(jobs)@) ==> queued_ready(
                final(self)@.ready,
                final(jobs)@,
            ),
            final(jobs).head() == old(jobs).head(),
            arena::same_layout(old(jobs).states(), final(jobs).states()),
            entered == entry_verdict(id, old(jobs)@),
            final(jobs)@ == (match entered {
                Ok(next) => moved(old(jobs)@, id, next),
                Err(_) => old(jobs)@,
            }),
            final(self)@ == after_submit(old(self)@, id, old(jobs)@, now, *config),
    {
        proof {
            jobs.lemma_live_handles();
            self.ready.lemma_shape();
        }
        let Some(job) = jobs.get(id) else {
            return Err(LifecycleError::UnknownJob(id));
        };
        if job.state != JobState::Submitted {
            return Err(LifecycleError::NotSubmitted { job: id, state: job.state });
        }
        // Grow the ledger table here, never in a cycle: this is the one allocation site.
        if let Err(error) = self.fairshare.ensure(job.account) {
            return Err(LifecycleError::from(error));
        }
        let readiness = match self.deps.register(id, job, jobs) {
            Ok(readiness) => readiness,
            Err(error) => {
                return Err(LifecycleError::from(error));
            },
        };
        let next = match readiness {
            Readiness::Ready => JobState::Ready,
            Readiness::Blocked => JobState::Blocked,
            Readiness::Cancelled => JobState::Cancelled,
        };
        let Some(job) = jobs.get_mut(id) else {
            return Err(LifecycleError::UnknownJob(id));
        };
        let ghost before = *job;
        job.try_transition(next).expect("a submitted job can take any of these");
        if next == JobState::Ready {
            proof {
                assert(priority::weighted_score(
                    *job,
                    now,
                    config.priority,
                    self@.accounts.factor_of(job.account),
                ) == priority::weighted_score(
                    before,
                    now,
                    config.priority,
                    self@.accounts.factor_of(before.account),
                ));
                crate::domain::job::law_rank_determines_class(
                    job.priority_class,
                    job.priority_class,
                );
            }
            self.enqueue(id, job, now, config);
        }
        Ok(next)
    }

    /// Marks `id` `Completed` and promotes every dependent whose last
    /// dependency this was. `promoted` is cleared, then filled.
    ///
    /// # Errors
    /// `UnknownJob`, or `Transition` if `id` was neither `Running` nor in its
    /// eviction grace.
    pub fn on_completed(
        &mut self,
        id: JobId,
        jobs: &mut Arena<Job>,
        now: VirtualTime,
        config: &CycleConfig,
        promoted: &mut Vec<JobId>,
    ) -> (done: Result<(), LifecycleError>)
        requires
            old(self).wf(),
            old(jobs).wf(),
            move_verdict(id, old(jobs)@, JobState::Completed) is Ok ==> can_queue_all(
                old(self)@.ready,
                old(jobs)@,
                eligibility::completion(old(self)@.watch, id).promoted,
            ),
        ensures
            final(self).wf(),
            final(jobs).wf(),
            old(self).serves(&*old(jobs)) ==> final(self).serves(&*final(jobs)),
            queued_ready(old(self)@.ready, old(jobs)@) ==> queued_ready(
                final(self)@.ready,
                final(jobs)@,
            ),
            final(jobs).head() == old(jobs).head(),
            arena::same_layout(old(jobs).states(), final(jobs).states()),
            done == move_verdict(id, old(jobs)@, JobState::Completed),
            done is Ok ==> ({
                let settled = eligibility::completion(old(self)@.watch, id);
                let accounts = released_by(old(self)@.accounts, old(jobs)@[id], now, *config);
                let end = promote_all(
                    Progress {
                        ready: old(self)@.ready,
                        jobs: moved(old(jobs)@, id, JobState::Completed),
                    },
                    settled.promoted,
                    accounts,
                    now,
                    *config,
                );
                &&& final(promoted)@ == settled.promoted
                &&& final(jobs)@ == end.jobs
                &&& final(self)@ == (State { ready: end.ready, watch: settled.watch, accounts })
            }),
            done is Err ==> final(self)@ == old(self)@ && final(jobs)@ == old(jobs)@
                && final(promoted)@ == old(promoted)@,
    {
        let Some(job) = jobs.get_mut(id) else {
            return Err(LifecycleError::UnknownJob(id));
        };
        if let Err(error) = job.try_transition(JobState::Completed) {
            proof {
                assert(old(jobs)@.insert(id, *job) =~= old(jobs)@);
            }
            return Err(LifecycleError::from(error));
        }
        self.fairshare.on_release(job.account, job.request.cpu_millis, now, &config.fairshare);
        promoted.clear();
        self.deps.on_completed(id, promoted);
        let ghost start = Progress { ready: self@.ready, jobs: jobs@ };
        let ghost accounts = self@.accounts;
        let ghost settled = eligibility::completion(old(self)@.watch, id);
        proof {
            assert(promoted@ =~= settled.promoted);
            assert(jobs@ =~= moved(old(jobs)@, id, JobState::Completed));
            assert(jobs@.dom() =~= old(jobs)@.dom());
            assert(promoted@.take(0) =~= Seq::<JobId>::empty());
            assert(promoted@.skip(0) =~= promoted@);
        }
        let mut i: usize = 0;
        while i < promoted.len()
            invariant
                i <= promoted@.len(),
                self.wf(),
                jobs.wf(),
                old(self).serves(&*old(jobs)) ==> self.serves(&*jobs),
                can_queue_all(self@.ready, jobs@, promoted@.skip(i as int)),
                jobs.head() == old(jobs).head(),
                arena::same_layout(old(jobs).states(), jobs.states()),
                queued_ready(old(self)@.ready, old(jobs)@) ==> queued_ready(self@.ready, jobs@),
                self@.watch == settled.watch,
                self@.accounts == accounts,
                (Progress { ready: self@.ready, jobs: jobs@ }) == promote_all(
                    start,
                    promoted@.take(i as int),
                    accounts,
                    now,
                    *config,
                ),
            decreases promoted@.len() - i,
        {
            let dependent: JobId = promoted[i];
            let ghost before = Progress { ready: self@.ready, jobs: jobs@ };
            let ghost states = jobs.states();
            proof {
                jobs.lemma_live_handles();
                self.ready.lemma_shape();
                assert(promoted@.take(i + 1).drop_last() =~= promoted@.take(i as int));
                assert(promoted@.skip(i as int)[0] == dependent);
            }
            if let Some(job) = jobs.get_mut(dependent) {
                let ghost was = *job;
                // Only a job that was waiting can move to Ready; anything else is left alone.
                if job.try_transition(JobState::Ready).is_ok() {
                    proof {
                        assert(priority::weighted_score(
                            *job,
                            now,
                            config.priority,
                            self@.accounts.factor_of(job.account),
                        ) == priority::weighted_score(
                            was,
                            now,
                            config.priority,
                            self@.accounts.factor_of(was.account),
                        ));
                        crate::domain::job::law_rank_determines_class(
                            job.priority_class,
                            job.priority_class,
                        );
                    }
                    self.enqueue(dependent, job, now, config);
                } else {
                    proof {
                        assert(before.jobs.insert(dependent, *job) =~= before.jobs);
                    }
                }
            }
            proof {
                arena::lemma_same_layout_chains(old(jobs).states(), states, jobs.states());
                assert(jobs@.dom() =~= before.jobs.dom());
                lemma_promotion_keeps_room(
                    before,
                    Progress { ready: self@.ready, jobs: jobs@ },
                    promoted@.skip(i as int),
                    accounts,
                    now,
                    *config,
                );
                assert(promoted@.skip(i as int).drop_first() =~= promoted@.skip(i + 1));
            }
            i += 1;
        }
        proof {
            assert(promoted@.take(promoted@.len() as int) =~= promoted@);
        }
        Ok(())
    }

    /// Transitions each cascaded job to `Cancelled`, pulling it from the ready
    /// set first if it was there.
    fn apply_cascade(&mut self, jobs: &mut Arena<Job>, cancelled: &[JobId])
        requires
            old(self).wf(),
            old(jobs).wf(),
        ensures
            final(self).wf(),
            final(jobs).wf(),
            final(jobs).head() == old(jobs).head(),
            arena::same_layout(old(jobs).states(), final(jobs).states()),
            ({
                let end = cancel_all(
                    Progress { ready: old(self)@.ready, jobs: old(jobs)@ },
                    cancelled@,
                );
                &&& final(jobs)@ == end.jobs
                &&& final(self)@ == (State { ready: end.ready, ..old(self)@ })
            }),
    {
        let ghost start = Progress { ready: self@.ready, jobs: jobs@ };
        let mut i: usize = 0;
        proof {
            assert(cancelled@.take(0) =~= Seq::<JobId>::empty());
        }
        while i < cancelled.len()
            invariant
                i <= cancelled@.len(),
                self.wf(),
                jobs.wf(),
                jobs.head() == old(jobs).head(),
                arena::same_layout(old(jobs).states(), jobs.states()),
                self@.watch == old(self)@.watch,
                self@.accounts == old(self)@.accounts,
                (Progress { ready: self@.ready, jobs: jobs@ }) == cancel_all(
                    start,
                    cancelled@.take(i as int),
                ),
            decreases cancelled@.len() - i,
        {
            let dependent: JobId = cancelled[i];
            let ghost before = jobs@;
            let ghost states = jobs.states();
            proof {
                assert(cancelled@.take(i + 1).drop_last() =~= cancelled@.take(i as int));
            }
            if let Some(job) = jobs.get_mut(dependent) {
                if job.state == JobState::Ready {
                    self.ready.remove(job.priority_class, dependent);
                }
                // A job that has already ended stays as it is.
                let _ = job.try_transition(JobState::Cancelled);
                proof {
                    if !before[dependent].state.has_edge(JobState::Cancelled) {
                        assert(before.insert(dependent, *job) =~= before);
                    }
                }
            }
            proof {
                arena::lemma_same_layout_chains(old(jobs).states(), states, jobs.states());
            }
            i += 1;
        }
        proof {
            assert(cancelled@.take(cancelled@.len() as int) =~= cancelled@);
        }
    }

    /// Marks `id` `Failed` and cancels every transitive dependent.
    /// `cancelled` is cleared, then filled. The caller releases slot capacity.
    ///
    /// # Errors
    /// `UnknownJob`, or `Transition` if `id` was neither `Running` nor in its
    /// eviction grace.
    pub fn on_failed(
        &mut self,
        id: JobId,
        jobs: &mut Arena<Job>,
        now: VirtualTime,
        config: &CycleConfig,
        cancelled: &mut Vec<JobId>,
    ) -> (done: Result<(), LifecycleError>)
        requires
            old(self).wf(),
            old(jobs).wf(),
        ensures
            final(self).wf(),
            final(jobs).wf(),
            final(jobs).head() == old(jobs).head(),
            arena::same_layout(old(jobs).states(), final(jobs).states()),
            old(self).serves(&*old(jobs)) ==> final(self).serves(&*final(jobs)),
            queued_ready(old(self)@.ready, old(jobs)@) ==> queued_ready(
                final(self)@.ready,
                final(jobs)@,
            ),
            done == move_verdict(id, old(jobs)@, JobState::Failed),
            done is Ok ==> ({
                let gone = eligibility::cascade_of(old(self)@.watch, id);
                let end = cancel_all(
                    Progress {
                        ready: old(self)@.ready,
                        jobs: moved(old(jobs)@, id, JobState::Failed),
                    },
                    gone,
                );
                &&& final(cancelled)@ == gone
                &&& final(jobs)@ == end.jobs
                &&& final(self)@ == (State {
                    ready: end.ready,
                    watch: eligibility::without_cascade(old(self)@.watch, id),
                    accounts: released_by(old(self)@.accounts, old(jobs)@[id], now, *config),
                })
            }),
            done is Err ==> final(self)@ == old(self)@ && final(jobs)@ == old(jobs)@
                && final(cancelled)@ == old(cancelled)@,
    {
        let Some(job) = jobs.get_mut(id) else {
            return Err(LifecycleError::UnknownJob(id));
        };
        if let Err(error) = job.try_transition(JobState::Failed) {
            proof {
                assert(old(jobs)@.insert(id, *job) =~= old(jobs)@);
            }
            return Err(LifecycleError::from(error));
        }
        self.fairshare.on_release(job.account, job.request.cpu_millis, now, &config.fairshare);
        cancelled.clear();
        self.deps.on_terminated(id, cancelled);
        let ghost states = jobs.states();
        proof {
            assert(cancelled@ =~= eligibility::cascade_of(old(self)@.watch, id));
        }
        proof {
            self.ready.lemma_shape();
            assert(jobs@.dom() =~= old(jobs)@.dom());
            assert forall|j: JobId| #[trigger] jobs@.contains_key(j) == old(jobs)@.contains_key(
                j,
            ) by {
                assert(jobs@.dom().contains(j) == old(jobs)@.dom().contains(j));
            }
            lemma_cancel_all_keeps(
                Progress { ready: self@.ready, jobs: jobs@ },
                cancelled@,
            );
        }
        self.apply_cascade(jobs, cancelled);
        proof {
            arena::lemma_same_layout_chains(old(jobs).states(), states, jobs.states());
        }
        Ok(())
    }

    /// Cancels `id` from any state that has not ended, and cascades. `cancelled`
    /// holds the dependents, not `id` itself. If `id` was `Running`, the caller
    /// releases its slot capacity.
    ///
    /// # Errors
    /// `UnknownJob`, or `Transition` if `id` is already terminal.
    pub fn cancel(
        &mut self,
        id: JobId,
        jobs: &mut Arena<Job>,
        now: VirtualTime,
        config: &CycleConfig,
        cancelled: &mut Vec<JobId>,
    ) -> (done: Result<(), LifecycleError>)
        requires
            old(self).wf(),
            old(jobs).wf(),
        ensures
            final(self).wf(),
            final(jobs).wf(),
            final(jobs).head() == old(jobs).head(),
            arena::same_layout(old(jobs).states(), final(jobs).states()),
            old(self).serves(&*old(jobs)) ==> final(self).serves(&*final(jobs)),
            queued_ready(old(self)@.ready, old(jobs)@) ==> queued_ready(
                final(self)@.ready,
                final(jobs)@,
            ),
            done == move_verdict(id, old(jobs)@, JobState::Cancelled),
            done is Ok ==> ({
                let job = old(jobs)@[id];
                let gone = eligibility::cascade_of(old(self)@.watch, id);
                let end = cancel_all(
                    Progress {
                        ready: if job.state is Ready {
                            dequeued(old(self)@.ready, id, job)
                        } else {
                            old(self)@.ready
                        },
                        jobs: moved(old(jobs)@, id, JobState::Cancelled),
                    },
                    gone,
                );
                &&& final(cancelled)@ == gone
                &&& final(jobs)@ == end.jobs
                &&& final(self)@ == (State {
                    ready: end.ready,
                    watch: eligibility::without_cascade(old(self)@.watch, id),
                    accounts: if job.state is Running || job.state is Preempted {
                        released_by(old(self)@.accounts, job, now, *config)
                    } else {
                        old(self)@.accounts
                    },
                })
            }),
            done is Err ==> final(self)@ == old(self)@ && final(jobs)@ == old(jobs)@
                && final(cancelled)@ == old(cancelled)@,
    {
        let Some(job) = jobs.get_mut(id) else {
            return Err(LifecycleError::UnknownJob(id));
        };
        if job.state == JobState::Ready {
            self.ready.remove(job.priority_class, id);
        }
        let was_running: bool = matches!(job.state, JobState::Running | JobState::Preempted);
        if let Err(error) = job.try_transition(JobState::Cancelled) {
            proof {
                assert(old(jobs)@.insert(id, *job) =~= old(jobs)@);
            }
            return Err(LifecycleError::from(error));
        }
        if was_running {
            self.fairshare.on_release(job.account, job.request.cpu_millis, now, &config.fairshare);
        }
        cancelled.clear();
        self.deps.on_terminated(id, cancelled);
        let ghost states = jobs.states();
        proof {
            assert(cancelled@ =~= eligibility::cascade_of(old(self)@.watch, id));
        }
        proof {
            old(self).ready.lemma_shape();
            let start = Progress { ready: old(self)@.ready, jobs: old(jobs)@ };
            lemma_cancel_one_keeps(start, id);
            assert(self@.ready == cancel_one(start, id).ready);
            assert(jobs@ == cancel_one(start, id).jobs);
            lemma_cancel_all_keeps(
                Progress { ready: self@.ready, jobs: jobs@ },
                cancelled@,
            );
        }
        self.apply_cascade(jobs, cancelled);
        proof {
            arena::lemma_same_layout_chains(old(jobs).states(), states, jobs.states());
        }
        Ok(())
    }

    /// Brings every candidate's score up to date: stored scores are stale because
    /// every job has aged since it was queued.
    fn rescore_candidates(&mut self, jobs: &Arena<Job>, now: VirtualTime, config: &CycleConfig)
        requires
            old(self).wf(),
        ensures
            final(self).wf(),
            final(self)@ == old(self)@,
            final(self).candidates@ == rescored(
                old(self).candidates@,
                jobs@,
                old(self)@.accounts,
                now,
                *config,
            ),
    {
        let mut i: usize = 0;
        while i < self.candidates.len()
            invariant
                i <= self.candidates@.len() == old(self).candidates@.len(),
                self.wf(),
                self@ == old(self)@,
                forall|k: int|
                    0 <= k < i ==> #[trigger] self.candidates@[k] == rescore(
                        old(self).candidates@[k],
                        jobs@,
                        old(self)@.accounts,
                        now,
                        *config,
                    ),
                forall|k: int|
                    i <= k < self.candidates@.len() ==> #[trigger] self.candidates@[k] == old(
                        self,
                    ).candidates@[k],
            decreases self.candidates@.len() - i,
        {
            let mut entry: ReadyEntry = self.candidates[i];
            if let Some(job) = jobs.get(entry.job) {
                entry.score =
                score(job, now, &config.priority, self.fairshare.factor(job.account));
            }
            self.candidates[i] = entry;
            i += 1;
        }
        assert(self.candidates@ =~= rescored(
            old(self).candidates@,
            jobs@,
            old(self)@.accounts,
            now,
            *config,
        ));
    }

    /// Applies state changes and returns the untouched entries.
    fn emit(
        &mut self,
        jobs: &mut Arena<Job>,
        now: VirtualTime,
        config: &CycleConfig,
        Ghost(queues): Ghost<Queues>,
    )
        requires
            old(self).wf(),
            old(jobs).wf(),
            old(self).disposition@.len() == old(self).candidates@.len(),
            emittable(
                queues,
                old(self)@.ready,
                old(jobs)@,
                old(self).candidates@,
                old(self).disposition@,
            ),
        ensures
            final(self).wf(),
            final(jobs).wf(),
            final(jobs).head() == old(jobs).head(),
            arena::same_layout(old(jobs).states(), final(jobs).states()),
            final(self)@.watch == old(self)@.watch,
            ({
                let end = emit_all(
                    Tick {
                        ready: old(self)@.ready,
                        jobs: old(jobs)@,
                        accounts: old(self)@.accounts,
                    },
                    old(self).candidates@,
                    old(self).disposition@,
                    old(self).candidates@.len() as int,
                    now,
                    *config,
                );
                &&& final(self)@.ready == end.ready
                &&& final(self)@.accounts == end.accounts
                &&& final(jobs)@ == end.jobs
            }),
            final(jobs)@.dom() == old(jobs)@.dom(),
            shrunk(queues, final(self)@.ready),
    {
        let ghost start = Tick {
            ready: self@.ready,
            jobs: jobs@,
            accounts: self@.accounts,
        };
        let mut i: usize = 0;
        while i < self.candidates.len()
            invariant
                i <= self.candidates@.len() == self.disposition@.len(),
                self.wf(),
                jobs.wf(),
                jobs.head() == old(jobs).head(),
                arena::same_layout(old(jobs).states(), jobs.states()),
                self.candidates@ == old(self).candidates@,
                self.disposition@ == old(self).disposition@,
                self@.watch == old(self)@.watch,
                emittable(
                    queues,
                    old(self)@.ready,
                    old(jobs)@,
                    self.candidates@,
                    self.disposition@,
                ),
                start == (Tick {
                    ready: old(self)@.ready,
                    jobs: old(jobs)@,
                    accounts: old(self)@.accounts,
                }),
                (Tick { ready: self@.ready, jobs: jobs@, accounts: self@.accounts }) == emit_all(
                    start,
                    self.candidates@,
                    self.disposition@,
                    i as int,
                    now,
                    *config,
                ),
                jobs@.dom() == old(jobs)@.dom(),
                shrunk(queues, self@.ready),
                rest_untouched(
                    self@.ready,
                    old(jobs)@,
                    jobs@,
                    self.candidates@,
                    self.disposition@,
                    i as int,
                ),
            decreases self.candidates@.len() - i,
        {
            let entry: ReadyEntry = self.candidates[i];
            let ghost before = Tick {
                ready: self@.ready,
                jobs: jobs@,
                accounts: self@.accounts,
            };
            let ghost states = jobs.states();
            let ghost class = entry.class.rank() as int;
            proof {
                crate::domain::job::law_rank_determines_class(entry.class, entry.class);
                self.ready.lemma_shape();
                assert(self.candidates@[i as int] == entry);
                assert(!self@.ready[class].contains_key(entry.job));
            }
            match self.disposition[i] {
                Disposition::Dispatched => {
                    if let Some(job) = jobs.get_mut(entry.job) {
                        proof {
                            assert(*job == old(jobs)@[entry.job]);
                        }
                        job.try_transition(JobState::Running).expect(
                            "a dispatched job was Ready",
                        );
                        self.fairshare.on_dispatch(
                            job.account,
                            job.request.cpu_millis,
                            now,
                            &config.fairshare,
                        );
                    }
                },
                Disposition::Pending => {
                    proof {
                        lemma_place_to_return(queues, self@.ready, entry);
                    }
                    self.ready.reinsert(entry);
                },
                // A dropped entry simply leaves the system.
                Disposition::Dropped => {},
            }
            proof {
                arena::lemma_same_layout_chains(old(jobs).states(), states, jobs.states());
                lemma_emit_step(
                    queues,
                    old(self)@.ready,
                    old(jobs)@,
                    self.candidates@,
                    self.disposition@,
                    before,
                    i as int,
                    now,
                    *config,
                );
            }
            i += 1;
        }
    }

    /// Runs one cycle, appending dispatch decisions to `decisions`.
    pub fn run_cycle(
        &mut self,
        jobs: &mut Arena<Job>,
        inventory: &mut SlotInventory,
        running: &[RunningJob],
        now: VirtualTime,
        config: &CycleConfig,
        decisions: &mut Vec<DispatchDecision>,
    ) -> (outcome: CycleOutcome)
        requires
            old(self).wf(),
            old(jobs).wf(),
            old(inventory).wf(),
            old(inventory)@.len() <= u32::MAX,
            cycle_lands(
                old(self)@.ready,
                old(jobs)@,
                old(self)@.accounts.refreshed(now, config.fairshare),
                old(inventory)@,
                running@,
                now,
                *config,
            ),
            cycle_starts(
                old(self)@.ready,
                old(jobs)@,
                old(self)@.accounts.refreshed(now, config.fairshare),
                old(inventory)@,
                running@,
                now,
                *config,
            ),
        ensures
            final(self).wf(),
            final(jobs).wf(),
            final(inventory).wf(),
            final(jobs).head() == old(jobs).head(),
            arena::same_layout(old(jobs).states(), final(jobs).states()),
            old(self).serves(&*old(jobs)) ==> final(self).serves(&*final(jobs)),
            queued_ready(old(self)@.ready, old(jobs)@) ==> queued_ready(
                final(self)@.ready,
                final(jobs)@,
            ),
            ({
                let accounts = old(self)@.accounts.refreshed(now, config.fairshare);
                let plan = cycle_plan(
                    old(self)@.ready,
                    old(jobs)@,
                    accounts,
                    old(inventory)@,
                    running@,
                    now,
                    *config,
                );
                let end = cycle_end(
                    old(self)@.ready,
                    old(jobs)@,
                    accounts,
                    old(inventory)@,
                    running@,
                    now,
                    *config,
                );
                &&& outcome == plan.outcome
                &&& final(inventory)@ == plan.slots
                &&& final(decisions)@ == old(decisions)@ + plan.decisions
                &&& final(jobs)@ == end.jobs
                &&& final(self)@ == (State {
                    ready: end.ready,
                    watch: old(self)@.watch,
                    accounts: end.accounts,
                })
            }),
    {
        let ghost queues = self@.ready;
        proof {
            self.ready.lemma_shape();
            jobs.lemma_live_handles();
        }
        let mut outcome = CycleOutcome::default();
        // Ledgers and factors first, so that rescoring sees current values.
        self.fairshare.refresh(now, &config.fairshare);
        // Order: take a bounded slice of the ready set into the scratch buffer.
        self.ready.drain_ordered_into(&mut self.candidates, config.max_candidates);
        let ghost taken = self.candidates@;
        let ghost left = self@.ready;
        let ghost accounts = self@.accounts;
        proof {
            ready_set::law_drain_takes_each_entry_once(queues, taken);
        }
        // Rescore, then sort again: class first, then the total order key.
        self.rescore_candidates(jobs, now, config);
        let ghost fresh = self.candidates@;
        sort_unstable_by_key(&mut self.candidates);
        let ghost candidates = self.candidates@;
        proof {
            ready_set::lemma_sorted_is_from_the_top(fresh, candidates);
            lemma_candidates(queues, left, jobs@, taken, fresh, candidates);
        }
        outcome.candidates = self.candidates.len();
        self.disposition.clear();
        self.fill_pending();
        let ghost pending = self.disposition@;
        let ghost slots = inventory@;
        let ghost given = decisions@;
        proof {
            pack::lemma_pack(
                candidates,
                jobs@,
                config.budget,
                0,
                pack::pack_start(slots, pending),
            );
        }
        let packed: PackOutcome = pack::pack(
            &self.candidates,
            jobs,
            inventory,
            config.budget,
            &mut self.disposition,
            decisions,
        );
        outcome.dispatched = packed.dispatched;
        outcome.budget_exhausted = packed.budget_exhausted;
        // Backfill, only when packing stopped at a head job.
        if let Some(head_index) = packed.head {
            outcome.head = Some(self.candidates[head_index].job);
            let ghost packed_slots = inventory@;
            let ghost packed_disposition = self.disposition@;
            let filled = easy_backfill(
                &self.candidates,
                head_index,
                jobs,
                inventory,
                running,
                now,
                config.budget,
                &mut self.disposition,
                decisions,
                &mut self.backfill_scratch,
            );
            outcome.backfilled = filled.backfilled;
            outcome.reservation = filled.reservation;
            proof {
                backfill::law_backfill_respects_capacity_and_budget(
                    candidates,
                    head_index as int,
                    jobs@,
                    packed_slots,
                    running@,
                    now,
                    config.budget,
                    packed_disposition,
                );
            }
        }
        let ghost plan = cycle_plan(queues, jobs@, accounts, slots, running@, now, *config);
        proof {
            assert(taken == ready_set::drained(queues, config.max_candidates as int));
            assert(candidates == plan.candidates);
            assert(pending == all_pending(candidates.len()));
            assert(decisions@ =~= given + plan.decisions);
        }
        self.emit(jobs, now, config, Ghost(queues));
        proof {
            assert forall|j: JobId| #[trigger] jobs@.contains_key(j) == old(jobs)@.contains_key(
                j,
            ) by {
                assert(jobs@.dom().contains(j) == old(jobs)@.dom().contains(j));
            }
            if queued_ready(queues, old(jobs)@) {
                crate::engine::laws::law_cycle_loses_no_job(
                    queues,
                    old(jobs)@,
                    accounts,
                    slots,
                    running@,
                    now,
                    *config,
                );
                assert forall|c: int, id: JobId|
                    0 <= c < self@.ready.len() && #[trigger] self@.ready[c].contains_key(
                        id,
                    ) && jobs@.contains_key(id) implies jobs@[id].state is Ready
                    && jobs@[id].priority_class.rank() == c by {
                    assert(queues[c].contains_key(id));
                }
            }
        }
        outcome
    }

    /// Marks every candidate pending.
    fn fill_pending(&mut self)
        requires
            old(self).wf(),
            old(self).disposition@.len() == 0,
        ensures
            final(self).wf(),
            final(self)@ == old(self)@,
            final(self).candidates@ == old(self).candidates@,
            final(self).disposition@ == all_pending(old(self).candidates@.len()),
    {
        while self.disposition.len() < self.candidates.len()
            invariant
                self.wf(),
                self@ == old(self)@,
                self.candidates@ == old(self).candidates@,
                self.disposition@.len() <= self.candidates@.len(),
                forall|i: int|
                    0 <= i < self.disposition@.len() ==> #[trigger] self.disposition@[i]
                        == Disposition::Pending,
            decreases self.candidates@.len() - self.disposition@.len(),
        {
            self.disposition.push(Disposition::Pending);
        }
        assert(self.disposition@ =~= all_pending(self.candidates@.len()));
    }
}

/// Every candidate still pending.
pub open spec fn all_pending(n: nat) -> Seq<Disposition> {
    Seq::new(n, |i: int| Disposition::Pending)
}

/// What a cycle decides: its candidates in order, what becomes of each, the slots
/// with every placement charged, the placements in order, and the summary.
pub struct Plan {
    pub candidates: Seq<ReadyEntry>,
    pub disposition: Seq<Disposition>,
    pub slots: Seq<WorkerSlot>,
    pub decisions: Seq<DispatchDecision>,
    pub outcome: CycleOutcome,
}

/// The candidates of a cycle: what it drains, at current scores, from the highest
/// down.
pub open spec fn candidates_of(
    ready: Queues,
    jobs: Map<JobId, Job>,
    accounts: Accounts,
    now: VirtualTime,
    config: CycleConfig,
) -> Seq<ReadyEntry> {
    ready_set::from_the_top(
        rescored(
            ready_set::drained(ready, config.max_candidates as int),
            jobs,
            accounts,
            now,
            config,
        ),
    )
}

/// The packing pass of a cycle over these candidates.
pub open spec fn packed_by(
    candidates: Seq<ReadyEntry>,
    jobs: Map<JobId, Job>,
    slots: Seq<WorkerSlot>,
    config: CycleConfig,
) -> pack::PackState {
    pack::pack_from(
        candidates,
        jobs,
        config.budget,
        0,
        pack::pack_start(slots, all_pending(candidates.len())),
    )
}

/// Every job that a cycle tries to place can be charged where it would go. It
/// always is so while no slot holds more than it declares.
pub open spec fn cycle_lands(
    ready: Queues,
    jobs: Map<JobId, Job>,
    accounts: Accounts,
    slots: Seq<WorkerSlot>,
    running: Seq<RunningJob>,
    now: VirtualTime,
    config: CycleConfig,
) -> bool {
    let candidates = candidates_of(ready, jobs, accounts, now, config);
    let packed = packed_by(candidates, jobs, slots, config);
    &&& pack::pack_lands(
        candidates,
        jobs,
        config.budget,
        0,
        pack::pack_start(slots, all_pending(candidates.len())),
    )
    &&& packed.outcome.head matches Some(head) ==> backfill::backfill_pass_lands(
        candidates,
        head as int,
        jobs,
        packed.slots,
        running,
        now,
        config.budget,
        packed.disposition,
    )
}

/// Every candidate to be dispatched is ready to run, and none is to be twice.
pub open spec fn starts(
    candidates: Seq<ReadyEntry>,
    disposition: Seq<Disposition>,
    jobs: Map<JobId, Job>,
) -> bool {
    &&& forall|k: int|
        0 <= k < candidates.len() && (#[trigger] disposition[k]) is Dispatched
            && jobs.contains_key(candidates[k].job) ==> jobs[candidates[k].job].state is Ready
    &&& forall|i: int, j: int|
        0 <= i < j < candidates.len() && (#[trigger] disposition[i]) is Dispatched && (
        #[trigger] disposition[j]) is Dispatched ==> candidates[i].job != candidates[j].job
}

/// Every job that a cycle dispatches is ready to run. It always is so while only
/// ready jobs are queued, each in its own class.
pub open spec fn cycle_starts(
    ready: Queues,
    jobs: Map<JobId, Job>,
    accounts: Accounts,
    slots: Seq<WorkerSlot>,
    running: Seq<RunningJob>,
    now: VirtualTime,
    config: CycleConfig,
) -> bool {
    let plan = cycle_plan(ready, jobs, accounts, slots, running, now, config);
    starts(plan.candidates, plan.disposition, jobs)
}

/// The plan of a cycle: the candidates are packed; if a head is left over, the
/// rest backfill ahead of it.
pub open spec fn cycle_plan(
    ready: Queues,
    jobs: Map<JobId, Job>,
    accounts: Accounts,
    slots: Seq<WorkerSlot>,
    running: Seq<RunningJob>,
    now: VirtualTime,
    config: CycleConfig,
) -> Plan {
    let candidates = candidates_of(ready, jobs, accounts, now, config);
    let packed = packed_by(candidates, jobs, slots, config);
    let outcome = CycleOutcome {
        candidates: candidates.len() as usize,
        dispatched: packed.outcome.dispatched,
        backfilled: 0,
        head: None,
        reservation: None,
        budget_exhausted: packed.outcome.budget_exhausted,
    };
    match packed.outcome.head {
        None => Plan {
            candidates,
            disposition: packed.disposition,
            slots: packed.slots,
            decisions: packed.placed,
            outcome,
        },
        Some(head) => {
            let (filled, reservation) = backfill::backfill_pass(
                candidates,
                head as int,
                jobs,
                packed.slots,
                running,
                now,
                config.budget,
                packed.disposition,
            );
            Plan {
                candidates,
                disposition: filled.disposition,
                slots: filled.slots,
                decisions: packed.placed + backfill::placements(filled.admitted),
                outcome: CycleOutcome {
                    backfilled: filled.admitted.len() as usize,
                    head: Some(candidates[head as int].job),
                    reservation,
                    ..outcome
                },
            }
        },
    }
}

/// Queues, jobs and accounts once a cycle has been applied.
pub open spec fn cycle_end(
    ready: Queues,
    jobs: Map<JobId, Job>,
    accounts: Accounts,
    slots: Seq<WorkerSlot>,
    running: Seq<RunningJob>,
    now: VirtualTime,
    config: CycleConfig,
) -> Tick {
    let plan = cycle_plan(ready, jobs, accounts, slots, running, now, config);
    emit_all(
        Tick {
            ready: ready_set::after_taking(
                ready,
                ready_set::drained(ready, config.max_candidates as int),
            ),
            jobs,
            accounts,
        },
        plan.candidates,
        plan.disposition,
        plan.candidates.len() as int,
        now,
        config,
    )
}

/// Rescoring and sorting what was drained keeps each class and handle, each once.
pub(crate) proof fn lemma_candidates(
    queues: Queues,
    left: Queues,
    jobs: Map<JobId, Job>,
    taken: Seq<ReadyEntry>,
    fresh: Seq<ReadyEntry>,
    candidates: Seq<ReadyEntry>,
)
    requires
        queues.len() == PriorityClass::COUNT,
        ready_set::in_drain_order(queues, taken),
        left == ready_set::after_taking(queues, taken),
        fresh.len() == taken.len(),
        forall|k: int|
            0 <= k < taken.len() ==> (#[trigger] fresh[k]).class == taken[k].class && fresh[k].job
                == taken[k].job,
        candidates.to_multiset() == fresh.to_multiset(),
    ensures
        candidates.len() == taken.len(),
        shrunk(queues, left),
        forall|k: int|
            0 <= k < candidates.len() ==> {
                let entry = #[trigger] candidates[k];
                &&& queues[entry.class.rank() as int].contains_key(entry.job)
                &&& !left[entry.class.rank() as int].contains_key(entry.job)
            },
        forall|i: int, j: int|
            0 <= i < j < candidates.len() ==> !((#[trigger] candidates[i]).class == (
            #[trigger] candidates[j]).class && candidates[i].job == candidates[j].job),
{
    broadcast use vstd::seq_lib::group_to_multiset_ensures;

    ready_set::law_drain_takes_each_entry_once(queues, taken);
    assert(candidates.len() == candidates.to_multiset().len());
    assert(fresh.len() == fresh.to_multiset().len());
    assert forall|k: int| 0 <= k < candidates.len() implies ({
        let entry = #[trigger] candidates[k];
        &&& queues[entry.class.rank() as int].contains_key(entry.job)
        &&& !left[entry.class.rank() as int].contains_key(entry.job)
    }) by {
        let entry = candidates[k];
        let m = lemma_position(candidates, fresh, k);
        let c = entry.class.rank() as int;
        crate::domain::job::law_rank_determines_class(entry.class, entry.class);
        assert(taken[m].class == entry.class && taken[m].job == entry.job);
        assert(ready_set::takes(taken, c, entry.job));
        assert(left[c].contains_key(entry.job) ==> !ready_set::takes(taken, c, entry.job));
    }
    assert(fresh.no_duplicates()) by {
        assert forall|i: int, j: int| 0 <= i < fresh.len() && 0 <= j < fresh.len() && i
            != j implies fresh[i] != fresh[j] by {
            let (a, b) = if i < j {
                (i, j)
            } else {
                (j, i)
            };
            assert(!(taken[a].class == taken[b].class && taken[a].job == taken[b].job));
        }
    }
    fresh.lemma_multiset_has_no_duplicates();
    candidates.lemma_multiset_has_no_duplicates_conv();
    assert forall|i: int, j: int| 0 <= i < j < candidates.len() implies !((
    #[trigger] candidates[i]).class == (#[trigger] candidates[j]).class && candidates[i].job
        == candidates[j].job) by {
        if candidates[i].class == candidates[j].class && candidates[i].job == candidates[j].job {
            let a = lemma_position(candidates, fresh, i);
            let b = lemma_position(candidates, fresh, j);
            if a == b {
                assert(candidates[i] == candidates[j]);
            } else if a < b {
                assert(taken[a].class == taken[b].class && taken[a].job == taken[b].job);
            } else {
                assert(taken[b].class == taken[a].class && taken[b].job == taken[a].job);
            }
        }
    }
}

/// Where an entry of one list stands in another list of the same entries.
pub(crate) proof fn lemma_position(a: Seq<ReadyEntry>, b: Seq<ReadyEntry>, k: int) -> (m: int)
    requires
        a.to_multiset() == b.to_multiset(),
        0 <= k < a.len(),
    ensures
        0 <= m < b.len(),
        b[m] == a[k],
{
    broadcast use vstd::seq_lib::group_to_multiset_ensures;

    assert(a.contains(a[k]));
    assert(a.to_multiset().contains(a[k]));
    assert(b.to_multiset().contains(a[k]));
    assert(b.contains(a[k]));
    choose|m: int| 0 <= m < b.len() && b[m] == a[k]
}

/// A candidate at its current score; a stale one keeps the score it had.
pub open spec fn rescore(
    entry: ReadyEntry,
    jobs: Map<JobId, Job>,
    accounts: Accounts,
    now: VirtualTime,
    config: CycleConfig,
) -> ReadyEntry {
    if jobs.contains_key(entry.job) {
        ReadyEntry { score: queue_score(jobs[entry.job], accounts, now, config), ..entry }
    } else {
        entry
    }
}

/// Every candidate at its current score.
pub open spec fn rescored(
    taken: Seq<ReadyEntry>,
    jobs: Map<JobId, Job>,
    accounts: Accounts,
    now: VirtualTime,
    config: CycleConfig,
) -> Seq<ReadyEntry> {
    Seq::new(taken.len(), |i: int| rescore(taken[i], jobs, accounts, now, config))
}

/// Queues, jobs and accounts while the outcome of a cycle is applied.
pub struct Tick {
    pub ready: Queues,
    pub jobs: Map<JobId, Job>,
    pub accounts: Accounts,
}

/// One candidate's disposition applied: a dispatched job runs and is charged, a
/// pending one goes back to its queue at its new score, a dropped one is gone.
pub open spec fn emit_one(
    t: Tick,
    entry: ReadyEntry,
    disposition: Disposition,
    now: VirtualTime,
    config: CycleConfig,
) -> Tick {
    match disposition {
        Disposition::Dispatched => if t.jobs.contains_key(entry.job) {
            let job = t.jobs[entry.job];
            Tick {
                jobs: moved(t.jobs, entry.job, JobState::Running),
                accounts: t.accounts.dispatched(
                    job.account,
                    job.request.cpu_millis,
                    now,
                    config.fairshare,
                ),
                ..t
            }
        } else {
            t
        },
        Disposition::Pending => Tick { ready: ready_set::with_entry(t.ready, entry), ..t },
        Disposition::Dropped => t,
    }
}

/// The first `n` candidates' dispositions applied in turn.
pub open spec fn emit_all(
    t: Tick,
    candidates: Seq<ReadyEntry>,
    disposition: Seq<Disposition>,
    n: int,
    now: VirtualTime,
    config: CycleConfig,
) -> Tick
    decreases n,
{
    if n <= 0 {
        t
    } else {
        emit_one(
            emit_all(t, candidates, disposition, n - 1, now, config),
            candidates[n - 1],
            disposition[n - 1],
            now,
            config,
        )
    }
}

/// Nothing is queued that was not queued before.
pub open spec fn shrunk(before: Queues, after: Queues) -> bool {
    &&& before.len() == after.len()
    &&& forall|c: int, id: JobId|
        0 <= c < after.len() && #[trigger] after[c].contains_key(id) ==> before[c].contains_key(id)
}

/// The candidates were taken from `queues`, each once, leaving `ready`; whatever is
/// dispatched can start.
spec fn emittable(
    queues: Queues,
    ready: Queues,
    jobs: Map<JobId, Job>,
    candidates: Seq<ReadyEntry>,
    disposition: Seq<Disposition>,
) -> bool {
    &&& queues.len() == PriorityClass::COUNT
    &&& starts(candidates, disposition, jobs)
    &&& shrunk(queues, ready)
    &&& forall|c: int| 0 <= c < queues.len() ==> ready_set::one_per_index(#[trigger] queues[c])
    &&& forall|c: int, id: JobId|
        0 <= c < queues.len() && #[trigger] queues[c].contains_key(id) ==> id.idx() < u32::MAX
    &&& forall|k: int|
        0 <= k < candidates.len() ==> {
            let entry = #[trigger] candidates[k];
            &&& queues[entry.class.rank() as int].contains_key(entry.job)
            &&& !ready[entry.class.rank() as int].contains_key(entry.job)
        }
    &&& forall|i: int, j: int|
        0 <= i < j < candidates.len() ==> !((#[trigger] candidates[i]).class == (
        #[trigger] candidates[j]).class && candidates[i].job == candidates[j].job)
}

/// The candidates from `n` on are still out of the queues, and the jobs of those
/// to be dispatched as they were.
spec fn rest_untouched(
    ready: Queues,
    before: Map<JobId, Job>,
    after: Map<JobId, Job>,
    candidates: Seq<ReadyEntry>,
    disposition: Seq<Disposition>,
    n: int,
) -> bool {
    forall|k: int|
        n <= k < candidates.len() ==> {
            let entry = #[trigger] candidates[k];
            &&& !ready[entry.class.rank() as int].contains_key(entry.job)
            &&& disposition[k] is Dispatched && before.contains_key(entry.job)
                ==> after[entry.job] == before[entry.job]
        }
}

/// A candidate that was taken from a queue can go back to it.
proof fn lemma_place_to_return(queues: Queues, ready: Queues, entry: ReadyEntry)
    requires
        queues.len() == PriorityClass::COUNT,
        shrunk(queues, ready),
        ready_set::one_per_index(queues[entry.class.rank() as int]),
        queues[entry.class.rank() as int].contains_key(entry.job),
    ensures
        ready_set::index_free_for(ready[entry.class.rank() as int], entry.job),
{
    crate::domain::job::law_rank_determines_class(entry.class, entry.class);
    let class = entry.class.rank() as int;
    let (now, was) = (ready[class], queues[class]);
    assert forall|other: JobId| #[trigger] now.contains_key(other) && other.idx()
        == entry.job.idx() implies other == entry.job by {
        assert(was.contains_key(other) && was.contains_key(entry.job));
    }
}

/// Applying one more disposition keeps what the rest of the pass relies on.
proof fn lemma_emit_step(
    queues: Queues,
    ready: Queues,
    jobs: Map<JobId, Job>,
    candidates: Seq<ReadyEntry>,
    disposition: Seq<Disposition>,
    t: Tick,
    i: int,
    now: VirtualTime,
    config: CycleConfig,
)
    requires
        emittable(queues, ready, jobs, candidates, disposition),
        0 <= i < candidates.len(),
        t.jobs.dom() == jobs.dom(),
        shrunk(queues, t.ready),
        rest_untouched(t.ready, jobs, t.jobs, candidates, disposition, i),
    ensures
        ({
            let next = emit_one(t, candidates[i], disposition[i], now, config);
            &&& next.jobs.dom() == jobs.dom()
            &&& shrunk(queues, next.ready)
            &&& rest_untouched(next.ready, jobs, next.jobs, candidates, disposition, i + 1)
        }),
{
    let entry = candidates[i];
    let class = entry.class.rank() as int;
    crate::domain::job::law_rank_determines_class(entry.class, entry.class);
    let next = emit_one(t, entry, disposition[i], now, config);
    assert(next.jobs.dom() =~= jobs.dom());
    assert forall|c: int, id: JobId|
        0 <= c < next.ready.len() && #[trigger] next.ready[c].contains_key(
            id,
        ) implies queues[c].contains_key(id) by {
        if t.ready[c].contains_key(id) {
        }
    }
    assert forall|k: int| i + 1 <= k < candidates.len() implies ({
        let other = #[trigger] candidates[k];
        &&& !next.ready[other.class.rank() as int].contains_key(other.job)
        &&& disposition[k] is Dispatched && jobs.contains_key(other.job)
            ==> next.jobs[other.job] == jobs[other.job]
    }) by {
        let other = candidates[k];
        crate::domain::job::law_rank_determines_class(entry.class, other.class);
        assert(queues[other.class.rank() as int].contains_key(other.job));
        assert(queues[class].contains_key(entry.job));
        assert(!(candidates[i].class == candidates[k].class && candidates[i].job
            == candidates[k].job));
    }
}

/// Promoting the first of a list leaves the rest as queueable as they were.
proof fn lemma_promotion_keeps_room(
    p: Progress,
    end: Progress,
    ids: Seq<JobId>,
    accounts: Accounts,
    now: VirtualTime,
    config: CycleConfig,
)
    requires
        p.ready.len() == PriorityClass::COUNT,
        ids.len() > 0,
        end == promote_one(p, ids[0], accounts, now, config),
        can_queue_all(p.ready, p.jobs, ids),
        forall|a: JobId, b: JobId|
            #[trigger] p.jobs.contains_key(a) && #[trigger] p.jobs.contains_key(b) && a.idx()
                == b.idx() ==> a == b,
    ensures
        can_queue_all(end.ready, end.jobs, ids.drop_first()),
{
    let rest = ids.drop_first();
    assert forall|k: int|
        0 <= k < rest.len() && end.jobs.contains_key(#[trigger] rest[k]) implies can_queue(
        end.ready,
        rest[k],
        end.jobs[rest[k]],
    ) by {
        let id = rest[k];
        assert(id == ids[k + 1]);
        assert(p.jobs.contains_key(id));
        let class = p.jobs[id].priority_class;
        crate::domain::job::law_rank_determines_class(class, class);
        let (was, now) = (p.ready[class.rank() as int], end.ready[class.rank() as int]);
        assert forall|other: JobId| #[trigger] now.contains_key(other) && other.idx()
            == id.idx() implies other == id by {
            if !was.contains_key(other) {
                assert(other == ids[0]);
            }
        }
    }
}

/// Cancelling takes jobs out of the queues and changes no handle: whatever the
/// queues were fit for, they are fit for afterwards.
proof fn lemma_cancel_one_keeps(p: Progress, id: JobId)
    requires
        p.ready.len() == PriorityClass::COUNT,
    ensures
        cancel_one(p, id).ready.len() == PriorityClass::COUNT,
        cancel_one(p, id).jobs.dom() == p.jobs.dom(),
        unshadowed(p.ready, p.jobs) ==> unshadowed(cancel_one(p, id).ready, cancel_one(p, id).jobs),
        queued_ready(p.ready, p.jobs) ==> queued_ready(
            cancel_one(p, id).ready,
            cancel_one(p, id).jobs,
        ),
{
    let end = cancel_one(p, id);
    assert(end.jobs.dom() =~= p.jobs.dom());
    if p.jobs.contains_key(id) {
        let class = p.jobs[id].priority_class;
        crate::domain::job::law_rank_determines_class(class, class);
    }
    assert forall|c: int, j: JobId| 0 <= c < end.ready.len() && #[trigger] end.ready[c].contains_key(
        j,
    ) implies p.ready[c].contains_key(j) by {}
    assert(p.jobs.dom() == end.jobs.dom());
    assert forall|j: JobId| #[trigger] end.jobs.contains_key(j) == p.jobs.contains_key(j) by {
        assert(end.jobs.dom().contains(j) == p.jobs.dom().contains(j));
    }
}

proof fn lemma_cancel_all_keeps(p: Progress, ids: Seq<JobId>)
    requires
        p.ready.len() == PriorityClass::COUNT,
    ensures
        cancel_all(p, ids).ready.len() == PriorityClass::COUNT,
        cancel_all(p, ids).jobs.dom() == p.jobs.dom(),
        unshadowed(p.ready, p.jobs) ==> unshadowed(
            cancel_all(p, ids).ready,
            cancel_all(p, ids).jobs,
        ),
        queued_ready(p.ready, p.jobs) ==> queued_ready(
            cancel_all(p, ids).ready,
            cancel_all(p, ids).jobs,
        ),
    decreases ids.len(),
{
    if ids.len() > 0 {
        lemma_cancel_all_keeps(p, ids.drop_last());
        lemma_cancel_one_keeps(cancel_all(p, ids.drop_last()), ids.last());
    }
}

/// The accounts once `job` no longer holds its cpu.
pub open spec fn released_by(
    accounts: Accounts,
    job: Job,
    now: VirtualTime,
    config: CycleConfig,
) -> Accounts {
    accounts.released(job.account, job.request.cpu_millis, now, config.fairshare)
}

/// The eviction count after one more, which stops at the top of its range.
pub open spec fn one_more(count: u8) -> u8 {
    if count == u8::MAX {
        u8::MAX
    } else {
        (count + 1) as u8
    }
}

/// How the report of an eviction is answered.
pub open spec fn preempted_verdict(id: JobId, jobs: Map<JobId, Job>) -> Result<
    (),
    LifecycleError,
> {
    if !jobs.contains_key(id) {
        Err(LifecycleError::UnknownJob(id))
    } else if !(jobs[id].state is Preempted) {
        Err(
            LifecycleError::Transition(
                TransitionError { from: jobs[id].state, to: JobState::Ready },
            ),
        )
    } else {
        Ok(())
    }
}

/// How a submit is answered, and the state the job enters.
pub open spec fn entry_verdict(id: JobId, jobs: Map<JobId, Job>) -> Result<
    JobState,
    LifecycleError,
> {
    if !jobs.contains_key(id) {
        Err(LifecycleError::UnknownJob(id))
    } else if !(jobs[id].state is Submitted) {
        Err(LifecycleError::NotSubmitted { job: id, state: jobs[id].state })
    } else {
        match submit_verdict(id, jobs[id], jobs) {
            Ok(readiness) => Ok(state_for(readiness)),
            Err(error) => Err(error),
        }
    }
}

/// The scheduler after a submit: an account in range gets its ledger even when a
/// dependency is refused; a job that is not doomed is watched; a ready one queued.
pub open spec fn after_submit(
    st: State,
    id: JobId,
    jobs: Map<JobId, Job>,
    now: VirtualTime,
    config: CycleConfig,
) -> State {
    if !jobs.contains_key(id) || !(jobs[id].state is Submitted) || jobs[id].account@
        >= MAX_ACCOUNTS {
        st
    } else {
        let job = jobs[id];
        let accounts = st.accounts.grown((job.account@ + 1) as nat);
        match submit_verdict(id, job, jobs) {
            Ok(readiness) => State {
                accounts,
                watch: if readiness is Cancelled {
                    st.watch
                } else {
                    eligibility::registered(st.watch, id, jobs, job.deps@)
                },
                ready: if readiness is Ready {
                    ready_set::with_entry(
                        st.ready,
                        queue_entry(id, job, accounts, now, config),
                    )
                } else {
                    st.ready
                },
            },
            Err(_) => State { accounts, ..st },
        }
    }
}

/// How a requeue is answered: only a job that holds a slot can be put back.
pub open spec fn requeue_verdict(id: JobId, jobs: Map<JobId, Job>) -> Result<(), LifecycleError> {
    if !jobs.contains_key(id) {
        Err(LifecycleError::UnknownJob(id))
    } else if !(jobs[id].state is Running || jobs[id].state is Preempted) {
        Err(
            LifecycleError::Transition(
                TransitionError { from: jobs[id].state, to: JobState::Ready },
            ),
        )
    } else {
        Ok(())
    }
}

/// How a submit is answered for a job whose state allows one: the account must
/// be in range, and then the dependencies decide.
pub open spec fn submit_verdict(id: JobId, job: Job, jobs: Map<JobId, Job>) -> Result<
    Readiness,
    LifecycleError,
> {
    if job.account@ >= MAX_ACCOUNTS {
        Err(LifecycleError::Account(AccountError(job.account)))
    } else {
        match eligibility::classification(id, jobs, job.deps@, 0) {
            Ok(readiness) => Ok(readiness),
            Err(error) => Err(LifecycleError::Dependency(error)),
        }
    }
}

/// How a call is answered that moves a live job along one edge.
pub open spec fn move_verdict(id: JobId, jobs: Map<JobId, Job>, next: JobState) -> Result<
    (),
    LifecycleError,
> {
    if !jobs.contains_key(id) {
        Err(LifecycleError::UnknownJob(id))
    } else if !jobs[id].state.has_edge(next) {
        Err(LifecycleError::Transition(TransitionError { from: jobs[id].state, to: next }))
    } else {
        Ok(())
    }
}

/// The jobs with one of them in another state.
pub open spec fn moved(jobs: Map<JobId, Job>, id: JobId, next: JobState) -> Map<JobId, Job> {
    jobs.insert(id, jobs[id].in_state(next))
}

impl Clone for Scheduler {
    fn clone(&self) -> (copy: Self)
        ensures
            self.wf() ==> copy@ == self@ && copy.wf(),
    {
        Scheduler {
            ready: self.ready.clone(),
            deps: self.deps.clone(),
            fairshare: self.fairshare.clone(),
            candidates: self.candidates.clone(),
            disposition: self.disposition.clone(),
            backfill_scratch: self.backfill_scratch.clone(),
        }
    }
}

impl Default for Scheduler {
    fn default() -> (scheduler: Self)
        ensures
            scheduler.wf(),
            scheduler@.ready.len() == PriorityClass::COUNT,
            ready_set::nothing_queued(scheduler@.ready),
            scheduler@.watch == Watch::empty(),
            scheduler@.accounts.ledgers == Seq::<fairshare::LedgerView>::empty(),
            scheduler@.accounts.factors == Seq::<u64>::empty(),
    {
        Scheduler::new()
    }
}

} // verus!

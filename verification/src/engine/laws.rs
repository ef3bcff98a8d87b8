//! What the lifecycle calls and the cycle promise together.
use crate::cluster::slot;
use crate::cluster::WorkerSlot;
use crate::domain::{Arena, Job, JobId, JobState, PriorityClass, TransitionError, VirtualTime};
use crate::engine::cycle;
use crate::engine::cycle::{CycleConfig, LifecycleError, Progress, Scheduler, State, Tick};
use crate::policy::backfill;
use crate::policy::backfill::RunningJob;
use crate::policy::dag;
use crate::policy::eligibility;
use crate::policy::eligibility::{Readiness, Watch};
use crate::policy::fairshare;
use crate::policy::fairshare::{AccountError, Accounts, MAX_ACCOUNTS};
use crate::policy::pack;
use crate::policy::pack::Disposition;
use crate::policy::priority;
use crate::policy::ready_set;
use crate::policy::ready_set::{Queues, ReadyEntry};
use vstd::prelude::*;

verus! {

/// A check before the job is in the arena says exactly how submitting it right
/// after will be answered.
pub proof fn law_check_predicts_submit(id: JobId, job: Job, jobs: Map<JobId, Job>)
    requires
        !jobs.contains_key(id),
        job.state is Submitted,
    ensures
        cycle::entry_verdict(id, jobs.insert(id, job)) == (match cycle::submit_verdict(
            id,
            job,
            jobs,
        ) {
            Ok(readiness) => Ok(cycle::state_for(readiness)),
            Err(error) => Err(error),
        }),
{
    lemma_classification_ignores_itself(id, job, jobs, job.deps@, 0);
}

proof fn lemma_classification_ignores_itself(
    id: JobId,
    job: Job,
    jobs: Map<JobId, Job>,
    deps: Seq<JobId>,
    i: int,
)
    requires
        !jobs.contains_key(id),
        0 <= i <= deps.len(),
        forall|k: int| 0 <= k < i ==> #[trigger] deps[k] != id,
    ensures
        eligibility::classification(id, jobs.insert(id, job), deps, i)
            == eligibility::classification(id, jobs, deps, i),
    decreases deps.len() - i,
{
    let with = jobs.insert(id, job);
    if i < deps.len() {
        if deps[i] != id {
            lemma_classification_ignores_itself(id, job, jobs, deps, i + 1);
        }
    } else {
        lemma_pending_ignores(id, job, jobs, deps, i);
    }
}

proof fn lemma_pending_ignores(
    id: JobId,
    job: Job,
    jobs: Map<JobId, Job>,
    deps: Seq<JobId>,
    n: int,
)
    requires
        0 <= n <= deps.len(),
        forall|k: int| 0 <= k < n ==> #[trigger] deps[k] != id,
    ensures
        eligibility::pending_count(jobs.insert(id, job), deps, n) == eligibility::pending_count(
            jobs,
            deps,
            n,
        ),
    decreases n,
{
    if n > 0 {
        lemma_pending_ignores(id, job, jobs, deps, n - 1);
        assert(deps[n - 1] != id);
    }
}

/// A job that has ended refuses every further call: it is moved nowhere, neither
/// requeued nor resubmitted.
pub proof fn law_ended_jobs_refuse_every_call(id: JobId, jobs: Map<JobId, Job>, next: JobState)
    requires
        jobs.contains_key(id),
        jobs[id].state.terminal(),
    ensures
        cycle::move_verdict(id, jobs, next) is Err,
        cycle::requeue_verdict(id, jobs) is Err,
        cycle::preempted_verdict(id, jobs) is Err,
        cycle::entry_verdict(id, jobs) is Err,
{
}

/// Replaying a dispatch twice is refused: a job that runs is not ready.
pub proof fn law_running_is_restored_once(id: JobId, jobs: Map<JobId, Job>)
    requires
        cycle::move_verdict(id, jobs, JobState::Running) is Ok,
    ensures
        cycle::move_verdict(
            id,
            cycle::moved(jobs, id, JobState::Running),
            JobState::Running,
        ) is Err,
{
}

/// Replaying a dispatch has the effect of the dispatch: the job leaves its queue,
/// runs, and its account is charged from then on.
pub proof fn law_replay_is_a_dispatch(
    ready: Queues,
    jobs: Map<JobId, Job>,
    accounts: Accounts,
    entry: ReadyEntry,
    now: VirtualTime,
    config: CycleConfig,
)
    requires
        jobs.contains_key(entry.job),
        jobs[entry.job].state is Ready,
        jobs[entry.job].priority_class == entry.class,
    ensures
        cycle::move_verdict(entry.job, jobs, JobState::Running) is Ok,
        ({
            let job = jobs[entry.job];
            cycle::emit_one(
                Tick { ready: ready_set::without(ready, entry), jobs, accounts },
                entry,
                Disposition::Dispatched,
                now,
                config,
            ) == (Tick {
                ready: cycle::dequeued(ready, entry.job, job),
                jobs: cycle::moved(jobs, entry.job, JobState::Running),
                accounts: accounts.dispatched(
                    job.account,
                    job.request.cpu_millis,
                    now,
                    config.fairshare,
                ),
            })
        }),
{
}

/// A scheduler that holds no stale handle goes on serving its arena when a new
/// job arrives there.
pub proof fn law_arrival_keeps_serving(
    scheduler: Scheduler,
    jobs: Arena<Job>,
    after: Arena<Job>,
    job: Job,
)
    requires
        jobs.wf(),
        jobs.has_room(),
        scheduler.serves(&jobs),
        forall|c: int, id: JobId|
            0 <= c < scheduler@.ready.len() && #[trigger] scheduler@.ready[c].contains_key(id)
                ==> jobs@.contains_key(id),
        after@ == jobs@.insert(jobs.next_handle(), job),
        after.states().len() <= u32::MAX,
    ensures
        scheduler.serves(&after),
{
    jobs.lemma_next_index_is_free();
}

/// What promoting a list of distinct blocked jobs does to the jobs.
proof fn lemma_promote_all(
    p: Progress,
    ids: Seq<JobId>,
    accounts: Accounts,
    now: VirtualTime,
    config: CycleConfig,
)
    requires
        ids.no_duplicates(),
        forall|k: int|
            0 <= k < ids.len() ==> p.jobs.contains_key(#[trigger] ids[k])
                && p.jobs[ids[k]].state is Blocked,
    ensures
        ({
            let end = cycle::promote_all(p, ids, accounts, now, config);
            &&& end.jobs.dom() == p.jobs.dom()
            &&& forall|j: JobId| #[trigger]
                end.jobs.contains_key(j) ==> end.jobs[j] == if ids.contains(j) {
                    p.jobs[j].in_state(JobState::Ready)
                } else {
                    p.jobs[j]
                }
        }),
    decreases ids.len(),
{
    let end = cycle::promote_all(p, ids, accounts, now, config);
    if ids.len() > 0 {
        let rest = ids.drop_last();
        let last = ids.last();
        let before = cycle::promote_all(p, rest, accounts, now, config);
        assert(rest.no_duplicates());
        assert forall|k: int| 0 <= k < rest.len() implies p.jobs.contains_key(#[trigger] rest[k])
            && p.jobs[rest[k]].state is Blocked by {
            assert(rest[k] == ids[k]);
        }
        lemma_promote_all(p, rest, accounts, now, config);
        assert(ids[ids.len() - 1] == last);
        assert(!rest.contains(last));
        assert(before.jobs.dom().contains(last) == p.jobs.dom().contains(last));
        assert(before.jobs.contains_key(last));
        assert(end.jobs.dom() =~= p.jobs.dom());
        assert forall|j: JobId| ids.contains(j) == (rest.contains(j) || j == last) by {
            if rest.contains(j) {
                let k = choose|k: int| 0 <= k < rest.len() && rest[k] == j;
                assert(ids[k] == j);
            }
            if ids.contains(j) {
                let k = choose|k: int| 0 <= k < ids.len() && ids[k] == j;
                if k < rest.len() {
                    assert(rest[k] == j);
                }
            }
        }
        assert forall|j: JobId| #[trigger] end.jobs.contains_key(j) implies end.jobs[j] == (
        if ids.contains(j) {
            p.jobs[j].in_state(JobState::Ready)
        } else {
            p.jobs[j]
        }) by {
            assert(end.jobs.dom().contains(j) && before.jobs.dom().contains(j));
            assert(before.jobs.contains_key(j));
        }
    }
}

/// Reporting a completion promotes exactly the jobs that a scan of every blocked
/// job would find with nothing left to wait for; each becomes `Ready`, no other
/// job changes, and tracker and jobs stay in sync.
pub proof fn law_completion_promotes_what_a_scan_would(
    st: State,
    jobs: Map<JobId, Job>,
    id: JobId,
    accounts: Accounts,
    now: VirtualTime,
    config: CycleConfig,
)
    requires
        dag::in_sync(st.watch, jobs),
        cycle::move_verdict(id, jobs, JobState::Completed) is Ok,
    ensures
        ({
            let done = cycle::moved(jobs, id, JobState::Completed);
            let settled = eligibility::completion(st.watch, id);
            let end = cycle::promote_all(
                Progress { ready: st.ready, jobs: done },
                settled.promoted,
                accounts,
                now,
                config,
            );
            &&& forall|j: JobId| #[trigger]
                settled.promoted.contains(j) <==> dag::scan_wakes(done, j)
            &&& dag::completed_and_woken(jobs, id, settled.promoted, end.jobs)
            &&& dag::in_sync(settled.watch, end.jobs)
        }),
{
    let done = cycle::moved(jobs, id, JobState::Completed);
    let settled = eligibility::completion(st.watch, id);
    let start = Progress { ready: st.ready, jobs: done };
    let end = cycle::promote_all(start, settled.promoted, accounts, now, config);
    dag::law_completion_wakes_what_a_scan_would(st.watch, jobs, id);
    assert forall|k: int| 0 <= k < settled.promoted.len() implies done.contains_key(
        #[trigger] settled.promoted[k],
    ) && done[settled.promoted[k]].state is Blocked by {
        assert(settled.promoted.contains(settled.promoted[k]));
        assert(dag::scan_wakes(done, settled.promoted[k]));
    }
    lemma_promote_all(start, settled.promoted, accounts, now, config);
    assert(!settled.promoted.contains(id)) by {
        if settled.promoted.contains(id) {
            assert(dag::scan_wakes(done, id));
        }
    }
    assert(end.jobs.dom() =~= jobs.dom());
    dag::law_completion_keeps_sync(st.watch, jobs, id, end.jobs);
}

/// What sweeping up a list of open jobs does to the jobs.
proof fn lemma_cancel_all(p: Progress, ids: Seq<JobId>)
    requires
        forall|k: int|
            0 <= k < ids.len() ==> p.jobs.contains_key(#[trigger] ids[k])
                && !p.jobs[ids[k]].state.terminal(),
    ensures
        ({
            let end = cycle::cancel_all(p, ids);
            &&& end.jobs.dom() == p.jobs.dom()
            &&& forall|j: JobId| #[trigger]
                end.jobs.contains_key(j) ==> end.jobs[j] == if ids.contains(j) {
                    p.jobs[j].in_state(JobState::Cancelled)
                } else {
                    p.jobs[j]
                }
        }),
    decreases ids.len(),
{
    let end = cycle::cancel_all(p, ids);
    if ids.len() > 0 {
        let rest = ids.drop_last();
        let last = ids.last();
        let before = cycle::cancel_all(p, rest);
        assert forall|k: int| 0 <= k < rest.len() implies p.jobs.contains_key(#[trigger] rest[k])
            && !p.jobs[rest[k]].state.terminal() by {
            assert(rest[k] == ids[k]);
        }
        lemma_cancel_all(p, rest);
        assert(ids[ids.len() - 1] == last);
        assert(before.jobs.dom().contains(last) == p.jobs.dom().contains(last));
        assert(before.jobs.contains_key(last));
        assert(end.jobs.dom() =~= p.jobs.dom());
        assert forall|j: JobId| ids.contains(j) == (rest.contains(j) || j == last) by {
            if rest.contains(j) {
                let k = choose|k: int| 0 <= k < rest.len() && rest[k] == j;
                assert(ids[k] == j);
            }
            if ids.contains(j) {
                let k = choose|k: int| 0 <= k < ids.len() && ids[k] == j;
                if k < rest.len() {
                    assert(rest[k] == j);
                }
            }
        }
        assert forall|j: JobId| #[trigger] end.jobs.contains_key(j) implies end.jobs[j] == (
        if ids.contains(j) {
            p.jobs[j].in_state(JobState::Cancelled)
        } else {
            p.jobs[j]
        }) by {
            assert(end.jobs.dom().contains(j) && before.jobs.dom().contains(j));
            assert(before.jobs.contains_key(j));
        }
    }
}

/// A job that fails or is cancelled takes every job with it that depends on it,
/// however indirectly, and no other; tracker and jobs stay in sync.
pub proof fn law_ending_badly_cancels_the_dependents(
    st: State,
    jobs: Map<JobId, Job>,
    id: JobId,
    next: JobState,
)
    requires
        dag::in_sync(st.watch, jobs),
        next is Failed || next is Cancelled,
        cycle::move_verdict(id, jobs, next) is Ok,
    ensures
        ({
            let gone = eligibility::cascade_of(st.watch, id);
            let end = cycle::cancel_all(
                Progress { ready: st.ready, jobs: cycle::moved(jobs, id, next) },
                gone,
            );
            &&& forall|j: JobId| #[trigger]
                gone.contains(j) <==> j != id && dag::depends_on(st.watch, j, id)
            &&& dag::ended_and_cancelled(jobs, id, gone, end.jobs)
            &&& dag::in_sync(eligibility::without_cascade(st.watch, id), end.jobs)
        }),
{
    let gone = eligibility::cascade_of(st.watch, id);
    let start = Progress { ready: st.ready, jobs: cycle::moved(jobs, id, next) };
    let end = cycle::cancel_all(start, gone);
    dag::law_cascade_is_the_transitive_dependents(st.watch, id);
    assert forall|k: int| 0 <= k < gone.len() implies start.jobs.contains_key(#[trigger] gone[k])
        && !start.jobs[gone[k]].state.terminal() by {
        let j = gone[k];
        assert(gone.contains(j));
        assert(dag::depends_on(st.watch, j, id));
        let chain = choose|chain: Seq<JobId>| #[trigger]
            dag::is_chain(st.watch, chain) && chain[0] == id && chain.last() == j;
        assert(eligibility::watched(st.watch, chain[chain.len() - 1]));
    }
    lemma_cancel_all(start, gone);
    assert(end.jobs.dom() =~= jobs.dom());
    dag::law_cascade_keeps_sync(st.watch, jobs, id, end.jobs);
}

/// A handle that is new to tracker and jobs alike: no job has it, names it, or
/// waits under it.
pub open spec fn unheard_of(watch: Watch, jobs: Map<JobId, Job>, id: JobId) -> bool {
    &&& !jobs.contains_key(id)
    &&& forall|j: JobId| #[trigger] jobs.contains_key(j) ==> !jobs[j].deps@.contains(id)
    &&& forall|d: JobId| !(#[trigger] dag::waiting_on(watch, d)).contains(id)
}

/// A new job arriving in the arena keeps tracker and jobs in sync.
pub proof fn law_arrival_keeps_sync(watch: Watch, jobs: Map<JobId, Job>, id: JobId, job: Job)
    requires
        dag::in_sync(watch, jobs),
        unheard_of(watch, jobs, id),
        job.state is Submitted,
    ensures
        dag::in_sync(watch, jobs.insert(id, job)),
        !eligibility::watched(watch, id),
{
    let after = jobs.insert(id, job);
    assert(!eligibility::watched(watch, id)) by {
        if eligibility::watched(watch, id) {
            assert(eligibility::pending(jobs, id));
        }
    }
    assert forall|j: JobId| #[trigger]
        after.contains_key(j) && after[j].state is Blocked implies dag::counted_right(
        watch,
        after,
        j,
    ) by {
        assert(jobs.contains_key(j) && dag::counted_right(watch, jobs, j));
        let deps = jobs[j].deps@;
        assert forall|k: int| 0 <= k < deps.len() implies eligibility::pending(
            after,
            #[trigger] deps[k],
        ) == eligibility::pending(jobs, deps[k]) by {
            assert(deps.contains(deps[k]));
        }
        dag::lemma_same_open(jobs, after, deps, deps.len() as int);
        assert forall|d: JobId| #[trigger] eligibility::pending(after, d) implies dag::occurrences(
            deps,
            d,
        ) == dag::occurrences(dag::waiting_on(watch, d), j) by {
            if d == id {
                dag::lemma_occurs_iff_contained(deps, id);
                assert(dag::waiting_on(watch, id) =~= Seq::<JobId>::empty());
            } else {
                assert(eligibility::pending(jobs, d));
            }
        }
    }
    assert forall|j: JobId| #[trigger] eligibility::watched(watch, j) implies eligibility::pending(
        after,
        j,
    ) && (after[j].state is Blocked || watch[j.idx()].unsatisfied == 0) by {
        assert(eligibility::pending(jobs, j));
    }
    assert forall|d: JobId, j: JobId| #[trigger]
        dag::occurrences(dag::waiting_on(watch, d), j) > 0 && after.contains_key(j) implies !(
    after[j].state is Submitted) by {
        dag::lemma_occurs_iff_contained(dag::waiting_on(watch, d), j);
        assert(!dag::waiting_on(watch, d).contains(id));
        assert(jobs.contains_key(j));
    }
}

/// Removing a job that has ended from the arena keeps tracker and jobs in sync.
pub proof fn law_removal_keeps_sync(watch: Watch, jobs: Map<JobId, Job>, id: JobId)
    requires
        dag::in_sync(watch, jobs),
        jobs.contains_key(id) ==> jobs[id].state.terminal(),
    ensures
        dag::in_sync(watch, jobs.remove(id)),
{
    let after = jobs.remove(id);
    assert forall|d: JobId| #[trigger] eligibility::pending(after, d) == eligibility::pending(
        jobs,
        d,
    ) by {}
    assert forall|j: JobId| #[trigger]
        after.contains_key(j) && after[j].state is Blocked implies dag::counted_right(
        watch,
        after,
        j,
    ) by {
        assert(jobs.contains_key(j) && dag::counted_right(watch, jobs, j));
        let deps = jobs[j].deps@;
        dag::lemma_same_open(jobs, after, deps, deps.len() as int);
        assert forall|d: JobId| #[trigger] eligibility::pending(after, d) implies dag::occurrences(
            deps,
            d,
        ) == dag::occurrences(dag::waiting_on(watch, d), j) by {
            assert(eligibility::pending(jobs, d));
        }
    }
    assert forall|j: JobId| #[trigger] eligibility::watched(watch, j) implies eligibility::pending(
        after,
        j,
    ) && (after[j].state is Blocked || watch[j.idx()].unsatisfied == 0) by {
        assert(eligibility::pending(jobs, j));
    }
    assert forall|d: JobId, j: JobId| #[trigger]
        dag::occurrences(dag::waiting_on(watch, d), j) > 0 && after.contains_key(j) implies !(
    after[j].state is Submitted) by {
        assert(jobs.contains_key(j));
    }
}

/// Submitting a job that nobody has been made to wait for keeps tracker and jobs
/// in sync, however the submit is answered.
pub proof fn law_submit_keeps_sync(
    st: State,
    jobs: Map<JobId, Job>,
    id: JobId,
    now: VirtualTime,
    config: CycleConfig,
)
    requires
        dag::in_sync(st.watch, jobs),
        dag::one_live_per_index(jobs),
        jobs.contains_key(id) ==> jobs[id].deps@.len() <= u32::MAX,
        !eligibility::watched(st.watch, id),
    ensures
        dag::in_sync(
            cycle::after_submit(st, id, jobs, now, config).watch,
            match cycle::entry_verdict(id, jobs) {
                Ok(next) => cycle::moved(jobs, id, next),
                Err(_) => jobs,
            },
        ),
{
    if jobs.contains_key(id) && jobs[id].state is Submitted && jobs[id].account@ < MAX_ACCOUNTS {
        let readiness = eligibility::classification(id, jobs, jobs[id].deps@, 0);
        if let Ok(r) = readiness {
            if !(r is Cancelled) {
                dag::law_registration_keeps_sync(st.watch, jobs, id);
            } else {
                lemma_doomed_keeps_sync(st.watch, jobs, id);
            }
        }
    }
}

proof fn lemma_doomed_keeps_sync(watch: Watch, jobs: Map<JobId, Job>, id: JobId)
    requires
        dag::in_sync(watch, jobs),
        jobs.contains_key(id),
        jobs[id].state is Submitted,
        !eligibility::watched(watch, id),
    ensures
        dag::in_sync(watch, cycle::moved(jobs, id, JobState::Cancelled)),
{
    let after = cycle::moved(jobs, id, JobState::Cancelled);
    assert(eligibility::pending(jobs, id));
    assert forall|j: JobId| #[trigger]
        after.contains_key(j) && after[j].state is Blocked implies dag::counted_right(
        watch,
        after,
        j,
    ) by {
        assert(jobs.contains_key(j) && dag::counted_right(watch, jobs, j));
        let deps = jobs[j].deps@;
        // Nobody waits for the job, so nobody blocked names it.
        assert(dag::waiting_on(watch, id) =~= Seq::<JobId>::empty());
        assert(dag::occurrences(deps, id) == 0);
        dag::lemma_occurs_iff_contained(deps, id);
        assert forall|k: int| 0 <= k < deps.len() implies eligibility::pending(
            after,
            #[trigger] deps[k],
        ) == eligibility::pending(jobs, deps[k]) by {
            assert(deps.contains(deps[k]));
        }
        dag::lemma_same_open(jobs, after, deps, deps.len() as int);
        assert forall|d: JobId| #[trigger] eligibility::pending(after, d) implies dag::occurrences(
            deps,
            d,
        ) == dag::occurrences(dag::waiting_on(watch, d), j) by {
            assert(eligibility::pending(jobs, d));
        }
    }
    assert forall|j: JobId| #[trigger] eligibility::watched(watch, j) implies eligibility::pending(
        after,
        j,
    ) && (after[j].state is Blocked || watch[j.idx()].unsatisfied == 0) by {
        assert(eligibility::pending(jobs, j));
    }
    assert forall|d: JobId, j: JobId| #[trigger]
        dag::occurrences(dag::waiting_on(watch, d), j) > 0 && after.contains_key(j) implies !(
    after[j].state is Submitted) by {
        assert(jobs.contains_key(j));
    }
}

/// The queues of a scheduler, as far as a cycle relies on them: one per class,
/// each finite, with every live job in them ready in its class.
pub open spec fn cycle_ready(ready: Queues, jobs: Map<JobId, Job>) -> bool {
    &&& ready.len() == PriorityClass::COUNT
    &&& forall|c: int| 0 <= c < ready.len() ==> (#[trigger] ready[c]).dom().finite()
    &&& cycle::queued_ready(ready, jobs)
}

/// While no slot holds more than it declares, whatever a cycle tries to place can
/// be charged.
pub proof fn law_cycle_lands_on_sound_slots(
    ready: Queues,
    jobs: Map<JobId, Job>,
    accounts: Accounts,
    slots: Seq<WorkerSlot>,
    running: Seq<RunningJob>,
    now: VirtualTime,
    config: CycleConfig,
)
    requires
        cycle_ready(ready, jobs),
        slot::within_capacity(slots),
        slots.len() <= slot::SLOT_SPACE,
    ensures
        cycle::cycle_lands(ready, jobs, accounts, slots, running, now, config),
{
    let candidates = cycle::candidates_of(ready, jobs, accounts, now, config);
    let pending = cycle::all_pending(candidates.len());
    let packed = cycle::packed_by(candidates, jobs, slots, config);
    pack::law_pack_lands_on_sound_slots(candidates, jobs, config.budget, slots, pending);
    law_candidates_are_queued(ready, jobs, accounts, now, config);
    pack::lemma_pack(
        candidates,
        jobs,
        config.budget,
        0,
        pack::pack_start(slots, pending),
    );
    if let Some(head) = packed.outcome.head {
        backfill::law_backfill_lands_on_sound_slots(
            candidates,
            head as int,
            jobs,
            packed.slots,
            running,
            now,
            config.budget,
            packed.disposition,
        );
    }
}

/// The candidates of a cycle are queued jobs, each once, in falling order of class
/// and score.
pub proof fn law_candidates_are_queued(
    ready: Queues,
    jobs: Map<JobId, Job>,
    accounts: Accounts,
    now: VirtualTime,
    config: CycleConfig,
)
    requires
        cycle_ready(ready, jobs),
    ensures
        ({
            let candidates = cycle::candidates_of(ready, jobs, accounts, now, config);
            let left = ready_set::after_taking(
                ready,
                ready_set::drained(ready, config.max_candidates as int),
            );
            &&& candidates.len() <= config.max_candidates
            &&& forall|k: int|
                0 <= k < candidates.len() ==> {
                    let entry = #[trigger] candidates[k];
                    &&& ready[entry.class.rank() as int].contains_key(entry.job)
                    &&& !left[entry.class.rank() as int].contains_key(entry.job)
                }
            &&& forall|i: int, j: int|
                0 <= i < j < candidates.len() ==> !((#[trigger] candidates[i]).class == (
                #[trigger] candidates[j]).class && candidates[i].job == candidates[j].job)
            &&& forall|i: int, j: int|
                0 <= i < j < candidates.len() ==> ready_set::outranks(
                    #[trigger] candidates[i],
                    #[trigger] candidates[j],
                )
            &&& cycle::shrunk(ready, left)
            &&& candidates.len() < config.max_candidates ==> ready_set::nothing_queued(left)
        }),
{
    let taken = ready_set::drained(ready, config.max_candidates as int);
    let fresh = cycle::rescored(taken, jobs, accounts, now, config);
    let candidates = ready_set::from_the_top(fresh);
    let left = ready_set::after_taking(ready, taken);
    ready_set::law_drain_is_determined(ready, config.max_candidates as int);
    ready_set::law_from_the_top_is_ordered(fresh);
    cycle::lemma_candidates(ready, left, jobs, taken, fresh, candidates);
    assert forall|i: int, j: int| 0 <= i < j < candidates.len() implies ready_set::outranks(
        #[trigger] candidates[i],
        #[trigger] candidates[j],
    ) by {
        assert(!(candidates[i].class == candidates[j].class && candidates[i].job
            == candidates[j].job));
    }
}

/// While every live job in the queues is ready, each in its own class, every job
/// that a cycle dispatches can start.
pub proof fn law_cycle_starts_from_ready_queues(
    ready: Queues,
    jobs: Map<JobId, Job>,
    accounts: Accounts,
    slots: Seq<WorkerSlot>,
    running: Seq<RunningJob>,
    now: VirtualTime,
    config: CycleConfig,
)
    requires
        cycle_ready(ready, jobs),
        slots.len() <= slot::SLOT_SPACE,
        cycle::cycle_lands(ready, jobs, accounts, slots, running, now, config),
    ensures
        cycle::cycle_starts(ready, jobs, accounts, slots, running, now, config),
{
    law_candidates_are_queued(ready, jobs, accounts, now, config);
    law_cycle_charges_what_it_decides(ready, jobs, accounts, slots, running, now, config);
    let plan = cycle::cycle_plan(ready, jobs, accounts, slots, running, now, config);
    let candidates = plan.candidates;
    assert forall|k: int|
        0 <= k < candidates.len() && (#[trigger] plan.disposition[k]) is Dispatched
            && jobs.contains_key(candidates[k].job) implies jobs[candidates[k].job].state is Ready by {
        let c = candidates[k].class.rank() as int;
        crate::domain::job::law_rank_determines_class(candidates[k].class, candidates[k].class);
        assert(ready[c].contains_key(candidates[k].job));
    }
    assert forall|i: int, j: int|
        0 <= i < j < candidates.len() && (#[trigger] plan.disposition[i]) is Dispatched && (
        #[trigger] plan.disposition[j]) is Dispatched implies candidates[i].job
        != candidates[j].job by {
        if candidates[i].job == candidates[j].job {
            assert(jobs.contains_key(candidates[i].job));
            crate::domain::job::law_rank_determines_class(candidates[i].class, candidates[j].class);
            assert(ready[candidates[i].class.rank() as int].contains_key(candidates[i].job));
            assert(ready[candidates[j].class.rank() as int].contains_key(candidates[j].job));
        }
    }
}

/// A cycle never over-commits a slot: it decides on exactly the candidates it
/// marks dispatched, in their order, charges each to the slot it names and
/// nothing else, and counts them right. Packing and backfilling each stay within
/// the budget.
pub proof fn law_cycle_charges_what_it_decides(
    ready: Queues,
    jobs: Map<JobId, Job>,
    accounts: Accounts,
    slots: Seq<WorkerSlot>,
    running: Seq<RunningJob>,
    now: VirtualTime,
    config: CycleConfig,
)
    requires
        cycle_ready(ready, jobs),
        slots.len() <= slot::SLOT_SPACE,
        cycle::cycle_lands(ready, jobs, accounts, slots, running, now, config),
    ensures
        ({
            let plan = cycle::cycle_plan(ready, jobs, accounts, slots, running, now, config);
            &&& plan.disposition.len() == plan.candidates.len()
            &&& pack::decided(plan.decisions) == pack::dispatched_among(
                plan.candidates,
                plan.disposition,
                plan.candidates.len() as int,
            )
            &&& plan.slots == pack::charged_by(slots, plan.decisions, jobs)
            &&& slot::within_capacity(slots) ==> slot::within_capacity(plan.slots)
            &&& plan.decisions.len() == plan.outcome.dispatched + plan.outcome.backfilled
            &&& plan.outcome.dispatched <= config.budget.max_decisions
            &&& plan.outcome.backfilled <= config.budget.max_decisions
            &&& plan.outcome.candidates == plan.candidates.len()
            &&& forall|k: int|
                0 <= k < plan.candidates.len() ==> ((#[trigger] plan.disposition[k]) is Dispatched
                    ==> jobs.contains_key(plan.candidates[k].job)) && (
                plan.disposition[k] is Dropped ==> !jobs.contains_key(plan.candidates[k].job))
        }),
{
    law_candidates_are_queued(ready, jobs, accounts, now, config);
    let plan = cycle::cycle_plan(ready, jobs, accounts, slots, running, now, config);
    let candidates = plan.candidates;
    let pending = cycle::all_pending(candidates.len());
    let start = pack::pack_start(slots, pending);
    let packed = pack::pack_from(candidates, jobs, config.budget, 0, start);
    pack::lemma_pack(candidates, jobs, config.budget, 0, start);
    pack::law_pack_decides_what_it_dispatches(candidates, jobs, config.budget, slots, pending);
    if let Some(head) = packed.outcome.head {
        assert forall|k: int| head <= k < candidates.len() implies (
        #[trigger] packed.disposition[k]) is Pending by {
            assert(packed.disposition[k] == pending[k]);
        }
        backfill::law_backfill_respects_capacity_and_budget(
            candidates,
            head as int,
            jobs,
            packed.slots,
            running,
            now,
            config.budget,
            packed.disposition,
        );
        backfill::law_backfill_decides_what_it_dispatches(
            candidates,
            head as int,
            jobs,
            slots,
            packed.placed,
            running,
            now,
            config.budget,
            packed.disposition,
        );
    }
}

/// A cycle never delays its head, the first candidate that fits nowhere: with
/// every job running that was backfilled past it, each until its deadline, the
/// head can still start no later than its reservation. Without a reservation
/// nothing is backfilled, and without a head neither.
pub proof fn law_cycle_never_delays_its_head(
    ready: Queues,
    jobs: Map<JobId, Job>,
    accounts: Accounts,
    slots: Seq<WorkerSlot>,
    running: Seq<RunningJob>,
    now: VirtualTime,
    config: CycleConfig,
)
    requires
        cycle_ready(ready, jobs),
        slots.len() <= slot::SLOT_SPACE,
        cycle::cycle_lands(ready, jobs, accounts, slots, running, now, config),
    ensures
        ({
            let plan = cycle::cycle_plan(ready, jobs, accounts, slots, running, now, config);
            let packed = plan.decisions.take(plan.outcome.dispatched as int);
            let backfilled = plan.decisions.skip(plan.outcome.dispatched as int);
            &&& plan.outcome.head is None ==> plan.outcome.backfilled == 0
                && plan.outcome.reservation is None
            &&& plan.outcome.head matches Some(head) ==> {
                let request = jobs[head].request;
                &&& jobs.contains_key(head)
                &&& slot::is_first_fit(pack::charged_by(slots, packed, jobs), request, None)
                &&& plan.outcome.reservation == backfill::reservation_of(
                    pack::charged_by(slots, packed, jobs),
                    running,
                    request,
                    now,
                )
                &&& match plan.outcome.reservation {
                    Some(before) => backfill::reservation_of(
                        plan.slots,
                        running + backfill::runs_of(backfilled, jobs, now),
                        request,
                        now,
                    ) matches Some(after) && after@ <= before@,
                    None => plan.outcome.backfilled == 0,
                }
            }
        }),
{
    law_candidates_are_queued(ready, jobs, accounts, now, config);
    law_cycle_charges_what_it_decides(ready, jobs, accounts, slots, running, now, config);
    let plan = cycle::cycle_plan(ready, jobs, accounts, slots, running, now, config);
    let candidates = plan.candidates;
    let pending = cycle::all_pending(candidates.len());
    let start = pack::pack_start(slots, pending);
    let packed = pack::pack_from(candidates, jobs, config.budget, 0, start);
    pack::lemma_pack(candidates, jobs, config.budget, 0, start);
    pack::law_pack_decides_what_it_dispatches(candidates, jobs, config.budget, slots, pending);
    if let Some(head_index) = packed.outcome.head {
        let head = candidates[head_index as int].job;
        let request = jobs[head].request;
        let (filled, reservation) = backfill::backfill_pass(
            candidates,
            head_index as int,
            jobs,
            packed.slots,
            running,
            now,
            config.budget,
            packed.disposition,
        );
        backfill::law_backfill_never_delays_the_head(
            candidates,
            head_index as int,
            jobs,
            packed.slots,
            running,
            now,
            config.budget,
            packed.disposition,
        );
        let n = plan.outcome.dispatched as int;
        assert(plan.decisions.take(n) =~= packed.placed);
        assert(plan.decisions.skip(n) =~= backfill::placements(filled.admitted));
        let fresh = backfill::backfill_start(packed.slots, packed.disposition);
        assert(fresh.admitted =~= backfill::runs_of(
            backfill::placements(fresh.admitted),
            jobs,
            now,
        ));
        if let Some(due) = reservation {
            backfill::lemma_admitted_are_runs(
                candidates,
                jobs,
                config.budget,
                backfill::Ahead { request, due, running, now },
                head_index + 1,
                fresh,
            );
        }
    }
}

/// Among the first `n` candidates, `id` goes back to the queue of class `c`.
pub open spec fn returned(
    candidates: Seq<ReadyEntry>,
    disposition: Seq<Disposition>,
    n: int,
    c: int,
    id: JobId,
) -> bool {
    exists|k: int|
        0 <= k < n && (#[trigger] candidates[k]).class.rank() == c && candidates[k].job == id
            && disposition[k] is Pending
}

/// What applying the first `n` dispositions does to jobs and queues.
proof fn lemma_emit(
    t: Tick,
    candidates: Seq<ReadyEntry>,
    disposition: Seq<Disposition>,
    n: int,
    now: VirtualTime,
    config: CycleConfig,
)
    requires
        0 <= n <= candidates.len(),
        t.ready.len() == PriorityClass::COUNT,
    ensures
        ({
            let end = cycle::emit_all(t, candidates, disposition, n, now, config);
            &&& end.jobs.dom() == t.jobs.dom()
            &&& end.ready.len() == t.ready.len()
            &&& forall|j: JobId| #[trigger]
                end.jobs.contains_key(j) ==> end.jobs[j] == if pack::dispatched_among(
                    candidates,
                    disposition,
                    n,
                ).contains(j) {
                    t.jobs[j].in_state(JobState::Running)
                } else {
                    t.jobs[j]
                }
            &&& forall|c: int, id: JobId|
                0 <= c < end.ready.len() ==> (#[trigger] end.ready[c].contains_key(id)
                    <==> t.ready[c].contains_key(id) || returned(
                    candidates,
                    disposition,
                    n,
                    c,
                    id,
                ))
        }),
    decreases n,
{
    let end = cycle::emit_all(t, candidates, disposition, n, now, config);
    let dispatched = pack::dispatched_among(candidates, disposition, n);
    if n > 0 {
        lemma_emit(t, candidates, disposition, n - 1, now, config);
        let before = cycle::emit_all(t, candidates, disposition, n - 1, now, config);
        let earlier = pack::dispatched_among(candidates, disposition, n - 1);
        let entry = candidates[n - 1];
        crate::domain::job::law_rank_determines_class(entry.class, entry.class);
        assert(end.jobs.dom() =~= t.jobs.dom());
        assert forall|j: JobId| dispatched.contains(j) == (earlier.contains(j) || (
        disposition[n - 1] is Dispatched && j == entry.job)) by {
            if disposition[n - 1] is Dispatched {
                assert(dispatched == earlier.push(entry.job));
                assert(dispatched[earlier.len() as int] == entry.job);
                if earlier.contains(j) {
                    let k = choose|k: int| 0 <= k < earlier.len() && earlier[k] == j;
                    assert(dispatched[k] == j);
                }
                if dispatched.contains(j) {
                    let k = choose|k: int| 0 <= k < dispatched.len() && dispatched[k] == j;
                    if k < earlier.len() {
                        assert(earlier[k] == j);
                    }
                }
            }
        }
        assert forall|j: JobId| #[trigger] end.jobs.contains_key(j) implies end.jobs[j] == (
        if dispatched.contains(j) {
            t.jobs[j].in_state(JobState::Running)
        } else {
            t.jobs[j]
        }) by {
            assert(end.jobs.dom().contains(j) && before.jobs.dom().contains(j));
            assert(before.jobs.contains_key(j));
        }
        assert forall|c: int, id: JobId| 0 <= c < end.ready.len() implies (
        #[trigger] end.ready[c].contains_key(id) <==> t.ready[c].contains_key(id) || returned(
            candidates,
            disposition,
            n,
            c,
            id,
        )) by {
            assert(before.ready[c].contains_key(id) <==> t.ready[c].contains_key(id) || returned(
                candidates,
                disposition,
                n - 1,
                c,
                id,
            ));
            if returned(candidates, disposition, n, c, id) {
                let k = choose|k: int|
                    0 <= k < n && (#[trigger] candidates[k]).class.rank() == c && candidates[k].job
                        == id && disposition[k] is Pending;
                if k < n - 1 {
                    assert(returned(candidates, disposition, n - 1, c, id));
                }
            }
            if returned(candidates, disposition, n - 1, c, id) {
                let k = choose|k: int|
                    0 <= k < n - 1 && (#[trigger] candidates[k]).class.rank() == c
                        && candidates[k].job == id && disposition[k] is Pending;
                assert(returned(candidates, disposition, n, c, id));
            }
            if disposition[n - 1] is Pending && entry.class.rank() == c && entry.job == id {
                assert(returned(candidates, disposition, n, c, id));
            }
        }
    }
}

/// A cycle loses no job and touches none but those it dispatches: every live job
/// that was queued either runs, and was decided on, or is still queued as it was;
/// every other live job is unchanged; nothing new is queued.
pub proof fn law_cycle_loses_no_job(
    ready: Queues,
    jobs: Map<JobId, Job>,
    accounts: Accounts,
    slots: Seq<WorkerSlot>,
    running: Seq<RunningJob>,
    now: VirtualTime,
    config: CycleConfig,
)
    requires
        cycle_ready(ready, jobs),
        slots.len() <= slot::SLOT_SPACE,
        cycle::cycle_lands(ready, jobs, accounts, slots, running, now, config),
    ensures
        ({
            let plan = cycle::cycle_plan(ready, jobs, accounts, slots, running, now, config);
            let end = cycle::cycle_end(ready, jobs, accounts, slots, running, now, config);
            let chosen = pack::decided(plan.decisions);
            &&& end.jobs.dom() == jobs.dom()
            &&& forall|j: JobId| #[trigger]
                jobs.contains_key(j) ==> end.jobs[j] == if chosen.contains(j) {
                    jobs[j].in_state(JobState::Running)
                } else {
                    jobs[j]
                }
            &&& forall|j: JobId| #[trigger]
                chosen.contains(j) ==> jobs.contains_key(j) && jobs[j].state is Ready
            &&& forall|c: int, id: JobId|
                0 <= c < ready.len() && #[trigger] ready[c].contains_key(id) && jobs.contains_key(
                    id,
                ) ==> end.ready[c].contains_key(id) == !chosen.contains(id)
            &&& cycle::shrunk(ready, end.ready)
        }),
{
    law_candidates_are_queued(ready, jobs, accounts, now, config);
    law_cycle_charges_what_it_decides(ready, jobs, accounts, slots, running, now, config);
    let plan = cycle::cycle_plan(ready, jobs, accounts, slots, running, now, config);
    let candidates = plan.candidates;
    let disposition = plan.disposition;
    let n = candidates.len() as int;
    let taken = ready_set::drained(ready, config.max_candidates as int);
    let left = ready_set::after_taking(ready, taken);
    let start = Tick { ready: left, jobs, accounts };
    let end = cycle::cycle_end(ready, jobs, accounts, slots, running, now, config);
    let chosen = pack::dispatched_among(candidates, disposition, n);
    lemma_emit(start, candidates, disposition, n, now, config);
    assert forall|j: JobId| #[trigger] jobs.contains_key(j) implies end.jobs[j] == (
    if chosen.contains(j) {
        jobs[j].in_state(JobState::Running)
    } else {
        jobs[j]
    }) by {
        assert(end.jobs.dom().contains(j) == jobs.dom().contains(j));
        assert(end.jobs.contains_key(j));
    }
    assert forall|j: JobId| #[trigger] chosen.contains(j) implies jobs.contains_key(j)
        && jobs[j].state is Ready by {
        let k = lemma_dispatched_position(candidates, disposition, n, j);
        let c = candidates[k].class.rank() as int;
        crate::domain::job::law_rank_determines_class(candidates[k].class, candidates[k].class);
        assert(disposition[k] is Dispatched);
        assert(ready[c].contains_key(j));
    }
    assert forall|c: int, id: JobId|
        0 <= c < ready.len() && #[trigger] ready[c].contains_key(id) && jobs.contains_key(
            id,
        ) implies end.ready[c].contains_key(id) == !chosen.contains(id) by {
        assert(end.ready[c].contains_key(id) <==> left[c].contains_key(id) || returned(
            candidates,
            disposition,
            n,
            c,
            id,
        ));
        if chosen.contains(id) {
            let k = lemma_dispatched_position(candidates, disposition, n, id);
            let d = candidates[k].class.rank() as int;
            crate::domain::job::law_rank_determines_class(candidates[k].class, candidates[k].class);
            assert(ready[d].contains_key(id));
            assert(c == d);
            assert(!left[d].contains_key(id));
            if returned(candidates, disposition, n, c, id) {
                let m = choose|m: int|
                    0 <= m < n && (#[trigger] candidates[m]).class.rank() == c && candidates[m].job
                        == id && disposition[m] is Pending;
                crate::domain::job::law_rank_determines_class(
                    candidates[k].class,
                    candidates[m].class,
                );
                if m < k {
                    assert(!(candidates[m].class == candidates[k].class && candidates[m].job
                        == candidates[k].job));
                } else if k < m {
                    assert(!(candidates[k].class == candidates[m].class && candidates[k].job
                        == candidates[m].job));
                }
            }
        } else if !left[c].contains_key(id) {
            ready_set::law_drain_is_determined(ready, config.max_candidates as int);
            ready_set::law_drain_takes_each_entry_once(ready, taken);
            assert(left[c].contains_key(id) <==> ready[c].contains_key(id) && !ready_set::takes(
                taken,
                c,
                id,
            ));
            let m = choose|m: int|
                0 <= m < taken.len() && (#[trigger] taken[m]).class.rank() == c && taken[m].job
                    == id;
            let fresh = cycle::rescored(taken, jobs, accounts, now, config);
            ready_set::law_from_the_top_is_ordered(fresh);
            let k = cycle::lemma_position(fresh, candidates, m);
            assert(candidates[k].class == taken[m].class && candidates[k].job == id);
            if disposition[k] is Dispatched {
                lemma_dispatched_is_listed(candidates, disposition, n, k);
            }
            assert(!(disposition[k] is Dropped));
            assert(returned(candidates, disposition, n, c, id));
        }
    }
    assert forall|c: int, id: JobId|
        0 <= c < end.ready.len() && #[trigger] end.ready[c].contains_key(
            id,
        ) implies ready[c].contains_key(id) by {
        if !left[c].contains_key(id) {
            let m = choose|m: int|
                0 <= m < n && (#[trigger] candidates[m]).class.rank() == c && candidates[m].job
                    == id && disposition[m] is Pending;
            assert(ready[candidates[m].class.rank() as int].contains_key(candidates[m].job));
        }
    }
}

proof fn lemma_dispatched_position(
    candidates: Seq<ReadyEntry>,
    disposition: Seq<Disposition>,
    n: int,
    id: JobId,
) -> (k: int)
    requires
        0 <= n,
        pack::dispatched_among(candidates, disposition, n).contains(id),
    ensures
        0 <= k < n,
        candidates[k].job == id,
        disposition[k] is Dispatched,
    decreases n,
{
    let all = pack::dispatched_among(candidates, disposition, n);
    let at = choose|at: int| 0 <= at < all.len() && all[at] == id;
    if n == 0 {
        0
    } else {
        let before = pack::dispatched_among(candidates, disposition, n - 1);
        if at < before.len() {
            assert(before[at] == id);
            lemma_dispatched_position(candidates, disposition, n - 1, id)
        } else {
            n - 1
        }
    }
}

proof fn lemma_dispatched_is_listed(
    candidates: Seq<ReadyEntry>,
    disposition: Seq<Disposition>,
    n: int,
    k: int,
)
    requires
        0 <= k < n,
        disposition[k] is Dispatched,
    ensures
        pack::dispatched_among(candidates, disposition, n).contains(candidates[k].job),
    decreases n,
{
    let all = pack::dispatched_among(candidates, disposition, n);
    let before = pack::dispatched_among(candidates, disposition, n - 1);
    if k == n - 1 {
        assert(all[before.len() as int] == candidates[k].job);
    } else {
        lemma_dispatched_is_listed(candidates, disposition, n - 1, k);
        let at = choose|at: int| 0 <= at < before.len() && before[at] == candidates[k].job;
        assert(all[at] == candidates[k].job);
    }
}

/// A cycle keeps tracker and jobs in sync: starting a ready job changes nothing
/// that anyone waits for.
pub proof fn law_cycle_keeps_sync(
    watch: Watch,
    ready: Queues,
    jobs: Map<JobId, Job>,
    accounts: Accounts,
    slots: Seq<WorkerSlot>,
    running: Seq<RunningJob>,
    now: VirtualTime,
    config: CycleConfig,
)
    requires
        cycle_ready(ready, jobs),
        slots.len() <= slot::SLOT_SPACE,
        cycle::cycle_lands(ready, jobs, accounts, slots, running, now, config),
        dag::in_sync(watch, jobs),
    ensures
        dag::in_sync(
            watch,
            cycle::cycle_end(ready, jobs, accounts, slots, running, now, config).jobs,
        ),
{
    law_cycle_loses_no_job(ready, jobs, accounts, slots, running, now, config);
    let after = cycle::cycle_end(ready, jobs, accounts, slots, running, now, config).jobs;
    assert forall|j: JobId| #[trigger] after.contains_key(j) == jobs.contains_key(j) by {
        assert(after.dom().contains(j) == jobs.dom().contains(j));
    }
    assert forall|d: JobId| #[trigger] eligibility::pending(after, d) == eligibility::pending(
        jobs,
        d,
    ) by {
        if jobs.contains_key(d) {
        }
    }
    assert forall|j: JobId| #[trigger]
        after.contains_key(j) && after[j].state is Blocked implies dag::counted_right(
        watch,
        after,
        j,
    ) by {
        assert(jobs.contains_key(j) && dag::counted_right(watch, jobs, j));
        let deps = jobs[j].deps@;
        dag::lemma_same_open(jobs, after, deps, deps.len() as int);
        assert forall|d: JobId| #[trigger] eligibility::pending(after, d) implies dag::occurrences(
            deps,
            d,
        ) == dag::occurrences(dag::waiting_on(watch, d), j) by {
            assert(eligibility::pending(jobs, d));
        }
    }
    assert forall|j: JobId| #[trigger] eligibility::watched(watch, j) implies eligibility::pending(
        after,
        j,
    ) && (after[j].state is Blocked || watch[j.idx()].unsatisfied == 0) by {
        assert(eligibility::pending(jobs, j));
    }
    assert forall|d: JobId, j: JobId| #[trigger]
        dag::occurrences(dag::waiting_on(watch, d), j) > 0 && after.contains_key(j) implies !(
    after[j].state is Submitted) by {
        assert(jobs.contains_key(j));
    }
}

/// The candidates of a cycle go by what their jobs are worth now: a live one carries
/// the score of its job at `now`, under the factor its account has, whatever score it
/// was queued at; a stale one keeps the score it was queued at. They stand in falling
/// order: by class, then by that score, then the smaller handle first.
pub proof fn law_candidates_go_by_their_current_scores(
    ready: Queues,
    jobs: Map<JobId, Job>,
    accounts: Accounts,
    now: VirtualTime,
    config: CycleConfig,
)
    requires
        cycle_ready(ready, jobs),
    ensures
        ({
            let candidates = cycle::candidates_of(ready, jobs, accounts, now, config);
            &&& forall|k: int|
                0 <= k < candidates.len() && jobs.contains_key((#[trigger] candidates[k]).job) ==> {
                    let job = jobs[candidates[k].job];
                    let factor = if job.account@ < accounts.factors.len() {
                        accounts.factors[job.account@ as int]
                    } else {
                        1_000_000
                    };
                    &&& candidates[k].score == priority::weighted_score(
                        job,
                        now,
                        config.priority,
                        factor,
                    )
                    &&& candidates[k].class == job.priority_class
                }
            &&& forall|k: int|
                0 <= k < candidates.len() && !jobs.contains_key((#[trigger] candidates[k]).job)
                    ==> candidates[k].score
                    == ready[candidates[k].class.rank() as int][candidates[k].job]
            &&& forall|i: int, j: int|
                0 <= i < j < candidates.len() ==> {
                    let (a, b) = (#[trigger] candidates[i], #[trigger] candidates[j]);
                    ||| a.class.rank() > b.class.rank()
                    ||| a.class == b.class && a.score > b.score
                    ||| a.class == b.class && a.score == b.score && a.job@ < b.job@
                }
        }),
{
    law_candidates_are_queued(ready, jobs, accounts, now, config);
    let taken = ready_set::drained(ready, config.max_candidates as int);
    let fresh = cycle::rescored(taken, jobs, accounts, now, config);
    let candidates = ready_set::from_the_top(fresh);
    ready_set::law_drain_is_determined(ready, config.max_candidates as int);
    ready_set::law_drain_takes_each_entry_once(ready, taken);
    ready_set::law_from_the_top_is_ordered(fresh);
    assert forall|k: int|
        0 <= k < candidates.len() && jobs.contains_key((#[trigger] candidates[k]).job) implies ({
        let job = jobs[candidates[k].job];
        let factor = if job.account@ < accounts.factors.len() {
            accounts.factors[job.account@ as int]
        } else {
            1_000_000
        };
        &&& candidates[k].score == priority::weighted_score(job, now, config.priority, factor)
        &&& candidates[k].class == job.priority_class
    }) by {
        let m = cycle::lemma_position(candidates, fresh, k);
        let job = jobs[candidates[k].job];
        priority::law_score_is_bounded(job, now, config.priority, accounts.factor_of(job.account));
        let c = candidates[k].class.rank() as int;
        crate::domain::job::law_rank_determines_class(candidates[k].class, job.priority_class);
        assert(ready[c].contains_key(candidates[k].job));
    }
    assert forall|k: int|
        0 <= k < candidates.len() && !jobs.contains_key(
            (#[trigger] candidates[k]).job,
        ) implies candidates[k].score
        == ready[candidates[k].class.rank() as int][candidates[k].job] by {
        let m = cycle::lemma_position(candidates, fresh, k);
        assert(fresh[m] == taken[m]);
    }
    assert forall|i: int, j: int| 0 <= i < j < candidates.len() implies ({
        let (a, b) = (#[trigger] candidates[i], #[trigger] candidates[j]);
        ||| a.class.rank() > b.class.rank()
        ||| a.class == b.class && a.score > b.score
        ||| a.class == b.class && a.score == b.score && a.job@ < b.job@
    }) by {
        let (a, b) = (candidates[i], candidates[j]);
        assert(ready_set::outranks(a, b));
        priority::law_order_is_total(b.score, b.job, a.score, a.job);
    }
}

/// Of two live candidates of one class, the one whose job scores higher at `now` comes
/// first.
pub proof fn law_higher_scoring_candidates_come_first(
    ready: Queues,
    jobs: Map<JobId, Job>,
    accounts: Accounts,
    now: VirtualTime,
    config: CycleConfig,
    i: int,
    j: int,
)
    requires
        cycle_ready(ready, jobs),
        ({
            let candidates = cycle::candidates_of(ready, jobs, accounts, now, config);
            &&& 0 <= i < candidates.len() && 0 <= j < candidates.len()
            &&& jobs.contains_key(candidates[i].job) && jobs.contains_key(candidates[j].job)
            &&& jobs[candidates[i].job].priority_class == jobs[candidates[j].job].priority_class
            &&& priority::weighted_score(
                jobs[candidates[i].job],
                now,
                config.priority,
                accounts.factor_of(jobs[candidates[i].job].account),
            ) > priority::weighted_score(
                jobs[candidates[j].job],
                now,
                config.priority,
                accounts.factor_of(jobs[candidates[j].job].account),
            )
        }),
    ensures
        i < j,
{
    law_candidates_go_by_their_current_scores(ready, jobs, accounts, now, config);
    let candidates = cycle::candidates_of(ready, jobs, accounts, now, config);
    let (a, b) = (candidates[i], candidates[j]);
    fairshare::law_unseen_accounts_have_the_greatest_factor(
        accounts,
        jobs[a.job].account,
    );
    fairshare::law_unseen_accounts_have_the_greatest_factor(
        accounts,
        jobs[b.job].account,
    );
    assert(a.score > b.score && a.class == b.class);
}

/// A cycle looks at the best of what is queued: it takes as many as it may, or all
/// there are, and whatever it leaves ranks below all it takes, by class, then by the
/// score it is queued at, then the smaller handle first.
pub proof fn law_cycle_takes_the_best(
    ready: Queues,
    jobs: Map<JobId, Job>,
    accounts: Accounts,
    now: VirtualTime,
    config: CycleConfig,
    k: int,
    c: int,
    left_out: JobId,
)
    requires
        cycle_ready(ready, jobs),
        0 <= k < cycle::candidates_of(ready, jobs, accounts, now, config).len(),
        0 <= c < ready.len(),
        ready[c].contains_key(left_out),
        forall|m: int|
            0 <= m < cycle::candidates_of(ready, jobs, accounts, now, config).len() ==> !((
            #[trigger] cycle::candidates_of(
                ready,
                jobs,
                accounts,
                now,
                config,
            )[m]).class.rank() == c && cycle::candidates_of(
                ready,
                jobs,
                accounts,
                now,
                config,
            )[m].job == left_out),
    ensures
        ({
            let candidates = cycle::candidates_of(ready, jobs, accounts, now, config);
            let entry = candidates[k];
            let stored = ready[entry.class.rank() as int][entry.job];
            &&& candidates.len() == config.max_candidates
            &&& {
                ||| entry.class.rank() > c
                ||| entry.class.rank() == c && stored > ready[c][left_out]
                ||| entry.class.rank() == c && stored == ready[c][left_out] && entry.job@
                    < left_out@
            }
        }),
{
    law_candidates_are_queued(ready, jobs, accounts, now, config);
    let taken = ready_set::drained(ready, config.max_candidates as int);
    let fresh = cycle::rescored(taken, jobs, accounts, now, config);
    let candidates = ready_set::from_the_top(fresh);
    let left = ready_set::after_taking(ready, taken);
    ready_set::law_drain_is_determined(ready, config.max_candidates as int);
    ready_set::law_drain_takes_each_entry_once(ready, taken);
    ready_set::law_drain_goes_from_the_top(ready, taken);
    ready_set::law_from_the_top_is_ordered(fresh);
    if ready_set::takes(taken, c, left_out) {
        let m = choose|m: int|
            0 <= m < taken.len() && (#[trigger] taken[m]).class.rank() == c && taken[m].job
                == left_out;
        let at = cycle::lemma_position(fresh, candidates, m);
        assert(candidates[at].class.rank() == c && candidates[at].job == left_out);
    }
    assert(left[c].contains_key(left_out));
    let m = cycle::lemma_position(candidates, fresh, k);
    let class = lemma_class_of_rank(c);
    let other = ReadyEntry { class, job: left_out, score: left[c][left_out] };
    assert(ready_set::outranks(taken[m], other));
    priority::law_order_is_total(other.score, other.job, taken[m].score, taken[m].job);
    assert(candidates[k].class == taken[m].class && candidates[k].job == taken[m].job);
    assert(ready[taken[m].class.rank() as int][taken[m].job] == taken[m].score);
}

proof fn lemma_class_of_rank(c: int) -> (class: PriorityClass)
    requires
        0 <= c < PriorityClass::COUNT,
    ensures
        class.rank() == c,
{
    if c == 0 {
        PriorityClass::Low
    } else if c == 1 {
        PriorityClass::Normal
    } else if c == 2 {
        PriorityClass::High
    } else {
        PriorityClass::Urgent
    }
}

/// The cpu that these jobs of one account ask for together.
pub open spec fn cpu_asked(ids: Seq<JobId>, jobs: Map<JobId, Job>, account: int) -> nat
    decreases ids.len(),
{
    if ids.len() == 0 {
        0
    } else {
        cpu_asked(ids.drop_last(), jobs, account) + if jobs[ids.last()].account@ == account {
            jobs[ids.last()].request.cpu_millis as nat
        } else {
            0nat
        }
    }
}

/// What applying the first `n` dispositions does to the accounts.
proof fn lemma_emit_charges(
    t: Tick,
    candidates: Seq<ReadyEntry>,
    disposition: Seq<Disposition>,
    n: int,
    now: VirtualTime,
    config: CycleConfig,
    i: int,
)
    requires
        0 <= n <= candidates.len(),
        t.ready.len() == PriorityClass::COUNT,
        forall|k: int|
            0 <= k < candidates.len() && (#[trigger] disposition[k]) is Dispatched
                ==> t.jobs.contains_key(candidates[k].job),
        0 <= i < t.accounts.ledgers.len(),
        t.accounts.ledgers[i] == t.accounts.ledgers[i].touched(now@, config.fairshare),
    ensures
        ({
            let end = cycle::emit_all(t, candidates, disposition, n, now, config).accounts;
            let dispatched = pack::dispatched_among(candidates, disposition, n);
            let total = t.accounts.ledgers[i].running_cpu + cpu_asked(dispatched, t.jobs, i);
            &&& end.factors == t.accounts.factors
            &&& end.ledgers.len() == t.accounts.ledgers.len()
            &&& end.ledgers[i].running_cpu == (if total <= u64::MAX {
                total
            } else {
                u64::MAX as int
            })
            &&& end.ledgers[i].usage == t.accounts.ledgers[i].usage
            &&& end.ledgers[i].shares == t.accounts.ledgers[i].shares
            &&& end.ledgers[i].accrued_to == t.accounts.ledgers[i].accrued_to
            &&& end.ledgers[i].decayed_to == t.accounts.ledgers[i].decayed_to
        }),
    decreases n,
{
    let dispatched = pack::dispatched_among(candidates, disposition, n);
    if n > 0 {
        lemma_emit_charges(t, candidates, disposition, n - 1, now, config, i);
        lemma_emit(t, candidates, disposition, n - 1, now, config);
        let before = cycle::emit_all(t, candidates, disposition, n - 1, now, config);
        let earlier = pack::dispatched_among(candidates, disposition, n - 1);
        let was = before.accounts.ledgers[i];
        if disposition[n - 1] is Dispatched {
            let id = candidates[n - 1].job;
            assert(t.jobs.contains_key(id));
            assert(before.jobs.dom().contains(id) == t.jobs.dom().contains(id));
            assert(before.jobs.contains_key(id));
            assert(dispatched == earlier.push(id));
            assert(dispatched.drop_last() =~= earlier);
            fairshare::law_touching_again_charges_nothing(
                t.accounts.ledgers[i],
                was,
                now@,
                config.fairshare,
            );
            fairshare::law_dispatch_and_release_move_running_cpu(
                before.accounts,
                before.jobs[id].account,
                before.jobs[id].request.cpu_millis,
                now,
                config.fairshare,
            );
        } else {
            assert(dispatched == earlier);
        }
    }
}

/// A cycle charges every job it starts to the job's own account, from now on: after
/// it, the account runs as much more cpu as the jobs started for it ask for together,
/// and nothing else of its ledger has changed since the refresh.
pub proof fn law_cycle_charges_the_accounts_of_what_it_starts(
    ready: Queues,
    jobs: Map<JobId, Job>,
    before: Accounts,
    slots: Seq<WorkerSlot>,
    running: Seq<RunningJob>,
    now: VirtualTime,
    config: CycleConfig,
    i: int,
)
    requires
        cycle_ready(ready, jobs),
        slots.len() <= slot::SLOT_SPACE,
        cycle::cycle_lands(
            ready,
            jobs,
            before.refreshed(now, config.fairshare),
            slots,
            running,
            now,
            config,
        ),
        0 <= i < before.ledgers.len(),
    ensures
        ({
            let accounts = before.refreshed(now, config.fairshare);
            let plan = cycle::cycle_plan(ready, jobs, accounts, slots, running, now, config);
            let end = cycle::cycle_end(
                ready,
                jobs,
                accounts,
                slots,
                running,
                now,
                config,
            ).accounts;
            let total = before.ledgers[i].running_cpu + cpu_asked(
                pack::decided(plan.decisions),
                jobs,
                i,
            );
            &&& end.factors == accounts.factors
            &&& end.ledgers.len() == before.ledgers.len()
            &&& end.ledgers[i].running_cpu == (if total <= u64::MAX {
                total
            } else {
                u64::MAX as int
            })
            &&& end.ledgers[i].usage == accounts.ledgers[i].usage
            &&& end.ledgers[i].shares == before.ledgers[i].shares
            &&& end.ledgers[i].accrued_to == accounts.ledgers[i].accrued_to
            &&& end.ledgers[i].decayed_to == accounts.ledgers[i].decayed_to
        }),
{
    let accounts = before.refreshed(now, config.fairshare);
    law_cycle_charges_what_it_decides(ready, jobs, accounts, slots, running, now, config);
    law_candidates_are_queued(ready, jobs, accounts, now, config);
    let plan = cycle::cycle_plan(ready, jobs, accounts, slots, running, now, config);
    let taken = ready_set::drained(ready, config.max_candidates as int);
    let start = Tick { ready: ready_set::after_taking(ready, taken), jobs, accounts };
    fairshare::law_touching_twice_is_touching_once(before.ledgers[i], now@, config.fairshare);
    lemma_emit_charges(
        start,
        plan.candidates,
        plan.disposition,
        plan.candidates.len() as int,
        now,
        config,
        i,
    );
}

/// What the first `n` dispositions leave queued: each returned candidate at the score it
/// had in the cycle.
proof fn lemma_emit_scores(
    t: Tick,
    candidates: Seq<ReadyEntry>,
    disposition: Seq<Disposition>,
    n: int,
    now: VirtualTime,
    config: CycleConfig,
    c: int,
    id: JobId,
)
    requires
        0 <= n <= candidates.len(),
        t.ready.len() == PriorityClass::COUNT,
        0 <= c < t.ready.len(),
        forall|i: int, j: int|
            0 <= i < j < candidates.len() ==> !((#[trigger] candidates[i]).class == (
            #[trigger] candidates[j]).class && candidates[i].job == candidates[j].job),
    ensures
        ({
            let end = cycle::emit_all(t, candidates, disposition, n, now, config);
            &&& forall|k: int|
                0 <= k < n && (#[trigger] candidates[k]).class.rank() == c && candidates[k].job
                    == id && disposition[k] is Pending ==> end.ready[c].contains_key(id)
                    && end.ready[c][id] == candidates[k].score
            &&& (forall|k: int|
                0 <= k < n ==> !((#[trigger] candidates[k]).class.rank() == c && candidates[k].job
                    == id)) ==> end.ready[c].contains_key(id) == t.ready[c].contains_key(id)
                && end.ready[c][id] == t.ready[c][id]
        }),
    decreases n,
{
    if n > 0 {
        lemma_emit_scores(t, candidates, disposition, n - 1, now, config, c, id);
        lemma_emit(t, candidates, disposition, n - 1, now, config);
        let before = cycle::emit_all(t, candidates, disposition, n - 1, now, config);
        let end = cycle::emit_all(t, candidates, disposition, n, now, config);
        let entry = candidates[n - 1];
        crate::domain::job::law_rank_determines_class(entry.class, entry.class);
        assert forall|k: int|
            0 <= k < n && (#[trigger] candidates[k]).class.rank() == c && candidates[k].job == id
                && disposition[k] is Pending implies end.ready[c].contains_key(id)
            && end.ready[c][id] == candidates[k].score by {
            if k < n - 1 {
                crate::domain::job::law_rank_determines_class(candidates[k].class, entry.class);
                assert(!(candidates[k].class == candidates[n - 1].class && candidates[k].job
                    == candidates[n - 1].job));
            }
        }
        if forall|k: int|
            0 <= k < n ==> !((#[trigger] candidates[k]).class.rank() == c && candidates[k].job
                == id) {
            assert(!(entry.class.rank() == c && entry.job == id));
        }
    }
}

/// What a cycle leaves queued is queued at the right score: a candidate that was put
/// back at the score it had in the cycle, anything else as before.
pub proof fn law_cycle_puts_candidates_back_at_their_current_scores(
    ready: Queues,
    jobs: Map<JobId, Job>,
    accounts: Accounts,
    slots: Seq<WorkerSlot>,
    running: Seq<RunningJob>,
    now: VirtualTime,
    config: CycleConfig,
    c: int,
    id: JobId,
)
    requires
        cycle_ready(ready, jobs),
        slots.len() <= slot::SLOT_SPACE,
        cycle::cycle_lands(ready, jobs, accounts, slots, running, now, config),
        0 <= c < ready.len(),
    ensures
        ({
            let plan = cycle::cycle_plan(ready, jobs, accounts, slots, running, now, config);
            let end = cycle::cycle_end(ready, jobs, accounts, slots, running, now, config);
            &&& forall|k: int|
                0 <= k < plan.candidates.len() && (#[trigger] plan.candidates[k]).class.rank() == c
                    && plan.candidates[k].job == id && plan.disposition[k] is Pending
                    ==> end.ready[c].contains_key(id) && end.ready[c][id]
                    == plan.candidates[k].score
            &&& (forall|k: int|
                0 <= k < plan.candidates.len() ==> !((#[trigger] plan.candidates[k]).class.rank()
                    == c && plan.candidates[k].job == id)) && ready[c].contains_key(id)
                ==> end.ready[c].contains_key(id) && end.ready[c][id] == ready[c][id]
        }),
{
    law_candidates_are_queued(ready, jobs, accounts, now, config);
    let plan = cycle::cycle_plan(ready, jobs, accounts, slots, running, now, config);
    let candidates = plan.candidates;
    let taken = ready_set::drained(ready, config.max_candidates as int);
    let left = ready_set::after_taking(ready, taken);
    ready_set::law_drain_is_determined(ready, config.max_candidates as int);
    ready_set::law_drain_takes_each_entry_once(ready, taken);
    lemma_emit_scores(
        Tick { ready: left, jobs, accounts },
        candidates,
        plan.disposition,
        candidates.len() as int,
        now,
        config,
        c,
        id,
    );
    if (forall|k: int|
        0 <= k < candidates.len() ==> !((#[trigger] candidates[k]).class.rank() == c
            && candidates[k].job == id)) && ready[c].contains_key(id) {
        if ready_set::takes(taken, c, id) {
            let m = choose|m: int|
                0 <= m < taken.len() && (#[trigger] taken[m]).class.rank() == c && taken[m].job
                    == id;
            let fresh = cycle::rescored(taken, jobs, accounts, now, config);
            ready_set::law_from_the_top_is_ordered(fresh);
            let at = cycle::lemma_position(fresh, candidates, m);
            assert(candidates[at].class.rank() == c && candidates[at].job == id);
        }
        assert(left[c].contains_key(id));
    }
}

/// A cycle leaves nobody waiting without cause. Up to some candidate, where packing
/// stops, every live one is placed on the lowest slot that had room when it was
/// reached. If packing stops short of the end, the budget is used up, or that
/// candidate, the head, fits nowhere. Behind a head that has a reservation, whoever is
/// placed keeps the head's start, and unless the budget runs out, whoever is left
/// pending was refused for cause: no slot had room, or the head would have had to wait.
pub proof fn law_cycle_leaves_nobody_waiting_without_cause(
    ready: Queues,
    jobs: Map<JobId, Job>,
    accounts: Accounts,
    slots: Seq<WorkerSlot>,
    running: Seq<RunningJob>,
    now: VirtualTime,
    config: CycleConfig,
) -> (stop: int)
    requires
        cycle_ready(ready, jobs),
        slots.len() <= slot::SLOT_SPACE,
    ensures
        ({
            let plan = cycle::cycle_plan(ready, jobs, accounts, slots, running, now, config);
            let candidates = plan.candidates;
            let packed = plan.decisions.take(plan.outcome.dispatched as int);
            let then = pack::charged_by(slots, packed, jobs);
            let filled = backfill::runs_of(
                plan.decisions.skip(plan.outcome.dispatched as int),
                jobs,
                now,
            );
            &&& candidates == cycle::candidates_of(ready, jobs, accounts, now, config)
            &&& plan.outcome.candidates == candidates.len()
            &&& plan.disposition.len() == candidates.len()
            &&& 0 <= stop <= candidates.len()
            &&& plan.outcome.dispatched <= plan.decisions.len()
            &&& plan.outcome.backfilled == plan.decisions.len() - plan.outcome.dispatched
            &&& plan.outcome.dispatched == pack::dispatched_within(plan.disposition, 0, stop)
            &&& forall|j: int|
                0 <= j < stop ==> #[trigger] plan.disposition[j] == (if jobs.contains_key(
                    candidates[j].job,
                ) {
                    Disposition::Dispatched
                } else {
                    Disposition::Dropped
                })
            &&& forall|j: int|
                0 <= j < stop && (#[trigger] plan.disposition[j]) is Dispatched ==> pack::placed_at(
                    candidates,
                    jobs,
                    slots,
                    packed,
                    j,
                    pack::dispatched_within(plan.disposition, 0, j) as int,
                )
            &&& plan.outcome.budget_exhausted ==> plan.outcome.dispatched
                >= config.budget.max_decisions || plan.outcome.dispatched
                >= config.budget.max_scanned
            &&& plan.outcome.head is None ==> {
                &&& plan.outcome.reservation is None
                &&& plan.outcome.backfilled == 0
                &&& plan.outcome.budget_exhausted <==> stop < candidates.len()
                &&& forall|j: int|
                    stop <= j < candidates.len() ==> (#[trigger] plan.disposition[j]) is Pending
            }
            &&& plan.outcome.head matches Some(head) ==> {
                &&& stop < candidates.len()
                &&& head == candidates[stop].job
                &&& jobs.contains_key(head)
                &&& !plan.outcome.budget_exhausted
                &&& plan.disposition[stop] is Pending
                &&& forall|s: int|
                    0 <= s < then.len() ==> !#[trigger] slot::fits_slot(then, s, jobs[head].request)
                &&& plan.outcome.reservation == backfill::reservation_of(
                    then,
                    running,
                    jobs[head].request,
                    now,
                )
                &&& plan.outcome.reservation is None ==> forall|j: int|
                    stop <= j < candidates.len() ==> (#[trigger] plan.disposition[j]) is Pending
                &&& plan.outcome.reservation matches Some(due) ==> {
                    let ahead = backfill::Ahead { request: jobs[head].request, due, running, now };
                    &&& forall|j: int|
                        stop < j < candidates.len() && (
                        #[trigger] plan.disposition[j]) is Dispatched ==> backfill::admitted_at(
                            candidates,
                            jobs,
                            ahead,
                            then,
                            filled,
                            j,
                            pack::dispatched_within(plan.disposition, stop + 1, j) as int,
                        )
                    &&& plan.outcome.backfilled < config.budget.max_decisions
                        && backfill::live_from(candidates, jobs, stop + 1)
                        < config.budget.max_scanned ==> {
                        &&& forall|j: int|
                            stop < j < candidates.len() ==> (
                            #[trigger] plan.disposition[j] is Dropped <==> !jobs.contains_key(
                                candidates[j].job,
                            ))
                        &&& forall|j: int|
                            stop < j < candidates.len() && (
                            #[trigger] plan.disposition[j]) is Pending ==> backfill::refused_at(
                                candidates,
                                jobs,
                                ahead,
                                then,
                                filled,
                                j,
                                pack::dispatched_within(plan.disposition, stop + 1, j) as int,
                            )
                    }
                }
            }
        }),
{
    law_candidates_are_queued(ready, jobs, accounts, now, config);
    let plan = cycle::cycle_plan(ready, jobs, accounts, slots, running, now, config);
    let candidates = plan.candidates;
    let pending = cycle::all_pending(candidates.len());
    let packed = cycle::packed_by(candidates, jobs, slots, config);
    let stop = pack::law_pack_places_in_turn_on_first_fits(
        candidates,
        jobs,
        config.budget,
        slots,
        pending,
    );
    let n = packed.placed.len() as int;
    assert(packed.placed.take(n) =~= packed.placed);
    pack::lemma_dispatched_count(candidates, jobs, config.budget, slots, pending, stop);
    match packed.outcome.head {
        None => {
            assert(plan.decisions.take(n) =~= packed.placed);
        },
        Some(h) => {
            let head = candidates[stop].job;
            let request = jobs[head].request;
            let (end, reservation) = backfill::backfill_pass(
                candidates,
                stop,
                jobs,
                packed.slots,
                running,
                now,
                config.budget,
                packed.disposition,
            );
            assert(plan.decisions.take(n) =~= packed.placed);
            assert(plan.decisions.skip(n) =~= backfill::placements(end.admitted));
            assert forall|j: int| stop < j < candidates.len() implies (
            #[trigger] packed.disposition[j]) is Pending by {}
            if let Some(due) = backfill::reservation_of(packed.slots, running, request, now) {
                let fresh = backfill::backfill_start(packed.slots, packed.disposition);
                let ahead = backfill::Ahead { request, due, running, now };
                backfill::law_backfill_refuses_only_for_cause(
                    candidates,
                    stop,
                    jobs,
                    packed.slots,
                    running,
                    now,
                    config.budget,
                    packed.disposition,
                    due,
                );
                backfill::law_backfill_admits_only_the_harmless(
                    candidates,
                    stop,
                    jobs,
                    packed.slots,
                    running,
                    now,
                    config.budget,
                    packed.disposition,
                    due,
                );
                assert(fresh.admitted =~= backfill::runs_of(
                    backfill::placements(fresh.admitted),
                    jobs,
                    now,
                ));
                backfill::lemma_admitted_are_runs(
                    candidates,
                    jobs,
                    config.budget,
                    ahead,
                    stop + 1,
                    fresh,
                );
                backfill::lemma_backfill_keeps_the_front(
                    candidates,
                    jobs,
                    config.budget,
                    ahead,
                    stop + 1,
                    fresh,
                );
            }
            pack::lemma_dispatched_within_agrees(packed.disposition, plan.disposition, 0, stop);
            assert forall|j: int| 0 <= j < stop && (
            #[trigger] plan.disposition[j]) is Dispatched implies pack::placed_at(
                candidates,
                jobs,
                slots,
                packed.placed,
                j,
                pack::dispatched_within(plan.disposition, 0, j) as int,
            ) by {
                assert(plan.disposition[j] == packed.disposition[j]);
                pack::lemma_dispatched_within_agrees(packed.disposition, plan.disposition, 0, j);
            }
        },
    }
    stop
}

/// A job is queued in its own class, at what it is worth at the time, under the factor
/// of its account; an account never seen counts in full.
pub proof fn law_jobs_are_queued_at_their_current_score(
    id: JobId,
    job: Job,
    accounts: Accounts,
    now: VirtualTime,
    config: CycleConfig,
)
    ensures
        ({
            let entry = cycle::queue_entry(id, job, accounts, now, config);
            let factor = if job.account@ < accounts.factors.len() {
                accounts.factors[job.account@ as int]
            } else {
                1_000_000
            };
            &&& entry.job == id
            &&& entry.class == job.priority_class
            &&& entry.score == priority::weighted_score(job, now, config.priority, factor)
        }),
{
    priority::law_score_is_bounded(job, now, config.priority, accounts.factor_of(job.account));
}

/// How a submit is answered: a job that is not live is unknown; one that was submitted
/// before is refused in its present state; an account out of range is refused; and then
/// the dependencies decide, as they do for `classification`.
pub proof fn law_how_a_submit_is_answered(id: JobId, jobs: Map<JobId, Job>)
    ensures
        !jobs.contains_key(id) ==> cycle::entry_verdict(id, jobs) == Err::<JobState, _>(
            LifecycleError::UnknownJob(id),
        ),
        jobs.contains_key(id) && jobs[id].state != JobState::Submitted ==> cycle::entry_verdict(
            id,
            jobs,
        ) == Err::<JobState, _>(LifecycleError::NotSubmitted { job: id, state: jobs[id].state }),
        jobs.contains_key(id) && jobs[id].state == JobState::Submitted && jobs[id].account@ >= 1_024
            ==> cycle::entry_verdict(id, jobs) == Err::<JobState, _>(
            LifecycleError::Account(AccountError(jobs[id].account)),
        ),
        jobs.contains_key(id) && jobs[id].state == JobState::Submitted && jobs[id].account@ < 1_024
            ==> cycle::entry_verdict(id, jobs) == (match eligibility::classification(
            id,
            jobs,
            jobs[id].deps@,
            0,
        ) {
            Ok(Readiness::Ready) => Ok(JobState::Ready),
            Ok(Readiness::Blocked) => Ok(JobState::Blocked),
            Ok(Readiness::Cancelled) => Ok(JobState::Cancelled),
            Err(error) => Err(LifecycleError::Dependency(error)),
        }),
{
}

/// A submit queues the job exactly when it becomes ready, at its current score and in its
/// own class, and changes no other entry; its account has a ledger from then on.
pub proof fn law_submit_queues_what_is_ready(
    st: State,
    jobs: Map<JobId, Job>,
    id: JobId,
    now: VirtualTime,
    config: CycleConfig,
    c: int,
    other: JobId,
)
    requires
        st.ready.len() == PriorityClass::COUNT,
        st.accounts.factors.len() == st.accounts.ledgers.len(),
        0 <= c < st.ready.len(),
    ensures
        ({
            let after = cycle::after_submit(st, id, jobs, now, config);
            let job = jobs[id];
            let queued = cycle::entry_verdict(id, jobs) == Ok::<JobState, LifecycleError>(
                JobState::Ready,
            );
            let factor = if job.account@ < st.accounts.factors.len() {
                st.accounts.factors[job.account@ as int]
            } else {
                1_000_000
            };
            &&& after.ready.len() == st.ready.len()
            &&& queued && c == job.priority_class.rank() && other == id ==> {
                &&& after.ready[c].contains_key(id)
                &&& after.ready[c][id] == priority::weighted_score(
                    job,
                    now,
                    config.priority,
                    factor,
                )
            }
            &&& !(queued && c == job.priority_class.rank() && other == id) ==> {
                &&& after.ready[c].contains_key(other) == st.ready[c].contains_key(other)
                &&& st.ready[c].contains_key(other) ==> after.ready[c][other]
                    == st.ready[c][other]
            }
            &&& cycle::entry_verdict(id, jobs) is Ok ==> job.account@ < after.accounts.ledgers.len()
            &&& forall|i: int|
                0 <= i < st.accounts.ledgers.len() ==> #[trigger] after.accounts.ledgers[i]
                    == st.accounts.ledgers[i]
        }),
{
    let job = jobs[id];
    let grown = st.accounts.grown((job.account@ + 1) as nat);
    crate::domain::job::law_rank_determines_class(job.priority_class, job.priority_class);
    law_jobs_are_queued_at_their_current_score(id, job, grown, now, config);
    fairshare::law_new_accounts_start_fresh(
        st.accounts,
        (job.account@ + 1) as nat,
        job.account@ as int,
    );
    let entry = cycle::queue_entry(id, job, grown, now, config);
    ready_set::law_entries_come_and_go_alone(st.ready, entry, c, other);
}

/// A call that moves a job along one edge is answered: an unknown handle as such, a move
/// that the life of a job does not allow with both ends of it, any other with success.
pub proof fn law_how_a_move_is_answered(id: JobId, jobs: Map<JobId, Job>, next: JobState)
    ensures
        !jobs.contains_key(id) ==> cycle::move_verdict(id, jobs, next) == Err::<(), _>(
            LifecycleError::UnknownJob(id),
        ),
        jobs.contains_key(id) && !jobs[id].state.has_edge(next) ==> cycle::move_verdict(
            id,
            jobs,
            next,
        ) == Err::<(), _>(
            LifecycleError::Transition(TransitionError { from: jobs[id].state, to: next }),
        ),
        jobs.contains_key(id) && jobs[id].state.has_edge(next) ==> cycle::move_verdict(
            id,
            jobs,
            next,
        ) is Ok,
{
}

/// A job goes back to the queue from a slot only: one that runs or is being evicted is
/// requeued, one being evicted is reported evicted, and any other is refused.
pub proof fn law_how_a_requeue_is_answered(id: JobId, jobs: Map<JobId, Job>)
    ensures
        cycle::requeue_verdict(id, jobs) is Ok <==> jobs.contains_key(id) && (jobs[id].state
            == JobState::Running || jobs[id].state == JobState::Preempted),
        cycle::preempted_verdict(id, jobs) is Ok <==> jobs.contains_key(id) && jobs[id].state
            == JobState::Preempted,
        !jobs.contains_key(id) ==> cycle::requeue_verdict(id, jobs) == Err::<(), _>(
            LifecycleError::UnknownJob(id),
        ) && cycle::preempted_verdict(id, jobs) == Err::<(), _>(LifecycleError::UnknownJob(id)),
{
}

/// One more eviction is counted as one more, up to the top of the range.
pub proof fn law_evictions_are_counted(count: u8)
    ensures
        count < 255 ==> cycle::one_more(count) == count + 1,
        count == 255 ==> cycle::one_more(count) == 255,
{
}

/// A job that leaves its slot no longer counts against its account: the account runs
/// that much less cpu, and no other account changes.
pub proof fn law_leaving_a_slot_ends_the_charge(
    accounts: Accounts,
    job: Job,
    now: VirtualTime,
    config: CycleConfig,
    i: int,
)
    requires
        0 <= i < accounts.ledgers.len(),
    ensures
        ({
            let after = cycle::released_by(accounts, job, now, config);
            &&& after.factors == accounts.factors
            &&& after.ledgers.len() == accounts.ledgers.len()
            &&& i != job.account@ ==> after.ledgers[i] == accounts.ledgers[i]
            &&& i == job.account@ ==> after.ledgers[i].running_cpu == (if accounts.ledgers[i].running_cpu
                >= job.request.cpu_millis {
                accounts.ledgers[i].running_cpu - job.request.cpu_millis
            } else {
                0
            })
            &&& i == job.account@ ==> after.ledgers[i].usage == accounts.ledgers[i].touched(
                now@,
                config.fairshare,
            ).usage
        }),
{
    fairshare::law_dispatch_and_release_move_running_cpu(
        accounts,
        job.account,
        job.request.cpu_millis,
        now,
        config.fairshare,
    );
}

/// Jobs that wake up are queued, each in its own class at its current score; nothing else
/// in the queues changes.
pub proof fn law_woken_jobs_are_queued(
    p: Progress,
    ids: Seq<JobId>,
    accounts: Accounts,
    now: VirtualTime,
    config: CycleConfig,
    c: int,
    id: JobId,
)
    requires
        p.ready.len() == PriorityClass::COUNT,
        0 <= c < p.ready.len(),
        ids.no_duplicates(),
        forall|k: int|
            0 <= k < ids.len() ==> p.jobs.contains_key(#[trigger] ids[k])
                && p.jobs[ids[k]].state is Blocked,
    ensures
        ({
            let end = cycle::promote_all(p, ids, accounts, now, config);
            let job = p.jobs[id];
            let factor = if job.account@ < accounts.factors.len() {
                accounts.factors[job.account@ as int]
            } else {
                1_000_000
            };
            &&& end.ready.len() == p.ready.len()
            &&& ids.contains(id) && c == job.priority_class.rank() ==> {
                &&& end.ready[c].contains_key(id)
                &&& end.ready[c][id] == priority::weighted_score(
                    job,
                    now,
                    config.priority,
                    factor,
                )
            }
            &&& !(ids.contains(id) && c == job.priority_class.rank()) ==> {
                &&& end.ready[c].contains_key(id) == p.ready[c].contains_key(id)
                &&& p.ready[c].contains_key(id) ==> end.ready[c][id] == p.ready[c][id]
            }
        }),
    decreases ids.len(),
{
    if ids.len() > 0 {
        let rest = ids.drop_last();
        let last = ids.last();
        let before = cycle::promote_all(p, rest, accounts, now, config);
        assert(rest.no_duplicates());
        assert forall|k: int| 0 <= k < rest.len() implies p.jobs.contains_key(#[trigger] rest[k])
            && p.jobs[rest[k]].state is Blocked by {
            assert(rest[k] == ids[k]);
        }
        lemma_promote_all(p, rest, accounts, now, config);
        law_woken_jobs_are_queued(p, rest, accounts, now, config, c, id);
        assert(ids[ids.len() - 1] == last);
        assert(!rest.contains(last));
        assert(before.jobs.dom().contains(last) == p.jobs.dom().contains(last));
        assert(before.jobs.contains_key(last));
        assert(ids.contains(id) == (rest.contains(id) || id == last)) by {
            if rest.contains(id) {
                let k = choose|k: int| 0 <= k < rest.len() && rest[k] == id;
                assert(ids[k] == id);
            }
            if ids.contains(id) {
                let k = choose|k: int| 0 <= k < ids.len() && ids[k] == id;
                if k < rest.len() {
                    assert(rest[k] == id);
                }
            }
        }
        let job = p.jobs[last];
        law_jobs_are_queued_at_their_current_score(last, job, accounts, now, config);
        ready_set::law_entries_come_and_go_alone(
            before.ready,
            cycle::queue_entry(last, job, accounts, now, config),
            c,
            id,
        );
    }
}

/// Jobs that are cancelled leave the queues: none that was ready stays in its queue, and
/// nothing else in the queues changes.
pub proof fn law_cancelled_jobs_leave_the_queues(
    p: Progress,
    ids: Seq<JobId>,
    c: int,
    id: JobId,
)
    requires
        p.ready.len() == PriorityClass::COUNT,
        0 <= c < p.ready.len(),
        ids.no_duplicates(),
        forall|k: int|
            0 <= k < ids.len() ==> p.jobs.contains_key(#[trigger] ids[k])
                && !p.jobs[ids[k]].state.terminal(),
    ensures
        ({
            let end = cycle::cancel_all(p, ids);
            let leaves = ids.contains(id) && p.jobs[id].state == JobState::Ready && c
                == p.jobs[id].priority_class.rank();
            &&& end.ready.len() == p.ready.len()
            &&& leaves ==> !end.ready[c].contains_key(id)
            &&& !leaves ==> {
                &&& end.ready[c].contains_key(id) == p.ready[c].contains_key(id)
                &&& p.ready[c].contains_key(id) ==> end.ready[c][id] == p.ready[c][id]
            }
        }),
    decreases ids.len(),
{
    if ids.len() > 0 {
        let rest = ids.drop_last();
        let last = ids.last();
        let before = cycle::cancel_all(p, rest);
        assert(rest.no_duplicates());
        assert forall|k: int| 0 <= k < rest.len() implies p.jobs.contains_key(#[trigger] rest[k])
            && !p.jobs[rest[k]].state.terminal() by {
            assert(rest[k] == ids[k]);
        }
        lemma_cancel_all(p, rest);
        law_cancelled_jobs_leave_the_queues(p, rest, c, id);
        assert(ids[ids.len() - 1] == last);
        assert(!rest.contains(last));
        assert(before.jobs.dom().contains(last) == p.jobs.dom().contains(last));
        assert(before.jobs.contains_key(last));
        assert(ids.contains(id) == (rest.contains(id) || id == last)) by {
            if rest.contains(id) {
                let k = choose|k: int| 0 <= k < rest.len() && rest[k] == id;
                assert(ids[k] == id);
            }
            if ids.contains(id) {
                let k = choose|k: int| 0 <= k < ids.len() && ids[k] == id;
                if k < rest.len() {
                    assert(rest[k] == id);
                }
            }
        }
        let job = p.jobs[last];
        crate::domain::job::law_rank_determines_class(job.priority_class, job.priority_class);
    }
}

} // verus!

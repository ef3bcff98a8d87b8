//! What the lifecycle calls and cycles keep, on concrete values.
use tasker::{
    AccountError, AccountId, Arena, CycleConfig, DependencyError, FairShareConfig, Job, JobId,
    JobState, Ledger, LifecycleError, PackBudget, PreemptConfig, PriorityClass, PriorityConfig,
    PriorityWeights, Readiness, ResourceRequest, Resources, RunningJob, Scheduler, SlotInventory,
    TransitionError, VirtualDuration, VirtualTime, MAX_ACCOUNTS,
};

fn config() -> CycleConfig {
    CycleConfig {
        priority: PriorityConfig::new(
            PriorityWeights { age: 1_000, qos: 1_000, fairshare: 1_000, size: 0 },
            VirtualDuration::from_secs(3_600),
            ResourceRequest::new(4_000, 0, 0),
        ),
        fairshare: FairShareConfig::default(),
        preempt: PreemptConfig::default(),
        budget: PackBudget::default(),
        max_candidates: 256,
    }
}

fn job(cpu: u32, class: PriorityClass, walltime: u64, deps: &[JobId]) -> Job {
    let mut job = Job::new(
        AccountId::new(0),
        class,
        VirtualTime::zero(),
        ResourceRequest::new(cpu, 0, 0),
        VirtualDuration::from_secs(walltime),
    );
    job.deps.extend_from_slice(deps);
    job
}

fn at(secs: u64) -> VirtualTime {
    VirtualTime::from_nanos(secs * 1_000_000_000)
}

fn state(jobs: &Arena<Job>, id: JobId) -> JobState {
    jobs.get(id).unwrap().state
}

#[test]
fn a_cancelled_job_is_dropped_from_the_ready_set() {
    let cfg = config();
    let mut jobs = Arena::new();
    let mut inventory = SlotInventory::from_uniform(1, Resources::new(4_000, 0, 0));
    let mut scheduler = Scheduler::with_slots(16);

    let mut ready = job(1_000, PriorityClass::Normal, 60, &[]);
    ready.try_transition(JobState::Ready).unwrap();
    let doomed = jobs.insert(ready);
    scheduler.enqueue(doomed, jobs.get(doomed).unwrap(), VirtualTime::zero(), &cfg);
    jobs.remove(doomed);

    let mut decisions = Vec::new();
    let outcome = scheduler.run_cycle(
        &mut jobs,
        &mut inventory,
        &[],
        VirtualTime::zero(),
        &cfg,
        &mut decisions,
    );

    assert_eq!(outcome.dispatched, 0);
    assert_eq!(scheduler.pending(), 0, "the stale entry is not reinserted");
}

#[test]
fn every_call_refuses_a_handle_nobody_has() {
    let cfg = config();
    let mut jobs: Arena<Job> = Arena::new();
    let mut s = Scheduler::new();
    let ghost = JobId::from_bits(5);
    let now = VirtualTime::zero();
    let unknown = Err(LifecycleError::UnknownJob(ghost));
    assert_eq!(s.submit(ghost, &mut jobs, now, &cfg).map(|_| ()), unknown);
    assert_eq!(s.restore_running(ghost, &mut jobs, now, &cfg), unknown);
    assert_eq!(s.preempt(ghost, &mut jobs), unknown);
    assert_eq!(s.requeue(ghost, &mut jobs, now, &cfg), unknown);
    assert_eq!(s.on_preempted(ghost, &mut jobs, now, &cfg), unknown);
    let mut list = vec![JobId::from_bits(77)];
    assert_eq!(s.on_completed(ghost, &mut jobs, now, &cfg, &mut list), unknown);
    assert_eq!(s.on_failed(ghost, &mut jobs, now, &cfg, &mut list), unknown);
    assert_eq!(s.cancel(ghost, &mut jobs, now, &cfg, &mut list), unknown);
    assert_eq!(list, vec![JobId::from_bits(77)], "a refused call leaves the list alone");
}

#[test]
fn each_refusal_names_its_reason() {
    let cfg = config();
    let mut jobs = Arena::new();
    let mut s = Scheduler::new();
    let now = VirtualTime::zero();

    let mut foreign = job(100, PriorityClass::Normal, 60, &[]);
    foreign.account = AccountId::new(MAX_ACCOUNTS);
    let id = jobs.insert(foreign);
    let past = LifecycleError::Account(AccountError(AccountId::new(MAX_ACCOUNTS)));
    assert_eq!(s.submit(id, &mut jobs, now, &cfg), Err(past));
    assert_eq!(s.set_shares(AccountId::new(MAX_ACCOUNTS), 2), Err(past));

    let missing = JobId::from_bits(1 << 40);
    let orphan = jobs.insert(job(100, PriorityClass::Normal, 60, &[missing]));
    let refusal = LifecycleError::Dependency(DependencyError { job: orphan, dependency: missing });
    assert_eq!(s.submit(orphan, &mut jobs, now, &cfg), Err(refusal));
    assert_eq!(state(&jobs, orphan), JobState::Submitted);

    let id = jobs.insert(job(100, PriorityClass::Normal, 60, &[]));
    let running = TransitionError { from: JobState::Submitted, to: JobState::Running };
    assert_eq!(
        s.restore_running(id, &mut jobs, now, &cfg),
        Err(LifecycleError::Transition(running))
    );
    assert_eq!(s.submit(id, &mut jobs, now, &cfg), Ok(JobState::Ready));
    assert_eq!(
        s.submit(id, &mut jobs, now, &cfg),
        Err(LifecycleError::NotSubmitted { job: id, state: JobState::Ready })
    );
    let requeued = TransitionError { from: JobState::Ready, to: JobState::Ready };
    assert_eq!(
        s.requeue(id, &mut jobs, now, &cfg),
        Err(LifecycleError::Transition(requeued))
    );
}

#[test]
fn a_job_is_not_requeued_before_it_ran() {
    let cfg = config();
    let mut jobs = Arena::new();
    let mut s = Scheduler::new();
    let now = VirtualTime::zero();
    let first = jobs.insert(job(100, PriorityClass::Normal, 60, &[]));
    let second = jobs.insert(job(100, PriorityClass::Normal, 60, &[first]));
    s.submit(first, &mut jobs, now, &cfg).unwrap();
    s.submit(second, &mut jobs, now, &cfg).unwrap();
    let fresh = jobs.insert(job(100, PriorityClass::Normal, 60, &[]));
    for (id, from) in [(second, JobState::Blocked), (fresh, JobState::Submitted)] {
        assert_eq!(
            s.requeue(id, &mut jobs, now, &cfg),
            Err(LifecycleError::Transition(TransitionError { from, to: JobState::Ready }))
        );
        assert_eq!(state(&jobs, id), from);
    }
    assert_eq!(s.pending(), 1);
}

#[test]
fn ended_jobs_refuse_every_further_call() {
    let cfg = config();
    let now = VirtualTime::zero();
    for end in [JobState::Completed, JobState::Failed, JobState::Cancelled] {
        let mut jobs = Arena::new();
        let mut s = Scheduler::new();
        let mut ended = job(100, PriorityClass::Normal, 60, &[]);
        ended.state = end;
        let id = jobs.insert(ended);
        let mut list = Vec::new();
        assert!(s.submit(id, &mut jobs, now, &cfg).is_err());
        assert!(s.restore_running(id, &mut jobs, now, &cfg).is_err());
        assert!(s.preempt(id, &mut jobs).is_err());
        assert!(s.requeue(id, &mut jobs, now, &cfg).is_err());
        assert!(s.on_preempted(id, &mut jobs, now, &cfg).is_err());
        assert!(s.on_completed(id, &mut jobs, now, &cfg, &mut list).is_err());
        assert!(s.on_failed(id, &mut jobs, now, &cfg, &mut list).is_err());
        assert!(s.cancel(id, &mut jobs, now, &cfg, &mut list).is_err());
        assert_eq!(state(&jobs, id), end);
    }
}

#[test]
fn a_diamond_wakes_once_both_arms_are_done() {
    let cfg = config();
    let mut jobs = Arena::new();
    let mut s = Scheduler::new();
    let now = VirtualTime::zero();
    let top = jobs.insert(job(100, PriorityClass::Normal, 60, &[]));
    let left = jobs.insert(job(100, PriorityClass::Normal, 60, &[top]));
    let right = jobs.insert(job(100, PriorityClass::Normal, 60, &[top, top]));
    let bottom = jobs.insert(job(100, PriorityClass::Normal, 60, &[left, right]));
    for id in [top, left, right, bottom] {
        s.submit(id, &mut jobs, now, &cfg).unwrap();
    }
    let mut promoted = Vec::new();
    s.restore_running(top, &mut jobs, now, &cfg).unwrap();
    s.on_completed(top, &mut jobs, now, &cfg, &mut promoted).unwrap();
    assert_eq!(promoted, vec![left, right]);
    s.restore_running(left, &mut jobs, now, &cfg).unwrap();
    s.on_completed(left, &mut jobs, now, &cfg, &mut promoted).unwrap();
    assert!(promoted.is_empty());
    assert_eq!(state(&jobs, bottom), JobState::Blocked);
    s.restore_running(right, &mut jobs, now, &cfg).unwrap();
    s.on_completed(right, &mut jobs, now, &cfg, &mut promoted).unwrap();
    assert_eq!(promoted, vec![bottom]);
    assert_eq!(state(&jobs, bottom), JobState::Ready);
    assert_eq!(s.pending(), 1);
}

#[test]
fn a_cascade_spares_jobs_that_depend_on_something_else() {
    let cfg = config();
    let mut jobs = Arena::new();
    let mut s = Scheduler::new();
    let now = VirtualTime::zero();
    let bad = jobs.insert(job(100, PriorityClass::Normal, 60, &[]));
    let good = jobs.insert(job(100, PriorityClass::Normal, 60, &[]));
    let child = jobs.insert(job(100, PriorityClass::Normal, 60, &[bad, good]));
    let grandchild = jobs.insert(job(100, PriorityClass::Normal, 60, &[child]));
    let other = jobs.insert(job(100, PriorityClass::Normal, 60, &[good]));
    for id in [bad, good, child, grandchild, other] {
        s.submit(id, &mut jobs, now, &cfg).unwrap();
    }
    let mut cancelled = Vec::new();
    s.cancel(bad, &mut jobs, now, &cfg, &mut cancelled).unwrap();
    cancelled.sort_unstable();
    assert_eq!(cancelled, vec![child, grandchild]);
    assert_eq!(state(&jobs, bad), JobState::Cancelled);
    assert_eq!(state(&jobs, child), JobState::Cancelled);
    assert_eq!(state(&jobs, grandchild), JobState::Cancelled);
    assert_eq!(state(&jobs, other), JobState::Blocked);
    // What is left still wakes.
    let mut promoted = Vec::new();
    s.restore_running(good, &mut jobs, now, &cfg).unwrap();
    s.on_completed(good, &mut jobs, now, &cfg, &mut promoted).unwrap();
    assert_eq!(promoted, vec![other]);
}

#[test]
fn a_check_answers_as_the_submit_will() {
    let cfg = config();
    let mut jobs = Arena::new();
    let mut s = Scheduler::new();
    let now = VirtualTime::zero();
    let open = jobs.insert(job(100, PriorityClass::Normal, 60, &[]));
    s.submit(open, &mut jobs, now, &cfg).unwrap();
    let next = jobs.next_id();
    for (deps, want) in [
        (vec![], Ok(Readiness::Ready)),
        (vec![open], Ok(Readiness::Blocked)),
        (
            vec![next],
            Err(LifecycleError::Dependency(DependencyError { job: next, dependency: next })),
        ),
    ] {
        let candidate = job(100, PriorityClass::Normal, 60, &deps);
        assert_eq!(s.check_submit(next, &candidate, &jobs), want);
        let mut later = jobs_with(&jobs, candidate);
        let mut scheduler = s.clone();
        let got = scheduler.submit(next, &mut later, now, &cfg);
        assert_eq!(got.is_ok(), want.is_ok());
        if let Err(error) = got {
            assert_eq!(Err(error), want);
        }
    }
}

/// A copy of `jobs` with one more job in it.
fn jobs_with(jobs: &Arena<Job>, extra: Job) -> Arena<Job> {
    let mut copy = Arena::new();
    for (_, job) in jobs.iter() {
        copy.insert(job.clone());
    }
    copy.insert(extra);
    copy
}

#[test]
fn a_cycle_never_delays_its_head() {
    let cfg = config();
    let mut jobs = Arena::new();
    let mut s = Scheduler::new();
    let now = VirtualTime::zero();
    let mut inventory = SlotInventory::from_uniform(2, Resources::new(4_000, 0, 0));
    let resources = Resources::new(3_000, 0, 0);
    let mut running = Vec::new();
    for (slot, ends) in [(0, 100), (1, 200)] {
        inventory.try_allocate(slot, &resources).unwrap();
        let mut busy = job(3_000, PriorityClass::Normal, ends, &[]);
        busy.state = JobState::Running;
        let id = jobs.insert(busy);
        running.push(RunningJob { job: id, slot, resources, ends_at: at(ends) });
    }
    let head = jobs.insert(job(2_000, PriorityClass::Urgent, 60, &[]));
    let short = jobs.insert(job(1_000, PriorityClass::Normal, 100, &[]));
    let harmless = jobs.insert(job(1_000, PriorityClass::Low, 150, &[]));
    for id in [head, short, harmless] {
        s.submit(id, &mut jobs, now, &cfg).unwrap();
    }
    let mut decisions = Vec::new();
    let outcome = s.run_cycle(&mut jobs, &mut inventory, &running, now, &cfg, &mut decisions);
    assert_eq!(outcome.head, Some(head));
    assert_eq!(outcome.reservation, Some(at(100)));
    // The short one ends by then; the long one leaves room beside the head's slot.
    assert_eq!(outcome.backfilled, 2);
    assert_eq!(state(&jobs, head), JobState::Ready);
    assert_eq!(state(&jobs, short), JobState::Running);
    assert_eq!(state(&jobs, harmless), JobState::Running);
    assert_eq!(s.pending(), 1);
    assert_eq!(decisions[0].slot, 0);
    assert_eq!(decisions[1].slot, 1);
}

#[test]
fn what_does_not_run_is_still_queued() {
    let cfg = config();
    let mut jobs = Arena::new();
    let mut s = Scheduler::with_slots(32);
    let now = VirtualTime::zero();
    let mut inventory = SlotInventory::from_uniform(1, Resources::new(1_000, 0, 0));
    let mut ids = Vec::new();
    for n in 0..20 {
        let class = PriorityClass::all()[n % 4];
        let id = jobs.insert(job(300, class, 60, &[]));
        s.submit(id, &mut jobs, now, &cfg).unwrap();
        ids.push(id);
    }
    let mut decisions = Vec::new();
    let outcome = s.run_cycle(&mut jobs, &mut inventory, &[], now, &cfg, &mut decisions);
    assert_eq!(outcome.dispatched, 3);
    assert_eq!(s.pending(), 17);
    let running = ids.iter().filter(|id| state(&jobs, **id) == JobState::Running).count();
    assert_eq!(running, 3);
    for decision in &decisions {
        let job = jobs.get(decision.job).unwrap();
        assert_eq!(job.priority_class, PriorityClass::Urgent);
        assert!(s.withdraw(PriorityClass::Urgent, decision.job) == false);
    }
}

#[test]
fn releasing_returns_the_cpu_a_dispatch_took() {
    let cfg = config();
    let mut jobs = Arena::new();
    let mut s = Scheduler::new();
    let id = jobs.insert(job(700, PriorityClass::Normal, 60, &[]));
    s.submit(id, &mut jobs, VirtualTime::zero(), &cfg).unwrap();
    s.restore_running(id, &mut jobs, at(1), &cfg).unwrap();
    assert_eq!(s.fairshare().ledger(AccountId::new(0)).unwrap().running_cpu, 700);
    s.preempt(id, &mut jobs).unwrap();
    assert_eq!(s.fairshare().ledger(AccountId::new(0)).unwrap().running_cpu, 700);
    s.on_preempted(id, &mut jobs, at(2), &cfg).unwrap();
    assert_eq!(s.fairshare().ledger(AccountId::new(0)).unwrap().running_cpu, 0);
    assert_eq!(jobs.get(id).unwrap().preemptions, 1);
    assert_eq!(s.pending(), 1);
}

#[test]
fn too_many_ledgers_are_refused() {
    let mut s = Scheduler::new();
    let ledgers = vec![Ledger::default(); MAX_ACCOUNTS as usize];
    assert_eq!(s.restore_ledgers(ledgers), Ok(()));
    assert_eq!(s.fairshare().len(), MAX_ACCOUNTS as usize);
    let ledgers = vec![Ledger::default(); MAX_ACCOUNTS as usize + 1];
    assert_eq!(
        s.restore_ledgers(ledgers),
        Err(LifecycleError::Account(AccountError(AccountId::new(MAX_ACCOUNTS))))
    );
    assert_eq!(s.fairshare().len(), MAX_ACCOUNTS as usize);
}

#[test]
fn a_cloned_scheduler_goes_its_own_way() {
    let cfg = config();
    let mut jobs = Arena::new();
    let mut s = Scheduler::new();
    let now = VirtualTime::zero();
    let id = jobs.insert(job(100, PriorityClass::High, 60, &[]));
    s.submit(id, &mut jobs, now, &cfg).unwrap();
    let copy = s.clone();
    assert!(s.withdraw(PriorityClass::High, id));
    assert_eq!(s.pending(), 0);
    assert_eq!(copy.pending(), 1);
}

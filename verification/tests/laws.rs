//! What the laws say, on concrete values.
use tasker::{
    reservation_time, score, AccountId, Arena, BackfillScratch, CycleConfig, FairShare,
    FairShareConfig, Job, JobId, JobState, PackBudget, PreemptConfig, PriorityClass,
    PriorityConfig, PriorityHeap, PriorityWeights, ReadySet, ResourceRequest, Resources,
    Scheduler, SlotInventory, VirtualDuration, VirtualTime, FACTOR_SCALE,
};

fn config() -> CycleConfig {
    CycleConfig {
        priority: PriorityConfig::new(
            PriorityWeights { age: 10, qos: 20, fairshare: 30, size: 40 },
            VirtualDuration::from_secs(100),
            ResourceRequest::new(4_000, 0, 0),
        ),
        fairshare: FairShareConfig::default(),
        preempt: PreemptConfig::default(),
        budget: PackBudget::default(),
        max_candidates: 64,
    }
}

fn job(class: PriorityClass, cpu: u32) -> Job {
    Job::new(
        AccountId::new(0),
        class,
        VirtualTime::zero(),
        ResourceRequest::new(cpu, 0, 0),
        VirtualDuration::from_secs(60),
    )
}

fn at(millis: u64) -> VirtualTime {
    VirtualTime::from_nanos(millis * 1_000_000)
}

#[test]
fn fitting_is_a_partial_order() {
    let small = Resources::new(1, 2, 3);
    let large = Resources::new(4, 5, 6);
    let aside = Resources::new(5, 1, 3);
    assert!(small.fits_within(&small));
    assert!(small.fits_within(&large) && !large.fits_within(&small));
    assert!(!aside.fits_within(&small) && !small.fits_within(&aside));
    let sum = small.checked_add(&aside).unwrap();
    assert!(small.fits_within(&sum) && aside.fits_within(&sum));
}

#[test]
fn no_state_leads_to_itself_and_only_ended_ones_lead_nowhere() {
    for state in JobState::all() {
        assert!(!state.can_transition_to(state));
        let leads = JobState::all().iter().any(|next| state.can_transition_to(*next));
        assert_eq!(state.is_terminal(), !leads);
    }
}

#[test]
fn a_handle_is_its_index_and_generation() {
    let id = JobId::from_bits(0x0000_0007_0000_0003);
    assert_eq!((id.index(), id.generation()), (3, 7));
    assert_eq!(JobId::from_bits(id.to_bits()), id);
}

#[test]
fn generations_only_rise() {
    let mut arena = Arena::new();
    let first = arena.insert('a');
    let mut issued = vec![first];
    for _ in 0..50 {
        let last = *issued.last().unwrap();
        arena.remove(last);
        let next = arena.insert('b');
        assert_eq!(next.index(), last.index());
        assert_eq!(next.generation(), last.generation() + 1);
        issued.push(next);
    }
    for stale in &issued[..50] {
        assert!(arena.get(*stale).is_none());
    }
    assert!(!arena.is_empty());
}

#[test]
fn first_fit_allocates_and_fits_ever() {
    let mut inventory = SlotInventory::from_capacities(&[
        Resources::new(500, 0, 0),
        Resources::new(2_000, 0, 1),
    ]);
    let request = Resources::new(1_500, 0, 0);
    assert!(inventory.can_ever_fit(&request));
    let slot = inventory.first_fit(&request).unwrap();
    assert_eq!(slot, 1);
    inventory.try_allocate(slot, &request).unwrap();
    assert_eq!(inventory.first_fit(&request), None);
    assert!(inventory.can_ever_fit(&request));
    // A slot that grows counts from then on.
    assert!(!inventory.can_ever_fit(&Resources::new(9_000, 0, 0)));
    inventory.set_capacity(0, Resources::new(9_000, 0, 0)).unwrap();
    assert!(inventory.can_ever_fit(&Resources::new(9_000, 0, 0)));
}

#[test]
fn a_greater_factor_never_lowers_the_score() {
    let cfg = config();
    let waiting = job(PriorityClass::Normal, 1_000);
    let mut previous = 0;
    for factor in [0, 1, 500_000, FACTOR_SCALE, FACTOR_SCALE + 1] {
        let now = score(&waiting, at(5_000), &cfg.priority, factor);
        assert!(now >= previous);
        assert!(now <= 4 * FACTOR_SCALE * u64::from(u32::MAX));
        previous = now;
    }
}

#[test]
fn a_request_that_fits_is_reserved_now() {
    let inventory = SlotInventory::from_uniform(1, Resources::new(4_000, 0, 0));
    let mut scratch = BackfillScratch::new();
    let now = at(7);
    let fits = Resources::new(4_000, 0, 0);
    assert_eq!(reservation_time(&fits, &inventory, &[], now, &mut scratch), Some(now));
    let never = Resources::new(4_001, 0, 0);
    assert_eq!(reservation_time(&never, &inventory, &[], now, &mut scratch), None);
}

#[test]
fn touching_in_between_loses_no_time() {
    let cfg = FairShareConfig::new(VirtualDuration::from_nanos(1_024 * 3_000_000));
    let account = AccountId::new(0);
    let build = |stops: &[u64]| {
        let mut fs = FairShare::new();
        fs.ensure(account).unwrap();
        fs.on_dispatch(account, 100, VirtualTime::zero(), &cfg);
        for stop in stops {
            fs.refresh(VirtualTime::from_nanos(*stop), &cfg);
        }
        let ledger = *fs.ledger(account).unwrap();
        (ledger.accrued_to(), ledger.decayed_to())
    };
    let end = 100_000_000;
    let stops: Vec<u64> = (0..=end).step_by(700_000).chain([end]).collect();
    assert_eq!(build(&stops), build(&[end]));
    assert_eq!(build(&[end, end]), build(&[end]));
    assert_eq!(
        build(&[end]),
        (VirtualTime::from_nanos(100_000_000), VirtualTime::from_nanos(99_000_000))
    );
}

#[test]
fn replaying_a_dispatch_is_dispatching() {
    let cfg = config();
    let now = at(1_000);
    let mut jobs = Arena::new();
    let mut other_jobs = Arena::new();
    let id = jobs.insert(job(PriorityClass::High, 700));
    assert_eq!(other_jobs.insert(job(PriorityClass::High, 700)), id);
    let mut by_cycle = Scheduler::new();
    let mut by_replay = Scheduler::new();
    by_cycle.submit(id, &mut jobs, now, &cfg).unwrap();
    by_replay.submit(id, &mut other_jobs, now, &cfg).unwrap();

    let mut inventory = SlotInventory::from_uniform(1, Resources::new(1_000, 0, 0));
    let mut decisions = Vec::new();
    by_cycle.run_cycle(&mut jobs, &mut inventory, &[], now, &cfg, &mut decisions);
    by_replay.restore_running(id, &mut other_jobs, now, &cfg).unwrap();
    assert!(by_replay.restore_running(id, &mut other_jobs, now, &cfg).is_err());

    assert_eq!(jobs.get(id).unwrap().state, JobState::Running);
    assert_eq!(other_jobs.get(id).unwrap().state, JobState::Running);
    assert_eq!(by_cycle.pending(), by_replay.pending());
    let account = AccountId::new(0);
    assert_eq!(
        by_cycle.fairshare().ledger(account).unwrap().running_cpu,
        by_replay.fairshare().ledger(account).unwrap().running_cpu
    );
}

#[test]
fn an_index_can_be_queued_again_after_its_stale_entry_is_dropped() {
    let cfg = config();
    let now = at(0);
    let mut jobs = Arena::new();
    let mut s = Scheduler::new();
    let mut inventory = SlotInventory::from_uniform(1, Resources::new(1_000, 0, 0));
    let stale = jobs.insert(job(PriorityClass::Low, 100));
    s.submit(stale, &mut jobs, now, &cfg).unwrap();
    jobs.remove(stale);
    let fresh = jobs.insert(job(PriorityClass::Urgent, 100));
    assert_eq!(fresh.index(), stale.index());
    // Another class queue: the stale entry is in no one's way.
    s.submit(fresh, &mut jobs, now, &cfg).unwrap();
    let mut decisions = Vec::new();
    s.run_cycle(&mut jobs, &mut inventory, &[], now, &cfg, &mut decisions);
    assert_eq!(decisions.len(), 1);
    assert_eq!(decisions[0].job, fresh);
    assert_eq!(s.pending(), 0);
}

#[test]
fn a_walk_lists_the_live_entries_by_rising_index() {
    let mut arena = Arena::new();
    let issued: Vec<JobId> = (0..6).map(|n: u32| arena.insert(n * 10)).collect();
    arena.remove(issued[1]);
    arena.remove(issued[4]);
    // Reuses the slot vacated last.
    let reused = arena.insert(99);
    assert_eq!(reused.index(), issued[4].index());

    let listed: Vec<(JobId, u32)> = arena.iter().into_iter().map(|(id, v)| (id, *v)).collect();
    assert_eq!(
        listed,
        vec![(issued[0], 0), (issued[2], 20), (issued[3], 30), (reused, 99), (issued[5], 50)]
    );
    assert_eq!(listed.len(), arena.len());
    for id in issued.iter().chain([&reused]) {
        assert_eq!(arena.contains(*id), listed.iter().any(|(other, _)| other == id));
    }
    assert!(listed.windows(2).all(|pair| pair[0].0.index() < pair[1].0.index()));
}

#[test]
fn raw_numbers_determine_accounts_and_spans() {
    assert_eq!(AccountId::new(7), AccountId::new(AccountId::new(7).get()));
    assert_ne!(AccountId::new(7), AccountId::new(8));
    assert_eq!(VirtualDuration::from_nanos(1_000_000_000), VirtualDuration::from_secs(1));
    assert_ne!(VirtualDuration::from_nanos(1), VirtualDuration::from_nanos(2));
}

#[test]
fn a_cleared_heap_behaves_as_a_new_one() {
    let id = |n: u64| JobId::from_bits(n);
    let mut cleared = PriorityHeap::new();
    for n in 0..9 {
        cleared.push(id(n), n * 7 % 5 * 10);
    }
    cleared.pop_max();
    cleared.clear();
    assert_eq!((cleared.len(), cleared.is_empty(), cleared.peek_max()), (0, true, None));
    assert!((0..9).all(|n| !cleared.contains(id(n))));

    let mut fresh = PriorityHeap::new();
    for heap in [&mut cleared, &mut fresh] {
        assert!(!heap.update(id(3), 5));
        assert!(!heap.remove(id(4)));
        assert_eq!(heap.pop_max(), None);
        // An index that was taken before goes to another handle.
        let reissued = JobId::from_bits((1 << 32) + 2);
        heap.push(reissued, 10);
        heap.push(id(5), 10);
        heap.push(id(8), 30);
        assert!(heap.update(id(8), 1));
        assert!(heap.remove(id(5)));
        assert_eq!(heap.len(), 2);
        assert_eq!(heap.pop_max(), Some((reissued, 10)));
        assert_eq!(heap.pop_max(), Some((id(8), 1)));
        assert_eq!(heap.pop_max(), None);
    }
}

#[test]
fn a_cleared_ready_set_behaves_as_a_new_one() {
    let id = |n: u64| JobId::from_bits(n);
    let mut cleared = ReadySet::new();
    for (n, class) in PriorityClass::all().into_iter().enumerate() {
        cleared.insert(class, id(n as u64), 100);
    }
    cleared.clear();
    assert_eq!((cleared.len(), cleared.is_empty(), cleared.peek_next()), (0, true, None));

    let mut fresh = ReadySet::new();
    let mut drains = Vec::new();
    for set in [&mut cleared, &mut fresh] {
        assert!(!set.remove(PriorityClass::Urgent, id(3)));
        assert_eq!(set.pop_next(), None);
        set.insert(PriorityClass::Low, id(3), 900);
        set.insert(PriorityClass::High, id(1), 5);
        set.insert(PriorityClass::High, id(0), 5);
        let mut drained = Vec::new();
        set.drain_ordered_into(&mut drained, 2);
        assert_eq!(drained.iter().map(|e| e.job).collect::<Vec<_>>(), vec![id(0), id(1)]);
        assert_eq!(set.len(), 1);
        drains.push(drained);
    }
    assert_eq!(drains[0], drains[1]);
}

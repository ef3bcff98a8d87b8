//! Long pseudo-random runs held against naive models.
use std::collections::{BTreeMap, BTreeSet};
use tasker::{
    decay_factor, easy_backfill, plan_preemption, reservation_time, score, AccountId, Arena,
    BackfillScratch, CapacityError, DependencyTracker, DispatchDecision, Disposition, FairShare,
    FairShareConfig, Job, JobId, JobState, OrderKey, PackBudget, PreemptConfig, PriorityClass,
    PriorityConfig, PriorityHeap, PriorityWeights, Readiness, ReadyEntry, ReadySet,
    ResourceRequest, Resources, RunningJob, SlotInventory, SlotState, VirtualDuration, VirtualTime,
    DECAY_ONE, FACTOR_SCALE,
};

const SECOND: u64 = 1_000_000_000;

struct Numbers(u64);

impl Numbers {
    fn below(&mut self, bound: u64) -> u64 {
        self.0 = self.0.wrapping_mul(6_364_136_223_846_793_005).wrapping_add(1_442_695_040_888_963_407);
        (self.0 >> 24) % bound
    }
}

fn job(class: PriorityClass, cpu: u32, walltime: u64) -> Job {
    Job::new(
        AccountId::new(0),
        class,
        VirtualTime::zero(),
        ResourceRequest::new(cpu, 0, 0),
        VirtualDuration::from_secs(walltime),
    )
}

#[test]
fn stale_handles_never_resolve() {
    let mut numbers = Numbers(1);
    let mut arena: Arena<u64> = Arena::new();
    let mut live: Vec<(JobId, u64)> = Vec::new();
    let mut dead: Vec<JobId> = Vec::new();
    for step in 0..2_000 {
        if numbers.below(2) == 0 {
            let predicted = arena.next_id();
            let id = arena.insert(step);
            assert_eq!(id, predicted);
            live.push((id, step));
        } else if !live.is_empty() {
            let n = numbers.below(live.len() as u64) as usize;
            let (id, value) = live.remove(n);
            assert_eq!(arena.remove(id), Some(value));
            dead.push(id);
        }
        assert_eq!(arena.len(), live.len());
    }
    for id in &dead {
        assert!(arena.get(*id).is_none());
    }
    for (id, value) in &live {
        assert_eq!(arena.get(*id), Some(value));
    }
    // A snapshot of the slots reproduces all of it.
    let slots: Vec<SlotState<u64>> = arena
        .slots()
        .into_iter()
        .map(|slot| match slot {
            SlotState::Occupied { generation, value } => {
                SlotState::Occupied { generation, value: *value }
            }
            SlotState::Vacant { generation, next_free } => {
                SlotState::Vacant { generation, next_free }
            }
        })
        .collect();
    let restored = Arena::from_parts(slots, arena.free_head()).unwrap();
    assert_eq!(restored.iter(), arena.iter());
    assert_eq!(restored.next_id(), arena.next_id());
}

#[test]
fn heap_matches_a_naive_model() {
    let mut numbers = Numbers(2);
    let mut heap = PriorityHeap::with_slots(64);
    let mut model: BTreeMap<u64, u64> = BTreeMap::new();
    for _ in 0..4_000 {
        let bits = numbers.below(64);
        let id = JobId::from_bits(bits);
        let points = numbers.below(40);
        match numbers.below(4) {
            0 => {
                heap.push(id, points);
                model.insert(bits, points);
            }
            1 => {
                let present = heap.update(id, points);
                assert_eq!(present, model.contains_key(&bits));
                if present {
                    model.insert(bits, points);
                }
            }
            2 => assert_eq!(heap.remove(id), model.remove(&bits).is_some()),
            _ => {
                let want = model
                    .iter()
                    .map(|(bits, points)| OrderKey::new(*points, JobId::from_bits(*bits)))
                    .max();
                let want = want.map(|key| (key.job(), key.score()));
                assert_eq!(heap.peek_max(), want);
                assert_eq!(heap.pop_max(), want);
                if let Some((job, _)) = want {
                    model.remove(&job.to_bits());
                }
            }
        }
        assert_eq!(heap.len(), model.len());
        assert_eq!(heap.contains(id), model.contains_key(&bits));
    }
    let copy = heap.clone();
    let mut previous: Option<OrderKey> = None;
    while let Some((job, points)) = heap.pop_max() {
        let key = OrderKey::new(points, job);
        if let Some(previous) = previous {
            assert!(previous >= key);
        }
        previous = Some(key);
    }
    assert_eq!(copy.len(), model.len());
}

#[test]
fn draining_goes_by_class_then_score_then_age() {
    let mut numbers = Numbers(3);
    let mut set = ReadySet::new();
    let mut entries = Vec::new();
    for bits in 0..200 {
        let class = PriorityClass::all()[numbers.below(4) as usize];
        let points = numbers.below(10);
        set.insert(class, JobId::from_bits(bits), points);
        entries.push(ReadyEntry { class, job: JobId::from_bits(bits), score: points });
    }
    entries.sort_by_key(|e| {
        (3 - e.class.ordinal(), u64::MAX - e.score, e.job.to_bits())
    });
    let mut taken = Vec::new();
    set.drain_ordered_into(&mut taken, 150);
    assert_eq!(taken, entries[..150].to_vec());
    assert_eq!(set.len(), 50);
    for entry in &taken {
        set.reinsert(*entry);
    }
    set.drain_ordered_into(&mut taken, usize::MAX);
    assert_eq!(taken, entries);
    assert!(set.is_empty());
}

#[test]
fn order_keys_are_totally_ordered() {
    let mut numbers = Numbers(4);
    let keys: Vec<OrderKey> = (0..40)
        .map(|_| OrderKey::new(numbers.below(5), JobId::from_bits(numbers.below(8))))
        .collect();
    for a in &keys {
        assert!(!(a < a));
        for b in &keys {
            assert_eq!(a == b, a.score() == b.score() && a.job() == b.job());
            assert_eq!(u8::from(a < b) + u8::from(a == b) + u8::from(a > b), 1);
            for c in &keys {
                if a < b && b < c {
                    assert!(a < c);
                }
            }
        }
    }
}

#[test]
fn waiting_a_quantum_strictly_raises_the_score() {
    let horizon = 3_600 * SECOND;
    let config = PriorityConfig::new(
        PriorityWeights { age: 1_000, qos: 1_000, fairshare: 0, size: 100 },
        VirtualDuration::from_nanos(horizon),
        ResourceRequest::new(4_000, 8 << 30, 2),
    );
    let quantum = config.age_quantum().as_nanos();
    let mut numbers = Numbers(5);
    for _ in 0..500 {
        let class = PriorityClass::all()[numbers.below(4) as usize];
        let waiting = job(class, numbers.below(4_000) as u32, 60);
        let elapsed = numbers.below(horizon / 2);
        let before = score(&waiting, VirtualTime::from_nanos(elapsed), &config, 0);
        let after = score(&waiting, VirtualTime::from_nanos(elapsed + quantum), &config, 0);
        assert_eq!(after, before + 1_000);
        let much_later = score(&waiting, VirtualTime::from_nanos(elapsed * 9), &config, 0);
        assert!(much_later >= before);
    }
}

#[test]
fn the_tracker_promotes_what_a_full_scan_would() {
    let mut numbers = Numbers(6);
    for _ in 0..60 {
        let n = 2 + numbers.below(22) as usize;
        let mut edges = Vec::new();
        for _ in 0..numbers.below(2 * n as u64) {
            let to = 1 + numbers.below(n as u64 - 1) as usize;
            edges.push((numbers.below(to as u64) as usize, to));
        }
        let mut arena: Arena<Job> = Arena::new();
        let mut tracker = DependencyTracker::with_slots(n);
        let mut ids: Vec<JobId> = Vec::new();
        for node in 0..n {
            let mut waiting = job(PriorityClass::Normal, 1, 1);
            for (from, _) in edges.iter().filter(|(_, to)| *to == node) {
                waiting.deps.push(ids[*from]);
            }
            let id = arena.insert(waiting);
            ids.push(id);
            let next = match tracker.register(id, arena.get(id).unwrap(), &arena).unwrap() {
                Readiness::Ready => JobState::Ready,
                Readiness::Blocked => JobState::Blocked,
                Readiness::Cancelled => unreachable!(),
            };
            arena.get_mut(id).unwrap().try_transition(next).unwrap();
        }
        let mut done: BTreeSet<usize> = BTreeSet::new();
        while done.len() < n {
            let node = numbers.below(n as u64) as usize;
            if done.contains(&node) || arena.get(ids[node]).unwrap().state != JobState::Ready {
                continue;
            }
            let finished = arena.get_mut(ids[node]).unwrap();
            finished.try_transition(JobState::Running).unwrap();
            finished.try_transition(JobState::Completed).unwrap();
            done.insert(node);
            let mut promoted = Vec::new();
            tracker.on_completed(ids[node], &mut promoted);
            let mut want: Vec<JobId> = (0..n)
                .filter(|m| arena.get(ids[*m]).unwrap().state == JobState::Blocked)
                .filter(|m| edges.iter().all(|(from, to)| to != m || done.contains(from)))
                .map(|m| ids[m])
                .collect();
            want.sort_unstable();
            let mut got = promoted.clone();
            got.sort_unstable();
            assert_eq!(got, want);
            for id in promoted {
                arena.get_mut(id).unwrap().try_transition(JobState::Ready).unwrap();
            }
        }
    }
}

#[test]
fn allocation_never_exceeds_capacity() {
    let mut numbers = Numbers(7);
    let mut inventory = SlotInventory::from_uniform(4, Resources::new(4_000, 8 << 30, 2));
    let mut refused = 0;
    for _ in 0..3_000 {
        let slot = numbers.below(6) as u32;
        let amount = Resources::new(
            numbers.below(6_000) as u32,
            numbers.below(12 << 30),
            numbers.below(4) as u8,
        );
        if numbers.below(2) == 0 {
            let before = inventory.clone();
            match inventory.try_allocate(slot, &amount) {
                Ok(()) => {}
                Err(CapacityError::NoSuchSlot { slot }) => assert!(slot >= 4),
                Err(CapacityError::WouldExceed { slot }) => {
                    refused += 1;
                    assert_eq!(inventory.slot(slot), before.slot(slot));
                }
            }
        } else {
            let _ = inventory.release(slot, &amount);
        }
        for index in 0..inventory.len() {
            let s = inventory.slot(index).unwrap();
            assert!(s.allocated.fits_within(&s.capacity));
        }
    }
    assert!(refused > 0);
}

#[test]
fn charging_then_releasing_changes_nothing() {
    let mut inventory = SlotInventory::from_uniform(2, Resources::new(4_000, 100, 2));
    let base = Resources::new(1_000, 10, 1);
    inventory.try_allocate(1, &base).unwrap();
    let amount = Resources::new(2_000, 90, 1);
    let fit = inventory.first_fit(&amount).unwrap();
    assert_eq!(fit, 0);
    inventory.try_allocate(1, &amount).unwrap();
    inventory.release(1, &amount).unwrap();
    assert_eq!(inventory.slot(1).unwrap().allocated, base);
}

#[test]
fn backfill_never_delays_the_head() {
    let mut numbers = Numbers(8);
    let mut admitted = 0;
    for _ in 0..400 {
        let mut inventory = SlotInventory::from_uniform(3, Resources::new(4_000, 0, 0));
        let mut running: Vec<RunningJob> = Vec::new();
        for n in 0..numbers.below(8) {
            let slot = numbers.below(3) as u32;
            let resources = Resources::new(500 + numbers.below(2_500) as u32, 0, 0);
            let ends = 1 + numbers.below(200);
            if inventory.try_allocate(slot, &resources).is_ok() {
                running.push(RunningJob {
                    job: JobId::from_bits(n + 10_000),
                    slot,
                    resources,
                    ends_at: VirtualTime::from_nanos(ends * SECOND),
                });
            }
        }
        let mut arena: Arena<Job> = Arena::new();
        let mut candidates: Vec<ReadyEntry> = Vec::new();
        for rank in 0..1 + numbers.below(9) {
            let cpu = 500 + numbers.below(3_500) as u32;
            let mut queued = job(PriorityClass::Normal, cpu, 1 + numbers.below(300));
            queued.try_transition(JobState::Ready).unwrap();
            let id = arena.insert(queued);
            candidates.push(ReadyEntry { class: PriorityClass::Normal, job: id, score: 100 - rank });
        }
        let now = VirtualTime::zero();
        let request = arena.get(candidates[0].job).unwrap().request;
        let mut scratch = BackfillScratch::new();
        let before = reservation_time(&request, &inventory, &running, now, &mut scratch);
        let mut disposition = vec![Disposition::Pending; candidates.len()];
        let mut decisions: Vec<DispatchDecision> = Vec::new();
        let outcome = easy_backfill(
            &candidates,
            0,
            &arena,
            &mut inventory,
            &running,
            now,
            PackBudget::default(),
            &mut disposition,
            &mut decisions,
            &mut scratch,
        );
        assert_eq!(outcome.reservation, before);
        assert_eq!(outcome.backfilled, decisions.len());
        admitted += decisions.len();
        for decision in &decisions {
            let started = arena.get(decision.job).unwrap();
            running.push(RunningJob {
                job: decision.job,
                slot: decision.slot,
                resources: started.request,
                ends_at: now.saturating_add(started.walltime_limit),
            });
        }
        let after = reservation_time(&request, &inventory, &running, now, &mut scratch);
        match before {
            Some(before) => assert!(after.unwrap() <= before),
            None => assert_eq!(outcome.backfilled, 0),
        }
        assert_ne!(disposition[0], Disposition::Dispatched);
    }
    assert!(admitted > 100);
}

#[test]
fn a_plan_frees_the_head_and_respects_every_guard() {
    let mut numbers = Numbers(9);
    let mut plans = 0;
    for _ in 0..500 {
        let slots = 1 + numbers.below(3) as u32;
        let mut jobs = Arena::new();
        let mut inventory = SlotInventory::from_uniform(slots, Resources::new(4_000, 0, 0));
        let mut running = Vec::new();
        for _ in 0..numbers.below(8) {
            let class = PriorityClass::all()[numbers.below(4) as usize];
            let mut busy = job(class, 500 + numbers.below(2_500) as u32, 60);
            busy.state = JobState::Running;
            busy.preemptions = numbers.below(5) as u8;
            let slot = numbers.below(u64::from(slots)) as u32;
            let started = numbers.below(60);
            let resources = busy.request;
            if inventory.try_allocate(slot, &resources).is_ok() {
                running.push(RunningJob {
                    job: jobs.insert(busy),
                    slot,
                    resources,
                    ends_at: VirtualTime::from_nanos((started + 60) * SECOND),
                });
            }
        }
        let head_class = PriorityClass::all()[numbers.below(4) as usize];
        let head = job(head_class, 500 + numbers.below(3_501) as u32, 60);
        let config = PreemptConfig {
            min_class: Some(PriorityClass::all()[numbers.below(4) as usize]),
            max_preemptions: 1 + numbers.below(3) as u8,
            grace: VirtualDuration::from_secs(5),
        };
        let mut out = Vec::new();
        let now = VirtualTime::from_nanos(100 * SECOND);
        match plan_preemption(&head, &running, &jobs, &inventory, now, &config, &mut out) {
            Some(slot) => {
                plans += 1;
                assert!(!out.is_empty());
                assert!(head.priority_class >= config.min_class.unwrap());
                let mut freed = inventory.free(slot).unwrap();
                for eviction in &out {
                    assert_eq!(eviction.slot, slot);
                    assert!(!head.request.fits_within(&freed), "no victim too many");
                    let victim = jobs.get(eviction.job).unwrap();
                    assert!(victim.priority_class < head.priority_class);
                    assert!(victim.preemptions < config.max_preemptions);
                    freed = freed.saturating_add(&victim.request);
                }
                assert!(head.request.fits_within(&freed));
            }
            None => assert!(out.is_empty()),
        }
    }
    assert!(plans > 20);
}

#[test]
fn decay_factors_fall_and_usage_never_rises() {
    let mut numbers = Numbers(10);
    let mut previous = DECAY_ONE;
    for steps in 0..60_000 {
        let factor = decay_factor(steps);
        assert!(factor <= previous);
        previous = factor;
    }
    let cfg = FairShareConfig::new(VirtualDuration::from_secs(3_600));
    for _ in 0..200 {
        let mut fs = FairShare::new();
        let cpus = [numbers.below(4_000) as u32, numbers.below(4_000) as u32];
        let hold = VirtualTime::from_nanos(1 + numbers.below(1 << 50));
        for (n, cpu) in cpus.iter().enumerate() {
            fs.ensure(AccountId::new(n as u32)).unwrap();
            fs.on_dispatch(AccountId::new(n as u32), *cpu, VirtualTime::zero(), &cfg);
            fs.on_release(AccountId::new(n as u32), *cpu, hold, &cfg);
        }
        fs.refresh(hold, &cfg);
        let before: Vec<u64> = fs.ledgers().iter().map(|l| l.usage).collect();
        fs.refresh(hold.saturating_add(VirtualDuration::from_nanos(numbers.below(1 << 54))), &cfg);
        let after: Vec<u64> = fs.ledgers().iter().map(|l| l.usage).collect();
        assert!(after[0] <= before[0] && after[1] <= before[1]);
        assert_eq!(before[0] <= before[1], cpus[0] <= cpus[1] || before[0] == before[1]);
        if before[0] <= before[1] {
            assert!(after[0] <= after[1]);
        }
        assert!(fs.factors().iter().all(|factor| *factor <= FACTOR_SCALE));
    }
}

#[test]
fn extreme_times_never_panic() {
    for now in [0, 1, u64::MAX / 2, u64::MAX] {
        for half_life in [0, 1, 1_023, 1_024, u64::MAX] {
            let cfg = FairShareConfig::new(VirtualDuration::from_nanos(half_life));
            let mut fs = FairShare::new();
            fs.ensure(AccountId::new(0)).unwrap();
            fs.on_dispatch(AccountId::new(0), u32::MAX, VirtualTime::zero(), &cfg);
            fs.refresh(VirtualTime::from_nanos(now), &cfg);
            fs.on_release(AccountId::new(0), u32::MAX, VirtualTime::from_nanos(now), &cfg);
            assert!(fs.factor(AccountId::new(0)) <= FACTOR_SCALE);
        }
    }
}

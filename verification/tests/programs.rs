//! What the programs around the core decide: workload generation, the load
//! generator, and the command-line client.
use bytes::Bytes;
use tasker::bench::Generator;
use tasker::cli::{class, node_row, task, walltime_nanos, Task};
use tasker::loadgen::{
    all_attached, drained, latency_sample, parse_sync, stamped, Pacing, SyncPolicy,
};
use tasker::{
    bench_config, synthetic, AccountId, DispatchDecision, JobState, PackBudget, PriorityClass,
    ResourceRequest, Resources, RunningJob, Scheduler, VirtualDuration, VirtualTime,
};

const SECOND: u64 = 1_000_000_000;
const MEM: u64 = 1 << 30;

#[test]
fn a_generator_asks_for_each_number_in_its_range() {
    let mut generator = Generator::new(1, 1, 3);
    let mut ranges = Vec::new();
    while let Some((low, high)) = generator.wanted() {
        ranges.push((low, high));
        generator.feed(high - 1);
    }
    assert_eq!(
        ranges,
        vec![
            (500, 4_000),
            (1 << 28, 4 << 30),
            (0, 3),
            (30, 3_600),
            (0, 16),
            (0, 4),
            (250, 8_000),
            (1 << 27, 8 << 30),
            (0, 16),
            (0, 4),
            (0, 3_600 * SECOND),
            (30, 7_200),
        ]
    );
    let workload = generator.finish();
    assert_eq!(workload.running.len(), 1);
    assert_eq!(workload.admitted.len(), 1);
    assert_eq!(workload.running[0].slot, 2);
}

#[test]
fn a_workload_is_what_its_draws_say() {
    let draws = [
        3_000, MEM, 1, 100, 7, 2, // runs on slot 1
        250, 2 * MEM, 15, 3, 5 * SECOND, 7_199, // waits
    ];
    let workload = synthetic(1, 1, 2, &draws).unwrap();
    assert_eq!(workload.jobs.len(), 2);

    let run = workload.running[0];
    let resources = Resources::new(3_000, MEM, 0);
    assert_eq!(
        run,
        RunningJob {
            job: run.job,
            slot: 1,
            resources,
            ends_at: VirtualTime::from_nanos(100 * SECOND),
        }
    );
    let job = workload.jobs.get(run.job).unwrap();
    assert_eq!(job.account, AccountId::new(7));
    assert_eq!(job.priority_class, PriorityClass::High);
    assert_eq!(job.submit_time, VirtualTime::zero());
    assert_eq!(job.walltime_limit, VirtualDuration::from_secs(100));
    assert_eq!(job.state, JobState::Running);
    assert_eq!(workload.inventory.slot(1).unwrap().allocated, resources);
    assert_eq!(workload.inventory.slot(0).unwrap().allocated, Resources::zero());
    assert_eq!(
        workload.inventory.slot(0).unwrap().capacity,
        Resources::new(8_000, 32 << 30, 4)
    );

    let job = workload.jobs.get(workload.admitted[0]).unwrap();
    assert_eq!(job.account, AccountId::new(15));
    assert_eq!(job.priority_class, PriorityClass::Urgent);
    assert_eq!(job.submit_time, VirtualTime::from_nanos(5 * SECOND));
    assert_eq!(job.request, ResourceRequest::new(250, 2 * MEM, 0));
    assert_eq!(job.walltime_limit, VirtualDuration::from_secs(7_199));
    assert_eq!(job.state, JobState::Submitted);
    assert!(job.deps.is_empty() && job.payload.is_empty());
}

#[test]
fn a_running_job_on_a_full_slot_is_given_up_after_three_draws() {
    let draws = [
        3_999, MEM, 0, 30, 0, 0, // fits
        3_999, MEM, 0, 30, 0, 0, // fits
        3_999, MEM, 0, // does not
    ];
    let workload = synthetic(0, 3, 1, &draws).unwrap();
    assert_eq!(workload.running.len(), 2);
    assert_eq!(workload.jobs.len(), 2);
    assert_eq!(workload.inventory.free(0).unwrap().cpu_millis, 2);
}

#[test]
fn draws_that_run_out_or_stray_make_no_workload() {
    assert!(synthetic(0, 0, 5, &[]).is_some());
    assert!(synthetic(1, 0, 5, &[250, 1 << 27, 0, 0, 0]).is_none());
    assert!(synthetic(1, 0, 5, &[249, 1 << 27, 0, 0, 0, 30]).is_none());
    assert!(synthetic(1, 0, 5, &[250, 1 << 27, 16, 0, 0, 30]).is_none());
    assert!(synthetic(0, 1, 0, &[500, MEM, 0, 30, 0, 0]).is_none());
}

#[test]
fn the_benchmark_configuration_has_its_values() {
    let config = bench_config();
    assert_eq!(config.priority.weights.age, 1_000);
    assert_eq!(config.priority.weights.qos, 1_000);
    assert_eq!(config.priority.weights.fairshare, 1_000);
    assert_eq!(config.priority.weights.size, 100);
    assert_eq!(config.priority.age_horizon, VirtualDuration::from_secs(3_600));
    assert_eq!(config.priority.largest_request, ResourceRequest::new(8_000, 32 << 30, 4));
    assert_eq!(config.fairshare.half_life, VirtualDuration::from_secs(3_600));
    assert_eq!(config.preempt.min_class, None);
    assert_eq!(config.budget, PackBudget::default());
    assert_eq!(config.max_candidates, 10_000);
}

/// A small generator of numbers for whole-workload runs.
struct Numbers(u64);

impl Numbers {
    fn range(&mut self, low: u64, high: u64) -> u64 {
        self.0 = self.0.wrapping_mul(6_364_136_223_846_793_005).wrapping_add(1_442_695_040_888_963_407);
        low + (self.0 >> 20) % (high - low)
    }
}

#[test]
fn a_generated_workload_runs_to_the_end() {
    let config = bench_config();
    let mut numbers = Numbers(0xA110_C0DE);
    let mut generator = Generator::new(400, 60, 16);
    while let Some((low, high)) = generator.wanted() {
        generator.feed(numbers.range(low, high));
    }
    let mut workload = generator.finish();
    assert_eq!(workload.admitted.len(), 400);
    let mut scheduler = Scheduler::with_slots(workload.jobs.capacity_slots());
    for id in &workload.admitted {
        let state = scheduler
            .submit(*id, &mut workload.jobs, VirtualTime::zero(), &config)
            .unwrap();
        assert_eq!(state, JobState::Ready);
    }
    let now = VirtualTime::from_nanos(3_600 * SECOND);
    let mut decisions: Vec<DispatchDecision> = Vec::new();
    let outcome = scheduler.run_cycle(
        &mut workload.jobs,
        &mut workload.inventory,
        &workload.running,
        now,
        &config,
        &mut decisions,
    );
    assert_eq!(decisions.len(), outcome.dispatched + outcome.backfilled);
    assert_eq!(scheduler.pending() + decisions.len(), 400);
    for decision in &decisions {
        assert_eq!(workload.jobs.get(decision.job).unwrap().state, JobState::Running);
    }
    for index in 0..workload.inventory.len() {
        let slot = workload.inventory.slot(index).unwrap();
        assert!(slot.allocated.fits_within(&slot.capacity));
    }
}

#[test]
fn sync_policies_are_read_by_name() {
    assert_eq!(parse_sync("full"), Ok(SyncPolicy::Full));
    assert_eq!(parse_sync("data"), Ok(SyncPolicy::Data));
    assert_eq!(parse_sync("none"), Ok(SyncPolicy::Off));
    assert_eq!(
        parse_sync("Full"),
        Err(String::from("unknown sync policy \"Full\": full|data|none"))
    );
    assert_eq!(
        parse_sync("a\"b\n"),
        Err(String::from("unknown sync policy \"a\\\"b\\n\": full|data|none"))
    );
}

#[test]
fn classes_are_read_in_either_case() {
    assert_eq!(class("low"), Ok(PriorityClass::Low));
    assert_eq!(class("Normal"), Ok(PriorityClass::Normal));
    assert_eq!(class("HIGH"), Ok(PriorityClass::High));
    assert_eq!(class("uRgEnT"), Ok(PriorityClass::Urgent));
    assert_eq!(
        class("Highest"),
        Err(String::from("unknown class \"highest\": low|normal|high|urgent"))
    );
    assert_eq!(
        class("\u{c4}B"),
        Err(String::from("unknown class \"\u{c4}b\": low|normal|high|urgent"))
    );
}

#[test]
fn a_submit_takes_exactly_one_task() {
    assert!(matches!(task(Some(50), None), Ok(Task::Sleep(50))));
    let words = vec![String::from("echo"), String::from("hello")];
    match task(None, Some(words.clone())) {
        Ok(Task::Command(given)) => assert_eq!(given, words),
        other => panic!("{other:?}"),
    }
    let refusal = "exactly one of --sleep or --cmd is required";
    assert_eq!(task(None, None).unwrap_err(), refusal);
    assert_eq!(task(Some(1), Some(words)).unwrap_err(), refusal);
}

#[test]
fn walltimes_and_spare_cpu_clamp() {
    assert_eq!(walltime_nanos(60), 60 * SECOND);
    assert_eq!(walltime_nanos(u64::MAX), u64::MAX);
    assert_eq!(node_row(String::new(), 4_000, 1_500), (String::from("-"), 2_500));
    assert_eq!(node_row(String::from("w-1"), 1_000, 1_500), (String::from("w-1"), 0));
}

#[test]
fn a_stamp_is_read_back_from_the_payload() {
    let sleep = [10, 0, 0, 0, 0, 0, 0, 0];
    let payload = stamped(&sleep, 0x0102_0304_0506_0708);
    assert_eq!(
        payload.to_vec(),
        vec![10, 0, 0, 0, 0, 0, 0, 0, 8, 7, 6, 5, 4, 3, 2, 1]
    );
    let payload = stamped(&sleep, 5_000_000);
    assert_eq!(latency_sample(&payload, 12_345_678), Some(7_345));
    assert_eq!(latency_sample(&payload, 5_000_999), Some(1));
    assert_eq!(latency_sample(&payload, 4_000_000), Some(1));
    assert_eq!(latency_sample(&Bytes::from(vec![0; 15]), 1), None);
    assert_eq!(latency_sample(&Bytes::from(vec![0; 16]), 3_000), Some(3));
    assert_eq!(latency_sample(&Bytes::new(), 1), None);
}

#[test]
fn pacing_spreads_the_submits_evenly() {
    let pacing = Pacing::new(2_000, 10);
    assert_eq!(pacing.period, 500_000);
    assert_eq!(pacing.total, 20_000);
    assert_eq!(pacing.intended(7, 0), 7);
    assert_eq!(pacing.intended(7, 19_999), 7 + 19_999 * 500_000);
    let idle = Pacing::new(0, 10);
    assert_eq!((idle.period, idle.total), (SECOND, 0));
}

#[test]
fn waiting_ends_when_all_are_attached_and_drained() {
    assert!(all_attached(&[true, false, true], 2));
    assert!(!all_attached(&[true, false, true], 3));
    assert!(!all_attached(&[true, true], 1));
    assert!(all_attached(&[], 0));
    assert!(drained(0, 0));
    assert!(!drained(1, 0));
    assert!(!drained(0, 1));
}

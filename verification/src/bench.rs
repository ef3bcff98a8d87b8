//! Synthetic workloads for benchmarks.
//!
//! Generation is deterministic in the numbers it is fed: the same draws always
//! give the same cluster, queue and running set.
use crate::cluster::slot;
use crate::cluster::{SlotInventory, WorkerSlot};
use crate::domain::{
    AccountId, Arena, Job, JobId, JobState, PriorityClass, ResourceRequest, Resources,
    VirtualDuration, VirtualTime,
};
use crate::engine::CycleConfig;
use crate::policy::backfill::RunningJob;
use crate::policy::fairshare::FairShareConfig;
use crate::policy::pack::PackBudget;
use crate::policy::preempt::PreemptConfig;
use crate::policy::priority::{PriorityConfig, PriorityWeights};
use vstd::prelude::*;

verus! {

/// Millicores of one worker slot.
pub const SLOT_CPU: u32 = 8_000;

/// Bytes of memory of one worker slot.
pub const SLOT_MEM: u64 = 34_359_738_368;

/// Nanoseconds in a second.
pub const SECOND: u64 = 1_000_000_000;

/// How many numbers describe one job.
pub const DRAWS_PER_JOB: usize = 6;

/// A generated cluster plus its queued and running work.
#[derive(Debug)]
pub struct Workload {
    pub jobs: Arena<Job>,
    pub inventory: SlotInventory,
    pub running: Vec<RunningJob>,
    /// Queued job ids, in creation order.
    pub admitted: Vec<JobId>,
}

/// What a generated job is like. Everything else of it is as in any new job: no
/// dependencies, no payload, never evicted.
pub struct Sketch {
    pub account: u32,
    pub class: PriorityClass,
    pub submitted: u64,
    pub request: Resources,
    pub walltime: u64,
    pub state: JobState,
}

/// A workload being generated: what there is so far, how many jobs of either
/// sort are still to come, and the numbers drawn for the one in hand.
#[verifier::ext_equal]
pub struct Draft {
    pub jobs: Map<JobId, Sketch>,
    pub made: int,
    pub slots: Seq<WorkerSlot>,
    pub running: Seq<RunningJob>,
    pub admitted: Seq<JobId>,
    pub running_left: int,
    pub pending_left: int,
    pub drawn: Seq<u64>,
}

/// The job as a sketch.
pub open spec fn sketch_of(job: Job) -> Sketch {
    Sketch {
        account: job.account@,
        class: job.priority_class,
        submitted: job.submit_time@,
        request: job.request,
        walltime: job.walltime_limit@,
        state: job.state,
    }
}

/// The job is as new in all that its sketch leaves out.
pub open spec fn plain(job: Job) -> bool {
    &&& job.deps@ == Seq::<JobId>::empty()
    &&& crate::domain::deps::bytes_of(job.payload) == Seq::<u8>::empty()
    &&& job.preemptions == 0
}

/// The class of this rank.
pub open spec fn class_at(rank: u64) -> PriorityClass {
    if rank == 0 {
        PriorityClass::Low
    } else if rank == 1 {
        PriorityClass::Normal
    } else if rank == 2 {
        PriorityClass::High
    } else {
        PriorityClass::Urgent
    }
}

/// The range that the `n`-th number of a job is drawn from, its upper end left
/// out: for a running job cpu, memory, slot, walltime, account and class, for a
/// pending one cpu, memory, account, class, submit time and walltime.
pub open spec fn range_at(runs: bool, slots: int, n: int) -> (u64, u64) {
    if runs {
        if n == 0 {
            (500, 4_000)
        } else if n == 1 {
            (268_435_456, 4_294_967_296)
        } else if n == 2 {
            (0, slots as u64)
        } else if n == 3 {
            (30, 3_600)
        } else if n == 4 {
            (0, 16)
        } else {
            (0, 4)
        }
    } else {
        if n == 0 {
            (250, 8_000)
        } else if n == 1 {
            (134_217_728, 8_589_934_592)
        } else if n == 2 {
            (0, 16)
        } else if n == 3 {
            (0, 4)
        } else if n == 4 {
            (0, 3_600_000_000_000)
        } else {
            (30, 7_200)
        }
    }
}

/// The range that the next number is to be drawn from: running jobs come first.
pub open spec fn wanted_by(d: Draft) -> Option<(u64, u64)> {
    if d.running_left > 0 || d.pending_left > 0 {
        Some(range_at(d.running_left > 0, d.slots.len() as int, d.drawn.len() as int))
    } else {
        None
    }
}

/// The drawn number is one that was asked for.
pub open spec fn in_range(range: Option<(u64, u64)>, value: u64) -> bool {
    range matches Some((low, high)) && low <= value < high
}

/// What the drawn numbers of a job make it ask for.
pub open spec fn request_drawn(drawn: Seq<u64>) -> Resources {
    Resources { cpu_millis: drawn[0] as u32, mem_bytes: drawn[1], gpus: 0 }
}

/// The draft once one more number has been drawn.
///
/// A running job is charged to its slot as soon as that is drawn; if the slot is
/// full the job is given up, and the workload is simply a little lighter.
pub open spec fn fed(d: Draft, value: u64) -> Draft {
    let drawn = d.drawn.push(value);
    let request = request_drawn(drawn);
    let id = JobId::pack(d.made as u32, 0);
    if d.running_left > 0 {
        if drawn.len() == 3 && !d.slots[value as int].admits(request) {
            Draft { running_left: d.running_left - 1, drawn: Seq::empty(), ..d }
        } else if drawn.len() == 3 {
            Draft { slots: slot::charge(d.slots, value as int, request), drawn, ..d }
        } else if drawn.len() < DRAWS_PER_JOB {
            Draft { drawn, ..d }
        } else {
            let sketch = Sketch {
                account: drawn[4] as u32,
                class: class_at(drawn[5]),
                submitted: 0,
                request,
                walltime: (drawn[3] * SECOND) as u64,
                state: JobState::Running,
            };
            let run = RunningJob {
                job: id,
                slot: drawn[2] as u32,
                resources: request,
                ends_at: VirtualTime::at((drawn[3] * SECOND) as u64),
            };
            Draft {
                jobs: d.jobs.insert(id, sketch),
                made: d.made + 1,
                running: d.running.push(run),
                running_left: d.running_left - 1,
                drawn: Seq::empty(),
                ..d
            }
        }
    } else if drawn.len() < DRAWS_PER_JOB {
        Draft { drawn, ..d }
    } else {
        let sketch = Sketch {
            account: drawn[2] as u32,
            class: class_at(drawn[3]),
            submitted: drawn[4],
            request,
            walltime: (drawn[5] * SECOND) as u64,
            state: JobState::Submitted,
        };
        Draft {
            jobs: d.jobs.insert(id, sketch),
            made: d.made + 1,
            admitted: d.admitted.push(id),
            pending_left: d.pending_left - 1,
            drawn: Seq::empty(),
            ..d
        }
    }
}

/// An empty cluster of `slots` equal slots, with this many jobs to come.
pub open spec fn blank(pending: int, running: int, slots: u32) -> Draft {
    Draft {
        jobs: Map::empty(),
        made: 0,
        slots: Seq::new(
            slots as nat,
            |i: int|
                WorkerSlot::fresh(
                    Resources { cpu_millis: SLOT_CPU, mem_bytes: SLOT_MEM, gpus: 4 },
                ),
        ),
        running: Seq::empty(),
        admitted: Seq::empty(),
        running_left: running,
        pending_left: pending,
        drawn: Seq::empty(),
    }
}

/// The finished workload that these draws make of a draft; none when they run out
/// first or one of them is out of its range. Draws left over are ignored.
pub open spec fn finished(d: Draft, draws: Seq<u64>) -> Option<Draft>
    decreases draws.len(),
{
    if wanted_by(d) is None {
        Some(d)
    } else if draws.len() == 0 || !in_range(wanted_by(d), draws[0]) {
        None
    } else {
        finished(fed(d, draws[0]), draws.drop_first())
    }
}

/// Generates a workload one drawn number at a time.
#[derive(Debug)]
pub struct Generator {
    workload: Workload,
    slots: u32,
    running_left: usize,
    pending_left: usize,
    drawn: Vec<u64>,
}

impl Workload {
    /// The workload as a draft with nothing left to come.
    pub open spec fn drafted(&self) -> Draft {
        Draft {
            jobs: self.jobs@.map_values(|job: Job| sketch_of(job)),
            made: self.jobs.states().len() as int,
            slots: self.inventory@,
            running: self.running@,
            admitted: self.admitted@,
            running_left: 0,
            pending_left: 0,
            drawn: Seq::empty(),
        }
    }

    /// Arena and inventory are well formed, and every job is as new in all that
    /// its sketch leaves out.
    pub open spec fn wf(&self) -> bool {
        &&& self.jobs.wf()
        &&& self.inventory.wf()
        &&& forall|id: JobId| #[trigger] self.jobs@.contains_key(id) ==> plain(self.jobs@[id])
    }
}

impl View for Generator {
    type V = Draft;

    closed spec fn view(&self) -> Draft {
        Draft {
            running_left: self.running_left as int,
            pending_left: self.pending_left as int,
            drawn: self.drawn@,
            ..self.workload.drafted()
        }
    }
}

impl Generator {
    /// The workload is well formed, there is room for every job still to come, and
    /// each number in hand was drawn from its range.
    pub closed spec fn wf(&self) -> bool {
        &&& self.sound()
        &&& self.drawn@.len() < DRAWS_PER_JOB
    }

    /// As `wf`, with all the numbers of a job in hand perhaps.
    spec fn sound(&self) -> bool {
        &&& self.workload.wf()
        &&& self.workload.jobs.head() is None
        &&& self.workload.inventory@.len() == self.slots
        &&& self.workload.jobs.states().len() + self.running_left + self.pending_left <= u32::MAX
        &&& self.drawn@.len() > 0 ==> self.running_left > 0 || self.pending_left > 0
        &&& forall|k: int|
            0 <= k < self.drawn@.len() ==> {
                let (low, high) = range_at(self.running_left > 0, self.slots as int, k);
                low <= #[trigger] self.drawn@[k] < high
            }
    }

    /// A generator for `pending` queued jobs, up to `running` running ones, and
    /// `slots` uniform worker slots.
    #[must_use]
    pub fn new(pending: usize, running: usize, slots: u32) -> (generator: Self)
        requires
            pending + running <= u32::MAX,
        ensures
            generator.wf(),
            generator@ == blank(pending as int, running as int, slots),
    {
        let generator = Generator {
            workload: Workload {
                jobs: Arena::with_capacity(pending + running),
                inventory: SlotInventory::from_uniform(
                    slots,
                    Resources::new(SLOT_CPU, SLOT_MEM, 4),
                ),
                running: Vec::with_capacity(running),
                admitted: Vec::with_capacity(pending),
            },
            slots,
            running_left: running,
            pending_left: pending,
            drawn: Vec::with_capacity(DRAWS_PER_JOB),
        };
        assert(generator@ =~= blank(pending as int, running as int, slots));
        generator
    }

    /// The range to draw the next number from, its upper end left out; `None`
    /// once the workload is complete.
    #[must_use]
    pub fn wanted(&self) -> (range: Option<(u64, u64)>)
        requires
            self.wf(),
        ensures
            range == wanted_by(self@),
    {
        let n: usize = self.drawn.len();
        if self.running_left > 0 {
            Some(
                match n {
                    0 => (500, 4_000),
                    1 => (268_435_456, 4_294_967_296),
                    2 => (0, self.slots as u64),
                    3 => (30, 3_600),
                    4 => (0, 16),
                    _ => (0, 4),
                },
            )
        } else if self.pending_left > 0 {
            Some(
                match n {
                    0 => (250, 8_000),
                    1 => (134_217_728, 8_589_934_592),
                    2 => (0, 16),
                    3 => (0, 4),
                    4 => (0, 3_600 * SECOND),
                    _ => (30, 7_200),
                },
            )
        } else {
            None
        }
    }

    /// Takes the number drawn from the wanted range.
    pub fn feed(&mut self, value: u64)
        requires
            old(self).wf(),
            in_range(wanted_by(old(self)@), value),
        ensures
            final(self).wf(),
            final(self)@ == fed(old(self)@, value),
    {
        let ghost before = self@;
        self.drawn.push(value);
        if self.drawn.len() == DRAWS_PER_JOB {
            if self.running_left > 0 {
                self.add_running();
            } else {
                self.add_pending();
            }
        } else if self.running_left > 0 && self.drawn.len() == 3 {
            let request = Resources::new(self.drawn[0] as u32, self.drawn[1], 0);
            if self.workload.inventory.try_allocate(value as u32, &request).is_err() {
                self.drawn.clear();
                self.running_left -= 1;
            }
        }
        assert(self@ =~= fed(before, value));
    }

    /// Turns the numbers in hand into a job that runs.
    fn add_running(&mut self)
        requires
            old(self).sound(),
            old(self).running_left > 0,
            old(self).drawn@.len() == DRAWS_PER_JOB,
        ensures
            final(self).wf(),
            ({
                let d = old(self)@;
                final(self)@ == fed(Draft { drawn: d.drawn.drop_last(), ..d }, d.drawn.last())
            }),
    {
        let ghost d = self@;
        let request = ResourceRequest::new(self.drawn[0] as u32, self.drawn[1], 0);
        let slot: u32 = self.drawn[2] as u32;
        let walltime: u64 = self.drawn[3];
        let class = PriorityClass::all()[self.drawn[5] as usize];
        proof {
            crate::domain::job::law_rank_determines_class(class, class_at(d.drawn[5]));
        }
        let mut job = Job::new(
            AccountId::new(self.drawn[4] as u32),
            class,
            VirtualTime::zero(),
            request,
            VirtualDuration::from_secs(walltime),
        );
        job.try_transition(JobState::Ready).expect("a submitted job can become ready");
        job.try_transition(JobState::Running).expect("a ready job can run");
        let ghost made = job;
        let id = self.workload.jobs.insert(job);
        self.workload.running.push(
            RunningJob {
                job: id,
                slot,
                resources: request,
                ends_at: VirtualTime::from_nanos(walltime * SECOND),
            },
        );
        self.running_left -= 1;
        self.drawn.clear();
        proof {
            let before = Draft { drawn: d.drawn.drop_last(), ..d };
            assert(before.drawn.push(d.drawn.last()) =~= d.drawn);
            assert(self@.jobs =~= d.jobs.insert(id, sketch_of(made)));
            assert(self@ =~= fed(before, d.drawn.last()));
        }
    }

    /// Turns the numbers in hand into a job that waits. It is left `Submitted`:
    /// submitting it to a scheduler classifies it.
    fn add_pending(&mut self)
        requires
            old(self).sound(),
            old(self).running_left == 0,
            old(self).drawn@.len() == DRAWS_PER_JOB,
        ensures
            final(self).wf(),
            ({
                let d = old(self)@;
                final(self)@ == fed(Draft { drawn: d.drawn.drop_last(), ..d }, d.drawn.last())
            }),
    {
        let ghost d = self@;
        let class = PriorityClass::all()[self.drawn[3] as usize];
        proof {
            crate::domain::job::law_rank_determines_class(class, class_at(d.drawn[3]));
        }
        let job = Job::new(
            AccountId::new(self.drawn[2] as u32),
            class,
            VirtualTime::from_nanos(self.drawn[4]),
            ResourceRequest::new(self.drawn[0] as u32, self.drawn[1], 0),
            VirtualDuration::from_secs(self.drawn[5]),
        );
        let ghost made = job;
        let id = self.workload.jobs.insert(job);
        self.workload.admitted.push(id);
        self.pending_left -= 1;
        self.drawn.clear();
        proof {
            let before = Draft { drawn: d.drawn.drop_last(), ..d };
            assert(before.drawn.push(d.drawn.last()) =~= d.drawn);
            assert(self@.jobs =~= d.jobs.insert(id, sketch_of(made)));
            assert(self@ =~= fed(before, d.drawn.last()));
        }
    }

    /// The workload, once nothing is wanted any more.
    #[must_use]
    pub fn finish(self) -> (workload: Workload)
        requires
            self.wf(),
            wanted_by(self@) is None,
        ensures
            workload.wf(),
            workload.drafted() == self@,
    {
        assert(self.workload.drafted() =~= self@);
        self.workload
    }
}

/// The benchmark fixture: `pending` queued jobs, `running` occupied jobs, and
/// `slots` uniform worker slots, made of numbers drawn in the order a `Generator`
/// asks for them. `None` when the draws run out or one is out of its range.
#[must_use]
pub fn synthetic(pending: usize, running: usize, slots: u32, draws: &[u64]) -> (made: Option<
    Workload,
>)
    requires
        pending + running <= u32::MAX,
    ensures
        match finished(blank(pending as int, running as int, slots), draws@) {
            Some(end) => made matches Some(workload) && workload.wf() && workload.drafted() == end,
            None => made is None,
        },
{
    let mut generator = Generator::new(pending, running, slots);
    let ghost start = generator@;
    let mut i: usize = 0;
    proof {
        assert(draws@.skip(0) =~= draws@);
    }
    loop
        invariant
            i <= draws@.len(),
            generator.wf(),
            finished(start, draws@) == finished(generator@, draws@.skip(i as int)),
            start == blank(pending as int, running as int, slots),
        decreases draws@.len() - i,
    {
        let Some((low, high)) = generator.wanted() else {
            return Some(generator.finish());
        };
        if i >= draws.len() || draws[i] < low || draws[i] >= high {
            return None;
        }
        proof {
            assert(draws@.skip(i as int).drop_first() =~= draws@.skip(i + 1));
        }
        generator.feed(draws[i]);
        i += 1;
    }
}

/// The configuration the benchmarks measure against.
#[must_use]
pub fn bench_config() -> (config: CycleConfig)
    ensures
        config.priority.weights == (PriorityWeights {
            age: 1_000,
            qos: 1_000,
            fairshare: 1_000,
            size: 100,
        }),
        config.priority.age_horizon@ == 3_600 * SECOND,
        config.priority.largest_request == (Resources {
            cpu_millis: SLOT_CPU,
            mem_bytes: SLOT_MEM,
            gpus: 4,
        }),
        config.fairshare.half_life@ == 3_600 * SECOND,
        config.preempt.min_class is None,
        config.preempt.max_preemptions == 3,
        config.preempt.grace@ == 5 * SECOND,
        config.budget == (PackBudget { max_decisions: usize::MAX, max_scanned: usize::MAX }),
        config.max_candidates == 10_000,
{
    CycleConfig {
        priority: PriorityConfig::new(
            PriorityWeights { age: 1_000, qos: 1_000, fairshare: 1_000, size: 100 },
            VirtualDuration::from_secs(3_600),
            ResourceRequest::new(SLOT_CPU, SLOT_MEM, 4),
        ),
        fairshare: FairShareConfig::default(),
        preempt: PreemptConfig::default(),
        budget: PackBudget::default(),
        max_candidates: 10_000,
    }
}

proof fn lemma_finished(d: Draft, draws: Seq<u64>)
    requires
        slot::within_capacity(d.slots),
        d.running_left >= 0,
        d.pending_left >= 0,
        d.slots.len() <= u32::MAX,
        d.drawn.len() < DRAWS_PER_JOB,
        d.made == d.running.len() + d.admitted.len(),
    ensures
        finished(d, draws) matches Some(end) ==> {
            &&& slot::within_capacity(end.slots)
            &&& end.slots.len() == d.slots.len()
            &&& end.admitted.len() == d.admitted.len() + d.pending_left
            &&& end.running.len() <= d.running.len() + d.running_left
            &&& end.made == end.running.len() + end.admitted.len()
            &&& end.running_left == 0 && end.pending_left == 0
        },
    decreases draws.len(),
{
    if wanted_by(d) is Some && draws.len() > 0 && in_range(wanted_by(d), draws[0]) {
        let next = fed(d, draws[0]);
        assert(slot::within_capacity(next.slots)) by {
            if d.running_left > 0 && d.drawn.len() == 2 {
                let request = request_drawn(d.drawn.push(draws[0]));
                slot::law_allocation_stays_within_capacity(d.slots, draws[0] as int, request);
            }
        }
        lemma_finished(next, draws.drop_first());
    }
}

/// A generated workload has as many pending jobs as asked for and no more running
/// ones, each job once, and never over-commits a slot.
pub proof fn law_generated_workload_is_sound(
    pending: int,
    running: int,
    slots: u32,
    draws: Seq<u64>,
)
    requires
        pending >= 0,
        running >= 0,
    ensures
        finished(blank(pending, running, slots), draws) matches Some(end) ==> {
            &&& slot::within_capacity(end.slots)
            &&& end.slots.len() == slots
            &&& end.admitted.len() == pending
            &&& end.running.len() <= running
            &&& end.made == end.running.len() + end.admitted.len()
        },
{
    lemma_finished(blank(pending, running, slots), draws);
}

/// The sixth number of a job that runs completes it: it asks for the cpu and memory
/// drawn first, runs on the slot drawn third, from time zero for the seconds drawn
/// fourth, for the account and in the class drawn last. Nothing else changes.
pub proof fn law_six_draws_make_a_running_job(d: Draft, value: u64)
    requires
        d.running_left > 0,
        d.drawn.len() == 5,
        0 <= d.made < u32::MAX,
        forall|k: int|
            0 <= k < 5 ==> {
                let (low, high) = range_at(true, d.slots.len() as int, k);
                low <= #[trigger] d.drawn[k] < high
            },
        d.slots.len() <= u32::MAX,
        value < 4,
    ensures
        ({
            let next = fed(d, value);
            let run = next.running.last();
            let job = next.jobs[run.job];
            &&& next.running.drop_last() == d.running
            &&& run.job.idx() == d.made && run.job.era() == 0
            &&& run.resources.cpu_millis == d.drawn[0]
            &&& run.resources.mem_bytes == d.drawn[1]
            &&& run.resources.gpus == 0
            &&& run.slot == d.drawn[2]
            &&& run.ends_at@ == d.drawn[3] * 1_000_000_000
            &&& next.jobs.contains_key(run.job)
            &&& job.request == run.resources
            &&& job.walltime == run.ends_at@
            &&& job.submitted == 0
            &&& job.account == d.drawn[4]
            &&& job.class.rank() == value
            &&& job.state == JobState::Running
            &&& next.jobs.remove(run.job) == d.jobs.remove(run.job)
            &&& next.slots == d.slots
            &&& next.admitted == d.admitted
            &&& next.made == d.made + 1
            &&& next.running_left == d.running_left - 1
            &&& next.pending_left == d.pending_left
            &&& next.drawn.len() == 0
        }),
{
    let (low, high) = range_at(true, d.slots.len() as int, 3);
    assert(low <= d.drawn[3] < high);
    assert(range_at(true, d.slots.len() as int, 0).1 == 4_000);
    assert(d.drawn[0] < 4_000);
    assert(range_at(true, d.slots.len() as int, 4).1 == 16);
    assert(d.drawn[4] < 16);
    assert(range_at(true, d.slots.len() as int, 2).1 == d.slots.len());
    assert(d.drawn[2] < d.slots.len());
    let next = fed(d, value);
    let drawn = d.drawn.push(value);
    assert(drawn[0] == d.drawn[0] && drawn[1] == d.drawn[1] && drawn[2] == d.drawn[2] && drawn[3]
        == d.drawn[3] && drawn[4] == d.drawn[4]);
    crate::domain::arena::law_pack_round_trips(d.made as u32, 0);
    crate::domain::time::law_nanos_round_trip((d.drawn[3] * SECOND) as u64);
    assert(next.running.drop_last() =~= d.running);
    assert(next.jobs.remove(next.running.last().job) =~= d.jobs.remove(next.running.last().job));
}

/// The sixth number of a job that waits completes it: it asks for the cpu and memory
/// drawn first, for the account and in the class drawn next, submitted at the time
/// drawn fifth, for at most the seconds drawn last. Nothing else changes.
pub proof fn law_six_draws_make_a_pending_job(d: Draft, value: u64)
    requires
        d.running_left <= 0,
        d.pending_left > 0,
        d.drawn.len() == 5,
        0 <= d.made < u32::MAX,
        forall|k: int|
            0 <= k < 5 ==> {
                let (low, high) = range_at(false, d.slots.len() as int, k);
                low <= #[trigger] d.drawn[k] < high
            },
        30 <= value < 7_200,
    ensures
        ({
            let next = fed(d, value);
            let id = next.admitted.last();
            let job = next.jobs[id];
            &&& next.admitted.drop_last() == d.admitted
            &&& id.idx() == d.made && id.era() == 0
            &&& next.jobs.contains_key(id)
            &&& job.request.cpu_millis == d.drawn[0]
            &&& job.request.mem_bytes == d.drawn[1]
            &&& job.request.gpus == 0
            &&& job.account == d.drawn[2]
            &&& job.class.rank() == d.drawn[3]
            &&& job.submitted == d.drawn[4]
            &&& job.walltime == value * 1_000_000_000
            &&& job.state == JobState::Submitted
            &&& next.jobs.remove(id) == d.jobs.remove(id)
            &&& next.slots == d.slots
            &&& next.running == d.running
            &&& next.made == d.made + 1
            &&& next.running_left == d.running_left
            &&& next.pending_left == d.pending_left - 1
            &&& next.drawn.len() == 0
        }),
{
    assert(range_at(false, d.slots.len() as int, 0).1 == 8_000);
    assert(d.drawn[0] < 8_000);
    assert(range_at(false, d.slots.len() as int, 2).1 == 16);
    assert(d.drawn[2] < 16);
    assert(range_at(false, d.slots.len() as int, 3).1 == 4);
    assert(d.drawn[3] < 4);
    let next = fed(d, value);
    let drawn = d.drawn.push(value);
    assert(drawn[0] == d.drawn[0] && drawn[1] == d.drawn[1] && drawn[2] == d.drawn[2] && drawn[3]
        == d.drawn[3] && drawn[4] == d.drawn[4]);
    crate::domain::arena::law_pack_round_trips(d.made as u32, 0);
    assert(next.admitted.drop_last() =~= d.admitted);
    assert(next.jobs.remove(next.admitted.last()) =~= d.jobs.remove(next.admitted.last()));
}

/// The third number of a job that runs picks its slot. Where the slot has room for
/// what was drawn, exactly that is charged to it and to no other; where it has none,
/// the job is given up and nothing is charged.
pub proof fn law_the_third_draw_charges_the_slot(d: Draft, value: u64, other: int)
    requires
        d.running_left > 0,
        d.drawn.len() == 2,
        d.drawn[0] < 4_000,
        value < d.slots.len(),
        0 <= other < d.slots.len(),
        slot::within_capacity(d.slots),
    ensures
        ({
            let next = fed(d, value);
            let before = d.slots[value as int];
            let after = next.slots[value as int];
            let room = before.allocated.cpu_millis + d.drawn[0] <= before.capacity.cpu_millis
                && before.allocated.mem_bytes + d.drawn[1] <= before.capacity.mem_bytes;
            &&& next.slots.len() == d.slots.len()
            &&& next.jobs == d.jobs && next.running == d.running && next.admitted == d.admitted
            &&& other != value ==> next.slots[other] == d.slots[other]
            &&& after.capacity == before.capacity
            &&& room ==> {
                &&& after.allocated.cpu_millis == before.allocated.cpu_millis + d.drawn[0]
                &&& after.allocated.mem_bytes == before.allocated.mem_bytes + d.drawn[1]
                &&& after.allocated.gpus == before.allocated.gpus
                &&& next.drawn == d.drawn.push(value)
                &&& next.running_left == d.running_left
            }
            &&& !room ==> {
                &&& next.slots == d.slots
                &&& next.drawn.len() == 0
                &&& next.running_left == d.running_left - 1
            }
        }),
{
    let drawn = d.drawn.push(value);
    assert(drawn[0] == d.drawn[0] && drawn[1] == d.drawn[1]);
    let request = request_drawn(drawn);
    slot::law_fitting_means_room_in_every_dimension(d.slots, value as int, request);
    if d.slots[value as int].admits(request) {
        slot::law_charging_and_returning_move_allocation(d.slots, value as int, request);
    }
}

/// The empty cluster is that many slots of eight cores, 32 gibibytes and four gpus,
/// with nothing allocated.
pub proof fn law_the_empty_cluster(pending: int, running: int, slots: u32, i: int)
    requires
        0 <= i < slots,
    ensures
        ({
            let d = blank(pending, running, slots);
            &&& d.slots.len() == slots
            &&& d.slots[i].capacity.cpu_millis == 8 * 1_000
            &&& d.slots[i].capacity.mem_bytes == 32 * 1_024 * 1_024 * 1_024
            &&& d.slots[i].capacity.gpus == 4
            &&& d.slots[i].allocated.cpu_millis == 0
            &&& d.slots[i].allocated.mem_bytes == 0
            &&& d.slots[i].allocated.gpus == 0
            &&& d.running_left == running && d.pending_left == pending
            &&& d.jobs.dom() == Set::<JobId>::empty()
        }),
{
}

} // verus!

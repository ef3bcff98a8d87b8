//! Preemption: when a head job cannot be placed, evict strictly lower-class
//! running jobs on one slot so it fits. Runs only when a cycle ended with a head.
use crate::cluster::{SlotIndex, SlotInventory, WorkerSlot};
use crate::domain::time;
use crate::domain::{
    Arena, Job, JobId, JobState, PriorityClass, Resources, VirtualDuration, VirtualTime,
};
use crate::policy::backfill::RunningJob;
use crate::policy::sort;
use crate::policy::sort::{sort_unstable_by_key, Keyed};
use vstd::prelude::*;

verus! {

/// Who may evict whom, and how long a victim gets to stop.
#[derive(Clone, Copy, PartialEq, Eq, Debug, Structural)]
pub struct PreemptConfig {
    /// Heads of this class or higher may evict; `None` disables preemption.
    pub min_class: Option<PriorityClass>,
    /// A job evicted this many times becomes immune.
    pub max_preemptions: u8,
    /// How long a victim's worker gets to stop it cooperatively.
    pub grace: VirtualDuration,
}

impl Default for PreemptConfig {
    fn default() -> (config: Self)
        ensures
            config.min_class is None,
            config.max_preemptions == 3,
            config.grace@ == 5_000_000_000,
    {
        PreemptConfig { min_class: None, max_preemptions: 3, grace: VirtualDuration::from_secs(5) }
    }
}

/// One running job to evict from one slot.
#[derive(Clone, Copy, PartialEq, Eq, Debug, Structural)]
pub struct Eviction {
    pub job: JobId,
    pub slot: SlotIndex,
}

/// A candidate victim: sorted by class, then youngest first, then by its place
/// in the running set, so that equals keep dispatch order.
#[derive(Clone, Copy, Debug)]
pub struct Victim {
    pub class: PriorityClass,
    pub started: VirtualTime,
    pub job: JobId,
    pub resources: Resources,
    pub position: usize,
}

impl Keyed for Victim {
    open spec fn key(self) -> sort::Key {
        (self.class.rank() as u64, (u64::MAX - self.started@) as u64, self.position as u64)
    }

    fn sort_key(&self) -> (key: sort::Key) {
        (
            self.class.ordinal() as u64,
            u64::MAX - self.started.as_nanos(),
            self.position as u64,
        )
    }
}

/// Everything a preemption plan depends on.
pub struct Scene {
    pub head: Job,
    pub running: Seq<RunningJob>,
    pub jobs: Map<JobId, Job>,
    pub slots: Seq<WorkerSlot>,
    pub now: VirtualTime,
    pub config: PreemptConfig,
}

/// An earlier eviction is still waiting for its victim to stop.
pub open spec fn eviction_in_flight(running: Seq<RunningJob>, jobs: Map<JobId, Job>) -> bool {
    exists|k: int|
        0 <= k < running.len() && jobs.contains_key((#[trigger] running[k]).job)
            && jobs[running[k].job].state is Preempted
}

/// The head may evict: preemption is on, its class is high enough, and no
/// earlier eviction is still under way.
pub open spec fn may_evict(scene: Scene) -> bool {
    &&& scene.config.min_class matches Some(min) && scene.head.priority_class.rank() >= min.rank()
    &&& !eviction_in_flight(scene.running, scene.jobs)
}

/// Running job `r` may be evicted from `slot`.
pub open spec fn evictable(scene: Scene, r: RunningJob, slot: int) -> bool {
    &&& r.slot == slot
    &&& scene.jobs.contains_key(r.job)
    &&& scene.jobs[r.job].state is Running
    &&& scene.jobs[r.job].priority_class.rank() < scene.head.priority_class.rank()
    &&& scene.jobs[r.job].preemptions < scene.config.max_preemptions
}

/// The victim that running job `k` would make. The running set stores the
/// deadline; the start is one subtraction away.
pub open spec fn victim_at(scene: Scene, k: int) -> Victim {
    let r = scene.running[k];
    Victim {
        class: scene.jobs[r.job].priority_class,
        started: VirtualTime::at(
            time::floored_difference(r.ends_at@, scene.jobs[r.job].walltime_limit@),
        ),
        job: r.job,
        resources: r.resources,
        position: k as usize,
    }
}

/// Possible victims on `slot` among the first `n` running jobs, in order.
pub open spec fn victims_on(scene: Scene, slot: int, n: int) -> Seq<Victim>
    decreases n,
{
    if n <= 0 {
        Seq::empty()
    } else {
        let before = victims_on(scene, slot, n - 1);
        if evictable(scene, scene.running[n - 1], slot) {
            before.push(victim_at(scene, n - 1))
        } else {
            before
        }
    }
}

/// `order` lists the possible victims on `slot`, lowest class first, then youngest.
pub open spec fn is_eviction_order(scene: Scene, slot: int, order: Seq<Victim>) -> bool {
    &&& order.to_multiset() == victims_on(scene, slot, scene.running.len() as int).to_multiset()
    &&& sort::sorted_by_key(order)
}

/// The possible victims on `slot`, lowest class first, then youngest.
pub open spec fn eviction_order(scene: Scene, slot: int) -> Seq<Victim> {
    choose|order: Seq<Victim>| is_eviction_order(scene, slot, order)
}

/// Spare capacity once every victim of the list is gone.
pub open spec fn freed(spare: Resources, victims: Seq<Victim>) -> Resources
    decreases victims.len(),
{
    if victims.len() == 0 {
        spare
    } else {
        freed(spare, victims.drop_last()).plus(victims.last().resources)
    }
}

/// Runtime thrown away by evicting every victim of the list, clamped.
pub open spec fn lost(now: VirtualTime, victims: Seq<Victim>) -> u64
    decreases victims.len(),
{
    if victims.len() == 0 {
        0
    } else {
        time::clamped_sum(
            lost(now, victims.drop_last()),
            time::floored_difference(now@, victims.last().started@),
        )
    }
}

/// The first `k` victims in order, and no fewer, make room for the head.
pub open spec fn suffices(scene: Scene, slot: int, k: int) -> bool {
    let order = eviction_order(scene, slot);
    let spare = scene.slots[slot].spare();
    &&& 0 <= k <= order.len()
    &&& scene.head.request.le(freed(spare, order.take(k)))
    &&& forall|j: int| 0 <= j < k ==> !scene.head.request.le(#[trigger] freed(spare, order.take(j)))
}

/// Evicting `victims` from `slot` is the plan there: the slot is large enough,
/// something must go, and these are the first that suffice.
pub open spec fn is_plan(scene: Scene, slot: int, victims: Seq<Victim>) -> bool {
    &&& 0 <= slot < scene.slots.len()
    &&& scene.head.request.le(scene.slots[slot].capacity)
    &&& victims.len() > 0
    &&& suffices(scene, slot, victims.len() as int)
    &&& victims == eviction_order(scene, slot).take(victims.len() as int)
}

/// Fewer victims are cheaper; among as many, the less runtime lost.
pub open spec fn cheaper(now: VirtualTime, a: Seq<Victim>, b: Seq<Victim>) -> bool {
    a.len() < b.len() || (a.len() == b.len() && lost(now, a) < lost(now, b))
}

/// `victims` on `slot` is the cheapest plan among the first `n` slots, and the
/// lowest slot's among the equally cheap.
pub open spec fn is_best(scene: Scene, slot: int, victims: Seq<Victim>, n: int) -> bool {
    &&& is_plan(scene, slot, victims)
    &&& slot < n
    &&& forall|other: int, theirs: Seq<Victim>| #[trigger]
        is_plan(scene, other, theirs) && other < n ==> !cheaper(scene.now, theirs, victims) && (
        other < slot ==> cheaper(scene.now, victims, theirs))
}

/// None of the first `n` slots can be freed enough.
pub open spec fn no_plan(scene: Scene, n: int) -> bool {
    forall|other: int, theirs: Seq<Victim>| #[trigger] is_plan(scene, other, theirs) ==> other >= n
}

/// The evictions that a plan amounts to.
pub open spec fn evictions(victims: Seq<Victim>, slot: SlotIndex) -> Seq<Eviction> {
    victims.map_values(|v: Victim| Eviction { job: v.job, slot })
}

/// `after` is `before` with the cheapest plan's evictions behind it, all on `slot`.
pub open spec fn appends_best_plan(
    scene: Scene,
    slot: SlotIndex,
    before: Seq<Eviction>,
    after: Seq<Eviction>,
) -> bool {
    exists|victims: Seq<Victim>| #[trigger]
        is_best(scene, slot as int, victims, scene.slots.len() as int) && after == before
            + evictions(victims, slot)
}

proof fn lemma_positions_ascend(scene: Scene, slot: int, n: int)
    requires
        0 <= n <= scene.running.len() <= usize::MAX,
    ensures
        forall|i: int, j: int|
            0 <= i < j < victims_on(scene, slot, n).len() ==> (#[trigger] victims_on(
                scene,
                slot,
                n,
            )[i]).position < (#[trigger] victims_on(scene, slot, n)[j]).position,
        forall|i: int|
            0 <= i < victims_on(scene, slot, n).len() ==> (#[trigger] victims_on(
                scene,
                slot,
                n,
            )[i]).position < n,
    decreases n,
{
    if n > 0 {
        lemma_positions_ascend(scene, slot, n - 1);
    }
}

/// Every possible victim stems from a running job that may be evicted.
proof fn lemma_victims_are_evictable(scene: Scene, slot: int, n: int)
    requires
        0 <= n <= scene.running.len() <= usize::MAX,
    ensures
        forall|i: int|
            0 <= i < victims_on(scene, slot, n).len() ==> {
                let v = #[trigger] victims_on(scene, slot, n)[i];
                &&& v.position < scene.running.len()
                &&& evictable(scene, scene.running[v.position as int], slot)
                &&& v == victim_at(scene, v.position as int)
            },
    decreases n,
{
    if n > 0 {
        lemma_victims_are_evictable(scene, slot, n - 1);
    }
}

/// Two key-ordered lists of the same victims at distinct positions are equal.
proof fn lemma_order_unique(a: Seq<Victim>, b: Seq<Victim>)
    requires
        a.to_multiset() == b.to_multiset(),
        sort::sorted_by_key(a),
        sort::sorted_by_key(b),
        forall|x: Victim, y: Victim|
            a.contains(x) && a.contains(y) && #[trigger] x.key() == #[trigger] y.key() ==> x == y,
    ensures
        a == b,
    decreases a.len(),
{
    broadcast use vstd::seq_lib::group_to_multiset_ensures;

    assert(a.len() == a.to_multiset().len() && b.len() == b.to_multiset().len());
    if a.len() == 0 {
        assert(a =~= b);
    } else {
        let x = a.last();
        let y = b.last();
        assert(b.to_multiset().contains(y) && a.to_multiset().contains(y));
        assert(a.to_multiset().contains(x) && b.to_multiset().contains(x));
        assert(a.contains(y) && b.contains(x) && a.contains(x));
        let i = choose|i: int| 0 <= i < a.len() && a[i] == y;
        let j = choose|j: int| 0 <= j < b.len() && b[j] == x;
        assert(sort::key_le(a[i].key(), a[a.len() - 1].key()));
        assert(sort::key_le(b[j].key(), b[b.len() - 1].key()));
        sort::lemma_key_order(x.key(), y.key(), x.key());
        assert(x == y);
        let (ra, rb) = (a.drop_last(), b.drop_last());
        assert(ra =~= a.remove(a.len() - 1) && rb =~= b.remove(b.len() - 1));
        assert(ra.to_multiset() =~= a.to_multiset().remove(x));
        assert(rb.to_multiset() =~= b.to_multiset().remove(y));
        assert forall|i: int, j: int| 0 <= i <= j < ra.len() implies sort::key_le(
            #[trigger] ra[i].key(),
            #[trigger] ra[j].key(),
        ) by {
            assert(sort::key_le(a[i].key(), a[j].key()));
        }
        assert forall|i: int, j: int| 0 <= i <= j < rb.len() implies sort::key_le(
            #[trigger] rb[i].key(),
            #[trigger] rb[j].key(),
        ) by {
            assert(sort::key_le(b[i].key(), b[j].key()));
        }
        assert forall|u: Victim, v: Victim|
            ra.contains(u) && ra.contains(v) && #[trigger] u.key() == #[trigger] v.key() implies u
            == v by {
            assert(a.contains(u) && a.contains(v));
        }
        lemma_order_unique(ra, rb);
        assert(a =~= ra.push(x) && b =~= rb.push(y));
    }
}

/// There is only one eviction order.
proof fn lemma_eviction_order_unique(scene: Scene, slot: int, order: Seq<Victim>)
    requires
        is_eviction_order(scene, slot, order),
        scene.running.len() <= usize::MAX,
    ensures
        eviction_order(scene, slot) == order,
{
    broadcast use vstd::seq_lib::group_to_multiset_ensures;

    let other = eviction_order(scene, slot);
    assert(is_eviction_order(scene, slot, other));
    let n = scene.running.len() as int;
    let all = victims_on(scene, slot, n);
    lemma_positions_ascend(scene, slot, n);
    assert forall|x: Victim, y: Victim|
        other.contains(x) && other.contains(y) && #[trigger] x.key() == #[trigger] y.key() implies x
        == y by {
        assert(other.to_multiset().contains(x) && other.to_multiset().contains(y));
        assert(all.to_multiset().contains(x) && all.to_multiset().contains(y));
        assert(all.contains(x) && all.contains(y));
        let i = choose|i: int| 0 <= i < all.len() && all[i] == x;
        let j = choose|j: int| 0 <= j < all.len() && all[j] == y;
        if i < j {
            assert(all[i].position < all[j].position);
        } else if j < i {
            assert(all[j].position < all[i].position);
        }
    }
    lemma_order_unique(other, order);
}

/// There is an eviction order.
proof fn lemma_eviction_order_exists(scene: Scene, slot: int)
    ensures
        is_eviction_order(scene, slot, eviction_order(scene, slot)),
{
    let order = lemma_sortable(victims_on(scene, slot, scene.running.len() as int));
    assert(is_eviction_order(scene, slot, order));
}

/// Any list of victims can be put in key order.
proof fn lemma_sortable(victims: Seq<Victim>) -> (order: Seq<Victim>)
    ensures
        order.to_multiset() == victims.to_multiset(),
        sort::sorted_by_key(order),
    decreases victims.len(),
{
    broadcast use vstd::seq_lib::group_to_multiset_ensures;

    if victims.len() == 0 {
        victims
    } else {
        let rest = lemma_sortable(victims.drop_last());
        let v = victims.last();
        let at = lemma_insertion_point(rest, v, rest.len() as int);
        let order = rest.insert(at, v);
        assert(victims =~= victims.drop_last().push(v));
        assert(order.to_multiset() =~= rest.to_multiset().insert(v));
        assert forall|i: int, j: int| 0 <= i <= j < order.len() implies sort::key_le(
            #[trigger] order[i].key(),
            #[trigger] order[j].key(),
        ) by {
            let (a, b) = (
                if i < at {
                    i
                } else {
                    i - 1
                },
                if j < at {
                    j
                } else {
                    j - 1
                },
            );
            if i != at && j != at {
                assert(sort::key_le(rest[a].key(), rest[b].key()));
            } else if i == at && j != at {
                assert(sort::key_le(v.key(), rest[b].key()));
            } else if i != at && j == at {
                assert(sort::key_le(rest[a].key(), v.key()));
            }
        }
        order
    }
}

/// Where `v` belongs in a sorted list, looking below `n`.
proof fn lemma_insertion_point(sorted: Seq<Victim>, v: Victim, n: int) -> (at: int)
    requires
        sort::sorted_by_key(sorted),
        0 <= n <= sorted.len(),
        forall|i: int| n <= i < sorted.len() ==> sort::key_le(v.key(), #[trigger] sorted[i].key()),
    ensures
        0 <= at <= n,
        forall|i: int| 0 <= i < at ==> sort::key_le(#[trigger] sorted[i].key(), v.key()),
        forall|i: int| at <= i < sorted.len() ==> sort::key_le(v.key(), #[trigger] sorted[i].key()),
    decreases n,
{
    if n == 0 {
        0
    } else if sort::key_le(sorted[n - 1].key(), v.key()) {
        assert forall|i: int| 0 <= i < n implies sort::key_le(#[trigger] sorted[i].key(), v.key()) by {
            assert(sort::key_le(sorted[i].key(), sorted[n - 1].key()));
        }
        n
    } else {
        lemma_insertion_point(sorted, v, n - 1)
    }
}

/// At most one list of victims is the plan for a slot.
proof fn lemma_plan_unique(scene: Scene, slot: int, a: Seq<Victim>, b: Seq<Victim>)
    requires
        is_plan(scene, slot, a),
        is_plan(scene, slot, b),
    ensures
        a == b,
{
    let order = eviction_order(scene, slot);
    let spare = scene.slots[slot].spare();
    if a.len() < b.len() {
        assert(!scene.head.request.le(freed(spare, order.take(a.len() as int))));
    } else if b.len() < a.len() {
        assert(!scene.head.request.le(freed(spare, order.take(b.len() as int))));
    }
}

/// Collects the possible victims on `slot`, in eviction order.
fn collect_victims(
    head: &Job,
    running: &[RunningJob],
    jobs: &Arena<Job>,
    config: &PreemptConfig,
    slot: SlotIndex,
    candidates: &mut Vec<Victim>,
    Ghost(scene): Ghost<Scene>,
)
    requires
        scene.head == *head,
        scene.running == running@,
        scene.jobs == jobs@,
        scene.config == *config,
    ensures
        final(candidates)@ == eviction_order(scene, slot as int),
        is_eviction_order(scene, slot as int, final(candidates)@),
{
    candidates.clear();
    let mut i: usize = 0;
    while i < running.len()
        invariant
            i <= running@.len(),
            scene.head == *head,
            scene.running == running@,
            scene.jobs == jobs@,
            scene.config == *config,
            candidates@ == victims_on(scene, slot as int, i as int),
        decreases running@.len() - i,
    {
        let r: RunningJob = running[i];
        if r.slot == slot {
            if let Some(job) = jobs.get(r.job) {
                let eligible: bool = job.state == JobState::Running && job.priority_class.ordinal()
                    < head.priority_class.ordinal() && job.preemptions < config.max_preemptions;
                if eligible {
                    let started = VirtualTime::from_nanos(
                        r.ends_at.as_nanos().saturating_sub(job.walltime_limit.as_nanos()),
                    );
                    candidates.push(
                        Victim {
                            class: job.priority_class,
                            started,
                            job: r.job,
                            resources: r.resources,
                            position: i,
                        },
                    );
                }
            }
        }
        i += 1;
    }
    sort_unstable_by_key(candidates);
    proof {
        assert(running.len() == running@.len());
        lemma_eviction_order_unique(scene, slot as int, candidates@);
    }
}

/// How many victims in order must go before the head fits, how much runtime that
/// loses, and whether it fits in the end.
fn count_victims(
    request: &Resources,
    spare: Resources,
    now: VirtualTime,
    order: &[Victim],
) -> (tally: (usize, u64, bool))
    ensures
        tally.0 <= order@.len(),
        tally.1 == lost(now, order@.take(tally.0 as int)),
        tally.2 == request.le(freed(spare, order@.take(tally.0 as int))),
        !tally.2 ==> tally.0 == order@.len(),
        forall|j: int|
            0 <= j < tally.0 ==> !request.le(#[trigger] freed(spare, order@.take(j))),
{
    let mut room = spare;
    let mut runtime: u64 = 0;
    let mut count: usize = 0;
    proof {
        assert(order@.take(0) =~= Seq::<Victim>::empty());
    }
    while count < order.len() && !request.fits_within(&room)
        invariant
            count <= order@.len(),
            room == freed(spare, order@.take(count as int)),
            runtime == lost(now, order@.take(count as int)),
            forall|j: int|
                0 <= j < count ==> !request.le(#[trigger] freed(spare, order@.take(j))),
        decreases order@.len() - count,
    {
        let v: Victim = order[count];
        proof {
            assert(order@.take(count + 1).drop_last() =~= order@.take(count as int));
        }
        room = room.saturating_add(&v.resources);
        runtime = runtime.saturating_add(now.saturating_sub_time(v.started).as_nanos());
        count += 1;
    }
    (count, runtime, request.fits_within(&room))
}

/// True when some running job has been told to stop and has not stopped yet.
fn any_in_flight(running: &[RunningJob], jobs: &Arena<Job>) -> (found: bool)
    ensures
        found == eviction_in_flight(running@, jobs@),
{
    let mut i: usize = 0;
    while i < running.len()
        invariant
            i <= running@.len(),
            forall|k: int|
                0 <= k < i && jobs@.contains_key((#[trigger] running@[k]).job)
                    ==> !(jobs@[running@[k].job].state is Preempted),
        decreases running@.len() - i,
    {
        let r: RunningJob = running[i];
        if let Some(job) = jobs.get(r.job) {
            if job.state == JobState::Preempted {
                assert(jobs@.contains_key(running@[i as int].job));
                return true;
            }
        }
        i += 1;
    }
    false
}

/// Chooses victims for `head`, appends them to `out`, and returns their slot.
/// `None` when preemption is off, the head is below `min_class`, an earlier
/// eviction is still in flight, or no slot can be freed enough. Lowest class
/// first, then the youngest (least work lost); among slots, the fewest victims,
/// then the least lost runtime.
pub fn plan_preemption(
    head: &Job,
    running: &[RunningJob],
    jobs: &Arena<Job>,
    inventory: &SlotInventory,
    now: VirtualTime,
    config: &PreemptConfig,
    out: &mut Vec<Eviction>,
) -> (slot: Option<SlotIndex>)
    requires
        inventory@.len() <= u32::MAX,
    ensures
        ({
            let scene = Scene {
                head: *head,
                running: running@,
                jobs: jobs@,
                slots: inventory@,
                now,
                config: *config,
            };
            match slot {
                Some(s) => {
                    &&& may_evict(scene)
                    &&& appends_best_plan(scene, s, old(out)@, final(out)@)
                },
                None => {
                    &&& !may_evict(scene) || no_plan(scene, inventory@.len() as int)
                    &&& final(out)@ == old(out)@
                },
            }
        }),
{
    let ghost scene = Scene {
        head: *head,
        running: running@,
        jobs: jobs@,
        slots: inventory@,
        now,
        config: *config,
    };
    let Some(min) = config.min_class else {
        return None;
    };
    if head.priority_class.ordinal() < min.ordinal() {
        return None;
    }
    // One eviction at a time: victims in their grace are no longer Running, so
    // planning again would pick a second set for the same head.
    if any_in_flight(running, jobs) {
        return None;
    }
    // (slot, lost runtime in nanoseconds) of the best plan so far.
    let mut best: Option<(SlotIndex, u64)> = None;
    let mut chosen: Vec<Victim> = Vec::new();
    let mut candidates: Vec<Victim> = Vec::new();
    let count_slots: SlotIndex = inventory.len();
    let mut slot: SlotIndex = 0;
    while slot < count_slots
        invariant
            slot <= count_slots == inventory@.len(),
            scene == (Scene {
                head: *head,
                running: running@,
                jobs: jobs@,
                slots: inventory@,
                now,
                config: *config,
            }),
            match best {
                Some((s, l)) => is_best(scene, s as int, chosen@, slot as int) && l == lost(
                    now,
                    chosen@,
                ),
                None => no_plan(scene, slot as int),
            },
        decreases count_slots - slot,
    {
        let Some(entry) = inventory.slot(slot) else {
            return None;
        };
        let ghost was = chosen@;
        if head.request.fits_within(&entry.capacity) {
            collect_victims(
                head,
                running,
                jobs,
                config,
                slot,
                &mut candidates,
                Ghost(scene),
            );
            let (count, runtime, fits): (usize, u64, bool) = count_victims(
                &head.request,
                entry.free(),
                now,
                &candidates,
            );
            let ghost found = candidates@.take(count as int);
            if count > 0 && fits {
                proof {
                    assert(is_plan(scene, slot as int, found)) by {
                        assert(suffices(scene, slot as int, count as int));
                        assert(found.len() == count);
                    }
                }
                let better: bool = match best {
                    None => true,
                    Some((_, l)) => count < chosen.len() || (count == chosen.len() && runtime < l),
                };
                if better {
                    best = Some((slot, runtime));
                    chosen.clear();
                    let mut i: usize = 0;
                    while i < count
                        invariant
                            i <= count <= candidates@.len(),
                            chosen@ == candidates@.take(i as int),
                        decreases count - i,
                    {
                        chosen.push(candidates[i]);
                        proof {
                            assert(candidates@.take(i + 1) =~= candidates@.take(i as int).push(
                                candidates@[i as int],
                            ));
                        }
                        i += 1;
                    }
                }
                proof {
                    lemma_next_slot(scene, slot as int, found);
                }
            } else {
                proof {
                    assert forall|theirs: Seq<Victim>| !#[trigger] is_plan(
                        scene,
                        slot as int,
                        theirs,
                    ) by {
                        lemma_no_plan_here(scene, slot as int, theirs, count as int, fits);
                    }
                }
            }
        }
        slot += 1;
    }
    let Some((slot, _)) = best else {
        return None;
    };
    let ghost before = out@;
    let mut i: usize = 0;
    while i < chosen.len()
        invariant
            i <= chosen@.len(),
            out@ == before + evictions(chosen@.take(i as int), slot),
        decreases chosen@.len() - i,
    {
        out.push(Eviction { job: chosen[i].job, slot });
        proof {
            assert(evictions(chosen@.take(i + 1), slot) =~= evictions(
                chosen@.take(i as int),
                slot,
            ).push(Eviction { job: chosen@[i as int].job, slot }));
        }
        i += 1;
    }
    proof {
        assert(chosen@.take(chosen@.len() as int) =~= chosen@);
        assert(is_best(scene, slot as int, chosen@, inventory@.len() as int));
    }
    Some(slot)
}

/// Every plan for `slot` is the one found there.
proof fn lemma_next_slot(scene: Scene, slot: int, found: Seq<Victim>)
    requires
        is_plan(scene, slot, found),
    ensures
        forall|theirs: Seq<Victim>| #[trigger] is_plan(scene, slot, theirs) ==> theirs == found,
{
    assert forall|theirs: Seq<Victim>| #[trigger] is_plan(scene, slot, theirs) implies theirs
        == found by {
        lemma_plan_unique(scene, slot, theirs, found);
    }
}

/// If the head fits with nobody gone, or not even with everybody gone, there is
/// no plan for the slot.
proof fn lemma_no_plan_here(scene: Scene, slot: int, theirs: Seq<Victim>, count: int, fits: bool)
    requires
        ({
            let order = eviction_order(scene, slot);
            let spare = scene.slots[slot].spare();
            &&& 0 <= count <= order.len()
            &&& fits == scene.head.request.le(freed(spare, order.take(count)))
            &&& !fits ==> count == order.len()
            &&& forall|j: int|
                0 <= j < count ==> !scene.head.request.le(#[trigger] freed(spare, order.take(j)))
        }),
        count == 0 || !fits,
    ensures
        !is_plan(scene, slot, theirs),
{
    let order = eviction_order(scene, slot);
    let spare = scene.slots[slot].spare();
    let n = theirs.len() as int;
    if is_plan(scene, slot, theirs) {
        if fits {
            assert(!scene.head.request.le(freed(spare, order.take(0))));
        } else if n < count {
            assert(!scene.head.request.le(freed(spare, order.take(n))));
        }
    }
}

/// A plan frees enough on one slot: with its victims gone the head fits, and
/// leaving any one of the last ones out would not do.
pub proof fn law_plan_frees_just_enough(scene: Scene, slot: int, victims: Seq<Victim>)
    requires
        is_plan(scene, slot, victims),
    ensures
        0 <= slot < scene.slots.len(),
        scene.head.request.le(scene.slots[slot].capacity),
        victims.len() > 0,
        scene.head.request.le(freed(scene.slots[slot].spare(), victims)),
        forall|j: int|
            0 <= j < victims.len() ==> !scene.head.request.le(
                #[trigger] freed(scene.slots[slot].spare(), victims.take(j)),
            ),
{
    let order = eviction_order(scene, slot);
    assert forall|j: int| 0 <= j < victims.len() implies !scene.head.request.le(
        #[trigger] freed(scene.slots[slot].spare(), victims.take(j)),
    ) by {
        assert(victims.take(j) =~= order.take(j));
    }
}

/// Every victim of a plan is running on its slot, in a strictly lower class than
/// the head, and has been evicted less often than the limit.
pub proof fn law_victims_are_fair_game(scene: Scene, slot: int, victims: Seq<Victim>, i: int)
    requires
        is_plan(scene, slot, victims),
        scene.running.len() <= usize::MAX,
        0 <= i < victims.len(),
    ensures
        ({
            let v = victims[i];
            let r = scene.running[v.position as int];
            &&& v.position < scene.running.len()
            &&& r.job == v.job && r.slot == slot && r.resources == v.resources
            &&& scene.jobs.contains_key(v.job)
            &&& scene.jobs[v.job].state is Running
            &&& scene.jobs[v.job].priority_class.rank() < scene.head.priority_class.rank()
            &&& scene.jobs[v.job].preemptions < scene.config.max_preemptions
        }),
{
    broadcast use vstd::seq_lib::group_to_multiset_ensures;

    lemma_eviction_order_exists(scene, slot);
    let order = eviction_order(scene, slot);
    let n = scene.running.len() as int;
    let all = victims_on(scene, slot, n);
    let v = victims[i];
    assert(order[i] == v);
    assert(order.contains(v));
    assert(order.to_multiset().contains(v));
    assert(all.to_multiset().contains(v));
    assert(all.contains(v));
    lemma_victims_are_evictable(scene, slot, n);
    let k = choose|k: int| 0 <= k < all.len() && all[k] == v;
    assert(evictable(scene, scene.running[all[k].position as int], slot));
}

/// Victims go lowest class first, and among one class the youngest first.
pub proof fn law_victims_go_lowest_and_youngest_first(
    scene: Scene,
    slot: int,
    victims: Seq<Victim>,
    i: int,
    j: int,
)
    requires
        is_plan(scene, slot, victims),
        0 <= i < j < victims.len(),
    ensures
        victims[i].class.rank() <= victims[j].class.rank(),
        victims[i].class == victims[j].class ==> victims[i].started@ >= victims[j].started@,
{
    lemma_eviction_order_exists(scene, slot);
    let order = eviction_order(scene, slot);
    assert(sort::key_le(order[i].key(), order[j].key()));
}

/// The chosen plan evicts the fewest: no other slot could be freed with fewer
/// victims; with as many, none loses less runtime; with as much lost, none stands
/// lower.
pub proof fn law_best_plan_has_fewest_victims_then_least_lost(
    scene: Scene,
    slot: int,
    victims: Seq<Victim>,
    other: int,
    theirs: Seq<Victim>,
)
    requires
        is_best(scene, slot, victims, scene.slots.len() as int),
        is_plan(scene, other, theirs),
    ensures
        victims.len() <= theirs.len(),
        victims.len() == theirs.len() ==> lost(scene.now, victims) <= lost(scene.now, theirs),
        victims.len() == theirs.len() && lost(scene.now, victims) == lost(scene.now, theirs)
            ==> slot <= other,
{
}

/// What a plan loses adds up over its victims: for each the time from its start to
/// now, and nothing for one that starts later.
pub proof fn law_lost_runtime_adds_up(now: VirtualTime, victims: Seq<Victim>, v: Victim)
    ensures
        lost(now, Seq::<Victim>::empty()) == 0,
        ({
            let ran = if now@ > v.started@ {
                now@ - v.started@
            } else {
                0
            };
            lost(now, victims.push(v)) == (if lost(now, victims) + ran <= u64::MAX {
                lost(now, victims) + ran
            } else {
                u64::MAX as int
            })
        }),
{
    assert(victims.push(v).drop_last() =~= victims);
}

/// What is freed adds up over the victims in every dimension, each clamped at the
/// top of its range.
pub proof fn law_freed_capacity_adds_up(spare: Resources, victims: Seq<Victim>, v: Victim)
    ensures
        freed(spare, Seq::<Victim>::empty()) == spare,
        ({
            let before = freed(spare, victims);
            let after = freed(spare, victims.push(v));
            &&& after.cpu_millis == (if before.cpu_millis + v.resources.cpu_millis <= u32::MAX {
                before.cpu_millis + v.resources.cpu_millis
            } else {
                u32::MAX as int
            })
            &&& after.mem_bytes == (if before.mem_bytes + v.resources.mem_bytes <= u64::MAX {
                before.mem_bytes + v.resources.mem_bytes
            } else {
                u64::MAX as int
            })
            &&& after.gpus == (if before.gpus + v.resources.gpus <= u8::MAX {
                before.gpus + v.resources.gpus
            } else {
                u8::MAX as int
            })
        }),
{
    assert(victims.push(v).drop_last() =~= victims);
}

/// Preemption happens exactly when it is switched on, for a head of the least class
/// or above, while no running job is being evicted already.
pub proof fn law_who_may_evict(scene: Scene)
    ensures
        may_evict(scene) <==> {
            &&& scene.config.min_class is Some
            &&& scene.config.min_class->0.rank() <= scene.head.priority_class.rank()
            &&& forall|k: int|
                0 <= k < scene.running.len() && scene.jobs.contains_key(
                    (#[trigger] scene.running[k]).job,
                ) ==> scene.jobs[scene.running[k].job].state != JobState::Preempted
        },
{
    if !eviction_in_flight(scene.running, scene.jobs) {
        assert forall|k: int|
            0 <= k < scene.running.len() && scene.jobs.contains_key(
                (#[trigger] scene.running[k]).job,
            ) implies scene.jobs[scene.running[k].job].state != JobState::Preempted by {}
    }
}

/// The eviction order of a slot holds every running job that may be evicted from it,
/// once.
proof fn lemma_order_holds_evictable(scene: Scene, slot: int, k: int) -> (at: int)
    requires
        scene.running.len() <= usize::MAX,
        0 <= k < scene.running.len(),
        evictable(scene, scene.running[k], slot),
    ensures
        0 <= at < eviction_order(scene, slot).len(),
        eviction_order(scene, slot)[at] == victim_at(scene, k),
{
    broadcast use vstd::seq_lib::group_to_multiset_ensures;

    lemma_eviction_order_exists(scene, slot);
    let n = scene.running.len() as int;
    let all = victims_on(scene, slot, n);
    let order = eviction_order(scene, slot);
    let v = victim_at(scene, k);
    lemma_evictable_is_listed(scene, slot, n, k);
    assert(all.to_multiset().contains(v));
    assert(order.to_multiset().contains(v));
    assert(order.contains(v));
    choose|at: int| 0 <= at < order.len() && order[at] == v
}

proof fn lemma_evictable_is_listed(scene: Scene, slot: int, n: int, k: int)
    requires
        0 <= k < n <= scene.running.len(),
        evictable(scene, scene.running[k], slot),
    ensures
        victims_on(scene, slot, n).contains(victim_at(scene, k)),
    decreases n,
{
    let all = victims_on(scene, slot, n);
    if k == n - 1 {
        assert(all.last() == victim_at(scene, k));
    } else {
        lemma_evictable_is_listed(scene, slot, n - 1, k);
        let before = victims_on(scene, slot, n - 1);
        let i = choose|i: int| 0 <= i < before.len() && before[i] == victim_at(scene, k);
        assert(all[i] == victim_at(scene, k));
    }
}

/// A victim is a running job of the slot, with the class, start and resources it
/// runs with: it started its whole walltime before its deadline.
pub proof fn law_victims_are_taken_as_they_run(
    scene: Scene,
    slot: int,
    victims: Seq<Victim>,
    i: int,
)
    requires
        is_plan(scene, slot, victims),
        scene.running.len() <= usize::MAX,
        0 <= i < victims.len(),
    ensures
        ({
            let v = victims[i];
            let r = scene.running[v.position as int];
            let job = scene.jobs[r.job];
            &&& v.position < scene.running.len()
            &&& v.job == r.job && v.resources == r.resources && v.class == job.priority_class
            &&& v.started@ == (if r.ends_at@ > job.walltime_limit@ {
                r.ends_at@ - job.walltime_limit@
            } else {
                0
            })
        }),
{
    broadcast use {vstd::seq_lib::group_to_multiset_ensures, time::law_nanos_round_trip};

    law_victims_are_fair_game(scene, slot, victims, i);
    lemma_eviction_order_exists(scene, slot);
    let order = eviction_order(scene, slot);
    let n = scene.running.len() as int;
    let all = victims_on(scene, slot, n);
    let v = victims[i];
    assert(order[i] == v);
    assert(order.contains(v));
    assert(order.to_multiset().contains(v));
    assert(all.to_multiset().contains(v));
    assert(all.contains(v));
    lemma_victims_are_evictable(scene, slot, n);
    let k = choose|k: int| 0 <= k < all.len() && all[k] == v;
    assert(v == victim_at(scene, all[k].position as int));
}

/// A plan spares nobody out of turn: of a running job of the slot that could be
/// evicted but is left alone, every victim is of a lower class, or of its class and
/// no older, or started with it and stands before it in the running set.
pub proof fn law_plans_spare_nobody_out_of_turn(
    scene: Scene,
    slot: int,
    victims: Seq<Victim>,
    i: int,
    k: int,
)
    requires
        is_plan(scene, slot, victims),
        scene.running.len() <= usize::MAX,
        0 <= i < victims.len(),
        0 <= k < scene.running.len(),
        scene.running[k].slot == slot,
        scene.jobs.contains_key(scene.running[k].job),
        scene.jobs[scene.running[k].job].state is Running,
        scene.jobs[scene.running[k].job].priority_class.rank() < scene.head.priority_class.rank(),
        scene.jobs[scene.running[k].job].preemptions < scene.config.max_preemptions,
        forall|j: int| 0 <= j < victims.len() ==> (#[trigger] victims[j]).position != k,
    ensures
        ({
            let v = victims[i];
            let job = scene.jobs[scene.running[k].job];
            let ends = scene.running[k].ends_at@;
            let started = if ends > job.walltime_limit@ {
                ends - job.walltime_limit@
            } else {
                0
            };
            ||| v.class.rank() < job.priority_class.rank()
            ||| v.class == job.priority_class && v.started@ > started
            ||| v.class == job.priority_class && v.started@ == started && v.position < k
        }),
{
    broadcast use time::law_nanos_round_trip;

    lemma_eviction_order_exists(scene, slot);
    let at = lemma_order_holds_evictable(scene, slot, k);
    let order = eviction_order(scene, slot);
    let n = victims.len() as int;
    if at < n {
        assert(victims[at] == order[at]);
        assert(victims[at].position == k);
    }
    assert(victims[i] == order[i]);
    assert(sort::key_le(order[i].key(), order[at].key()));
    crate::domain::job::law_rank_determines_class(
        victims[i].class,
        scene.jobs[scene.running[k].job].priority_class,
    );
    assert(victims[i].position != k);
}

/// A slot has a plan whenever evicting helps: if the head does not fit it now, but
/// would if everybody went who may be evicted from it, then some of them in order
/// make the plan.
pub proof fn law_a_plan_is_found_where_evicting_helps(scene: Scene, slot: int)
    requires
        0 <= slot < scene.slots.len(),
        scene.head.request.le(scene.slots[slot].capacity),
        !scene.head.request.le(scene.slots[slot].spare()),
        scene.head.request.le(
            freed(scene.slots[slot].spare(), eviction_order(scene, slot)),
        ),
    ensures
        exists|victims: Seq<Victim>| is_plan(scene, slot, victims),
        !no_plan(scene, scene.slots.len() as int),
{
    let order = eviction_order(scene, slot);
    assert(order.take(order.len() as int) =~= order);
    assert(order.take(0) =~= Seq::<Victim>::empty());
    let k = lemma_least_that_suffices(scene, slot, order.len() as int);
    assert(k > 0);
    assert(is_plan(scene, slot, order.take(k)));
}

proof fn lemma_least_that_suffices(scene: Scene, slot: int, n: int) -> (k: int)
    requires
        0 <= n <= eviction_order(scene, slot).len(),
        scene.head.request.le(
            freed(scene.slots[slot].spare(), eviction_order(scene, slot).take(n)),
        ),
    ensures
        suffices(scene, slot, k),
    decreases n,
{
    let order = eviction_order(scene, slot);
    let spare = scene.slots[slot].spare();
    if exists|j: int| 0 <= j < n && scene.head.request.le(#[trigger] freed(spare, order.take(j))) {
        let j = choose|j: int|
            0 <= j < n && scene.head.request.le(#[trigger] freed(spare, order.take(j)));
        lemma_least_that_suffices(scene, slot, j)
    } else {
        n
    }
}

/// The eviction order of a slot holds exactly the running jobs that may be evicted
/// from it: those running there, live and `Running`, of a class below the head's,
/// and evicted less often than the limit.
pub proof fn law_eviction_order_holds_all_fair_game(scene: Scene, slot: int, k: int)
    requires
        scene.running.len() <= usize::MAX,
        0 <= k < scene.running.len(),
    ensures
        (exists|at: int|
            0 <= at < eviction_order(scene, slot).len() && (#[trigger] eviction_order(
                scene,
                slot,
            )[at]).position == k) <==> {
            let job = scene.jobs[scene.running[k].job];
            &&& scene.running[k].slot == slot
            &&& scene.jobs.contains_key(scene.running[k].job)
            &&& job.state is Running
            &&& job.priority_class.rank() < scene.head.priority_class.rank()
            &&& job.preemptions < scene.config.max_preemptions
        },
{
    broadcast use vstd::seq_lib::group_to_multiset_ensures;

    let order = eviction_order(scene, slot);
    let n = scene.running.len() as int;
    let all = victims_on(scene, slot, n);
    lemma_eviction_order_exists(scene, slot);
    lemma_victims_are_evictable(scene, slot, n);
    if evictable(scene, scene.running[k], slot) {
        let at = lemma_order_holds_evictable(scene, slot, k);
        assert(order[at].position == k);
    }
    if exists|at: int| 0 <= at < order.len() && (#[trigger] order[at]).position == k {
        let at = choose|at: int| 0 <= at < order.len() && (#[trigger] order[at]).position == k;
        let v = order[at];
        assert(order.contains(v));
        assert(order.to_multiset().contains(v));
        assert(all.to_multiset().contains(v));
        assert(all.contains(v));
        let m = choose|m: int| 0 <= m < all.len() && all[m] == v;
        assert(evictable(scene, scene.running[all[m].position as int], slot));
    }
}

/// The evictions asked for are the plan's victims in order, each from the slot.
pub proof fn law_evictions_name_the_victims(victims: Seq<Victim>, slot: SlotIndex, i: int)
    requires
        0 <= i < victims.len(),
    ensures
        evictions(victims, slot).len() == victims.len(),
        evictions(victims, slot)[i].job == victims[i].job,
        evictions(victims, slot)[i].slot == slot,
{
}

} // verus!

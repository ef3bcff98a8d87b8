//! EASY backfill: only the head job gets a reservation; lower-priority jobs
//! may run ahead of it only if they provably do not push that reservation later.
use crate::cluster::slot;
use crate::cluster::{SlotIndex, SlotInventory, WorkerSlot};
use crate::domain::resource::Amount;
use crate::domain::{Arena, Job, JobId, ResourceRequest, Resources, VirtualTime};
use crate::policy::pack;
use crate::policy::pack::{DispatchDecision, Disposition, PackBudget};
use crate::policy::ready_set::ReadyEntry;
use crate::policy::sort;
use crate::policy::sort::{sort_unstable_by_key, Keyed};
use vstd::prelude::*;

verus! {

/// A job occupying capacity until its walltime deadline (`ends_at`).
#[derive(Clone, Copy, PartialEq, Eq, Debug, Structural)]
pub struct RunningJob {
    pub job: JobId,
    pub slot: SlotIndex,
    pub resources: Resources,
    pub ends_at: VirtualTime,
}

/// Capacity coming back to a slot at a deadline.
#[derive(Clone, Copy, Debug)]
struct Completion {
    ends_at: VirtualTime,
    resources: Resources,
}

impl Keyed for Completion {
    closed spec fn key(self) -> sort::Key {
        (self.ends_at@, 0, 0)
    }

    fn sort_key(&self) -> (key: sort::Key) {
        (self.ends_at.as_nanos(), 0, 0)
    }
}

/// Reusable buffers so a backfill pass allocates nothing in steady state.
#[derive(Debug)]
pub struct BackfillScratch {
    completions: Vec<Completion>,
    running_with_candidate: Vec<RunningJob>,
}

impl BackfillScratch {
    /// How many items the buffers hold.
    pub closed spec fn held(&self) -> nat {
        self.completions@.len() + self.running_with_candidate@.len()
    }

    /// Empty buffers.
    #[must_use]
    pub fn new() -> (scratch: Self)
        ensures
            scratch.held() == 0,
    {
        BackfillScratch { completions: Vec::new(), running_with_candidate: Vec::new() }
    }

    /// Empties both buffers, keeping their allocations.
    pub fn clear(&mut self)
        ensures
            final(self).held() == 0,
    {
        self.completions.clear();
        self.running_with_candidate.clear();
    }
}

impl Default for BackfillScratch {
    fn default() -> (scratch: Self)
        ensures
            scratch.held() == 0,
    {
        BackfillScratch::new()
    }
}

/// What the running jobs of `slot` give back by `time`.
pub open spec fn released(running: Seq<RunningJob>, slot: int, time: u64) -> Amount
    decreases running.len(),
{
    if running.len() == 0 {
        Amount::zero()
    } else {
        let r = running.last();
        released(running.drop_last(), slot, time).plus(
            if r.slot == slot && r.ends_at@ <= time {
                Amount::of(r.resources)
            } else {
                Amount::zero()
            },
        )
    }
}

/// True when `request` could start on `slot` at `time`: the slot is large enough,
/// and its spare capacity with everything given back by then covers the request.
pub open spec fn startable(
    slots: Seq<WorkerSlot>,
    running: Seq<RunningJob>,
    request: Resources,
    slot: int,
    time: u64,
) -> bool {
    &&& request.le(slots[slot].capacity)
    &&& Amount::of(slots[slot].spare()).plus(released(running, slot, time)).covers(request)
}

/// True when the deadline of running job `k` is a time at which `request` could
/// start on that job's slot.
pub open spec fn opens_at(
    slots: Seq<WorkerSlot>,
    running: Seq<RunningJob>,
    request: Resources,
    k: int,
) -> bool {
    &&& 0 <= k < running.len()
    &&& running[k].slot < slots.len()
    &&& startable(slots, running, request, running[k].slot as int, running[k].ends_at@)
}

/// True when some slot has room for `request` right now.
pub open spec fn fits_somewhere(slots: Seq<WorkerSlot>, request: Resources) -> bool {
    exists|i: int| 0 <= i < slots.len() && #[trigger] slot::fits_slot(slots, i, request)
}

/// `at` is the earliest time `request` can start: now if it fits already, else
/// the first deadline of a running job at which it could start, if there is one.
pub open spec fn is_reservation(
    slots: Seq<WorkerSlot>,
    running: Seq<RunningJob>,
    request: Resources,
    now: VirtualTime,
    at: Option<VirtualTime>,
) -> bool {
    if fits_somewhere(slots, request) {
        at == Some(now)
    } else {
        match at {
            Some(t) => {
                &&& exists|k: int|
                    #[trigger] opens_at(slots, running, request, k) && running[k].ends_at == t
                &&& forall|k: int|
                    #[trigger] opens_at(slots, running, request, k) ==> t@ <= running[k].ends_at@
            },
            None => forall|k: int| !#[trigger] opens_at(slots, running, request, k),
        }
    }
}

/// The earliest time `request` can start.
pub open spec fn reservation_of(
    slots: Seq<WorkerSlot>,
    running: Seq<RunningJob>,
    request: Resources,
    now: VirtualTime,
) -> Option<VirtualTime> {
    choose|at: Option<VirtualTime>| is_reservation(slots, running, request, now, at)
}

/// There is only one reservation.
pub(crate) proof fn lemma_reservation_unique(
    slots: Seq<WorkerSlot>,
    running: Seq<RunningJob>,
    request: Resources,
    now: VirtualTime,
    at: Option<VirtualTime>,
)
    requires
        is_reservation(slots, running, request, now, at),
    ensures
        reservation_of(slots, running, request, now) == at,
{
    let other = reservation_of(slots, running, request, now);
    assert(is_reservation(slots, running, request, now, other));
    if !fits_somewhere(slots, request) {
        if let (Some(a), Some(b)) = (at, other) {
            let ka = choose|k: int|
                #[trigger] opens_at(slots, running, request, k) && running[k].ends_at == a;
            let kb = choose|k: int|
                #[trigger] opens_at(slots, running, request, k) && running[k].ends_at == b;
            assert(opens_at(slots, running, request, ka) && opens_at(slots, running, request, kb));
            crate::domain::time::law_nanos_determine_time(a, b);
        }
    }
}

/// What a list of completions gives back by `time`.
spec fn due(completions: Seq<Completion>, time: u64) -> Amount
    decreases completions.len(),
{
    if completions.len() == 0 {
        Amount::zero()
    } else {
        let c = completions.last();
        due(completions.drop_last(), time).plus(share(c, time))
    }
}

spec fn share(c: Completion, time: u64) -> Amount {
    if c.ends_at@ <= time {
        Amount::of(c.resources)
    } else {
        Amount::zero()
    }
}

/// What a list of completions gives back in the end.
spec fn total(completions: Seq<Completion>) -> Amount
    decreases completions.len(),
{
    if completions.len() == 0 {
        Amount::zero()
    } else {
        total(completions.drop_last()).plus(Amount::of(completions.last().resources))
    }
}

proof fn lemma_due_remove(completions: Seq<Completion>, i: int, time: u64)
    requires
        0 <= i < completions.len(),
    ensures
        due(completions, time) == due(completions.remove(i), time).plus(
            share(completions[i], time),
        ),
    decreases completions.len(),
{
    let rest = completions.remove(i);
    if i == completions.len() - 1 {
        assert(rest =~= completions.drop_last());
    } else {
        lemma_due_remove(completions.drop_last(), i, time);
        assert(rest.drop_last() =~= completions.drop_last().remove(i));
        assert(rest.last() == completions.last());
    }
}

/// What is given back does not depend on the order of the list.
proof fn lemma_due_permutation(a: Seq<Completion>, b: Seq<Completion>, time: u64)
    requires
        a.to_multiset() == b.to_multiset(),
    ensures
        due(a, time) == due(b, time),
    decreases a.len(),
{
    broadcast use vstd::seq_lib::group_to_multiset_ensures;

    assert(a.len() == a.to_multiset().len() && b.len() == b.to_multiset().len());
    if a.len() > 0 {
        let x = a.last();
        assert(a.contains(x));
        assert(a.to_multiset().contains(x) && b.to_multiset().contains(x));
        assert(b.contains(x));
        let i = choose|i: int| 0 <= i < b.len() && b[i] == x;
        lemma_due_remove(b, i, time);
        assert(a.drop_last() =~= a.remove(a.len() - 1));
        assert(a.remove(a.len() - 1).to_multiset() =~= a.to_multiset().remove(x));
        assert(b.remove(i).to_multiset() =~= b.to_multiset().remove(x));
        lemma_due_permutation(a.drop_last(), b.remove(i), time);
    }
}

/// By the time the `n`-th of a sorted list ends, the first `n` have ended; before
/// the next one ends, no more than those have.
proof fn lemma_due_prefix(completions: Seq<Completion>, n: int, time: u64)
    requires
        sort::sorted_by_key(completions),
        0 <= n <= completions.len(),
    ensures
        n > 0 && completions[n - 1].ends_at@ <= time ==> total(completions.take(n)).le(
            due(completions, time),
        ),
        n < completions.len() && time < completions[n].ends_at@ ==> due(completions, time).le(
            total(completions.take(n)),
        ),
    decreases completions.len(),
{
    if completions.len() > 0 {
        let rest = completions.drop_last();
        assert(sort::sorted_by_key(rest)) by {
            assert forall|i: int, j: int| 0 <= i <= j < rest.len() implies sort::key_le(
                #[trigger] rest[i].key(),
                #[trigger] rest[j].key(),
            ) by {
                assert(sort::key_le(completions[i].key(), completions[j].key()));
            }
        }
        let last = completions.len() - 1;
        if n < completions.len() {
            lemma_due_prefix(rest, n, time);
            assert(rest.take(n) =~= completions.take(n));
            assert(sort::key_le(completions[n].key(), completions[last].key()));
            if n == last && time < completions[n].ends_at@ {
                assert(rest.take(n) =~= rest);
                lemma_due_below_total(rest, time);
            }
        } else {
            assert(completions.take(n) =~= completions);
            if completions[last].ends_at@ <= time {
                lemma_all_due(completions, time);
            }
        }
    }
}

proof fn lemma_due_below_total(completions: Seq<Completion>, time: u64)
    ensures
        due(completions, time).le(total(completions)),
        Amount::zero().le(due(completions, time)),
    decreases completions.len(),
{
    if completions.len() > 0 {
        lemma_due_below_total(completions.drop_last(), time);
    }
}

proof fn lemma_all_due(completions: Seq<Completion>, time: u64)
    requires
        sort::sorted_by_key(completions),
        completions.len() > 0,
        completions.last().ends_at@ <= time,
    ensures
        due(completions, time) == total(completions),
    decreases completions.len(),
{
    let rest = completions.drop_last();
    if rest.len() > 0 {
        assert(sort::sorted_by_key(rest)) by {
            assert forall|i: int, j: int| 0 <= i <= j < rest.len() implies sort::key_le(
                #[trigger] rest[i].key(),
                #[trigger] rest[j].key(),
            ) by {
                assert(sort::key_le(completions[i].key(), completions[j].key()));
            }
        }
        assert(sort::key_le(completions[rest.len() - 1].key(), completions.last().key()));
        lemma_all_due(rest, time);
    } else {
        reveal_with_fuel(due, 2);
        reveal_with_fuel(total, 2);
    }
}

/// The completions of `slot` among the first `n` running jobs, in order.
spec fn completions_on(running: Seq<RunningJob>, slot: int) -> Seq<Completion>
    decreases running.len(),
{
    if running.len() == 0 {
        Seq::empty()
    } else {
        let r = running.last();
        let before = completions_on(running.drop_last(), slot);
        if r.slot == slot {
            before.push(Completion { ends_at: r.ends_at, resources: r.resources })
        } else {
            before
        }
    }
}

proof fn lemma_completions_release(running: Seq<RunningJob>, slot: int, time: u64)
    ensures
        due(completions_on(running, slot), time) == released(running, slot, time),
    decreases running.len(),
{
    if running.len() > 0 {
        lemma_completions_release(running.drop_last(), slot, time);
        let before = completions_on(running.drop_last(), slot);
        let r = running.last();
        let c = Completion { ends_at: r.ends_at, resources: r.resources };
        assert(before.push(c).drop_last() =~= before);
    }
}

/// Every running job of the slot has its completion in the list, and the other
/// way round.
proof fn lemma_completions_cover(running: Seq<RunningJob>, slot: int)
    ensures
        forall|k: int|
            0 <= k < running.len() && (#[trigger] running[k]).slot == slot ==> completions_on(
                running,
                slot,
            ).contains(Completion { ends_at: running[k].ends_at, resources: running[k].resources }),
        forall|c: Completion| #[trigger]
            completions_on(running, slot).contains(c) ==> exists|k: int|
                0 <= k < running.len() && (#[trigger] running[k]).slot == slot && running[k].ends_at
                    == c.ends_at,
    decreases running.len(),
{
    if running.len() > 0 {
        let rest = running.drop_last();
        lemma_completions_cover(rest, slot);
        let before = completions_on(rest, slot);
        let all = completions_on(running, slot);
        let r = running.last();
        let last = Completion { ends_at: r.ends_at, resources: r.resources };
        assert forall|k: int| 0 <= k < running.len() && (#[trigger] running[k]).slot == slot implies all.contains(
            Completion { ends_at: running[k].ends_at, resources: running[k].resources },
        ) by {
            let c = Completion { ends_at: running[k].ends_at, resources: running[k].resources };
            if k < rest.len() {
                assert(rest[k] == running[k]);
                assert(before.contains(c));
                let i = choose|i: int| 0 <= i < before.len() && before[i] == c;
                assert(all[i] == c);
            } else {
                assert(all[all.len() - 1] == c);
            }
        }
        assert forall|c: Completion| #[trigger] all.contains(c) implies exists|k: int|
            0 <= k < running.len() && (#[trigger] running[k]).slot == slot && running[k].ends_at
                == c.ends_at by {
            let i = choose|i: int| 0 <= i < all.len() && all[i] == c;
            if r.slot == slot && i == before.len() {
                assert(running[running.len() - 1].slot == slot);
            } else {
                assert(before[i] == c);
                assert(before.contains(c));
                let k = choose|k: int|
                    0 <= k < rest.len() && (#[trigger] rest[k]).slot == slot && rest[k].ends_at
                        == c.ends_at;
                assert(running[k] == rest[k]);
            }
        }
    }
}

/// `at` is the first deadline of a running job of `slot` at which `request`
/// could start there.
spec fn is_slot_reservation(
    slots: Seq<WorkerSlot>,
    running: Seq<RunningJob>,
    request: Resources,
    slot: int,
    at: Option<VirtualTime>,
) -> bool {
    match at {
        Some(t) => {
            &&& exists|k: int|
                #[trigger] opens_at(slots, running, request, k) && running[k].slot == slot
                    && running[k].ends_at == t
            &&& forall|k: int|
                #[trigger] opens_at(slots, running, request, k) && running[k].slot == slot ==> t@
                    <= running[k].ends_at@
        },
        None => forall|k: int|
            #[trigger] opens_at(slots, running, request, k) ==> running[k].slot != slot,
    }
}

/// Replays the completions of one slot that is large enough but too full right
/// now, accumulating freed capacity until the request fits.
fn slot_reservation(
    request: &ResourceRequest,
    inventory: &SlotInventory,
    slot: SlotIndex,
    running: &[RunningJob],
    scratch: &mut BackfillScratch,
) -> (at: Option<VirtualTime>)
    requires
        slot < inventory@.len(),
        request.le(inventory@[slot as int].capacity),
        !slot::fits_slot(inventory@, slot as int, *request),
    ensures
        is_slot_reservation(inventory@, running@, *request, slot as int, at),
{
    let ghost slots = inventory@;
    let Some(entry) = inventory.slot(slot) else {
        return None;
    };
    scratch.completions.clear();
    let mut i: usize = 0;
    while i < running.len()
        invariant
            i <= running@.len(),
            scratch.completions@ == completions_on(running@.take(i as int), slot as int),
        decreases running@.len() - i,
    {
        let r: RunningJob = running[i];
        proof {
            assert(running@.take(i + 1).drop_last() =~= running@.take(i as int));
        }
        if r.slot == slot {
            scratch.completions.push(
                Completion { ends_at: r.ends_at, resources: r.resources },
            );
        }
        i += 1;
    }
    let ghost collected = scratch.completions@;
    proof {
        assert(running@.take(running@.len() as int) =~= running@);
        assert(collected == completions_on(running@, slot as int));
    }
    sort_unstable_by_key(&mut scratch.completions);
    let ghost sorted = scratch.completions@;
    let ghost start = Amount::of(slots[slot as int].spare());
    let mut free = entry.free();
    let mut j: usize = 0;
    proof {
        assert(sorted.take(0) =~= Seq::<Completion>::empty());
    }
    while j < scratch.completions.len()
        invariant
            scratch.completions@ == sorted,
            j <= sorted.len(),
            sort::sorted_by_key(sorted),
            sorted.to_multiset() == collected.to_multiset(),
            collected == completions_on(running@, slot as int),
            slots == inventory@,
            slot < slots.len(),
            request.le(slots[slot as int].capacity),
            start == Amount::of(slots[slot as int].spare()),
            start.plus(total(sorted.take(j as int))).clamps_to(free),
            !request.le(free),
        decreases sorted.len() - j,
    {
        let c: Completion = scratch.completions[j];
        free = free.saturating_add(&c.resources);
        proof {
            assert(sorted.take(j + 1).drop_last() =~= sorted.take(j as int));
            lemma_total_nonnegative(sorted.take(j as int));
        }
        if request.fits_within(&free) {
            proof {
                lemma_first_opening(slots, running@, *request, slot as int, sorted, j as int);
            }
            return Some(c.ends_at);
        }
        j += 1;
    }
    proof {
        assert(sorted.take(sorted.len() as int) =~= sorted);
        assert forall|k: int| #[trigger] opens_at(slots, running@, *request, k) implies running@[k].slot
            != slot by {
            if running@[k].slot == slot {
                let t = running@[k].ends_at@;
                lemma_completions_release(running@, slot as int, t);
                lemma_due_permutation(sorted, collected, t);
                lemma_due_below_total(sorted, t);
            }
        }
    }
    None
}

proof fn lemma_total_nonnegative(completions: Seq<Completion>)
    ensures
        Amount::zero().le(total(completions)),
    decreases completions.len(),
{
    if completions.len() > 0 {
        lemma_total_nonnegative(completions.drop_last());
    }
}

/// The first completion of a sorted list that makes the request fit is the first
/// opening of the slot.
proof fn lemma_first_opening(
    slots: Seq<WorkerSlot>,
    running: Seq<RunningJob>,
    request: Resources,
    slot: int,
    sorted: Seq<Completion>,
    j: int,
)
    requires
        0 <= slot < slots.len(),
        request.le(slots[slot].capacity),
        sort::sorted_by_key(sorted),
        sorted.to_multiset() == completions_on(running, slot).to_multiset(),
        0 <= j < sorted.len(),
        !Amount::of(slots[slot].spare()).plus(total(sorted.take(j))).covers(request),
        Amount::of(slots[slot].spare()).plus(total(sorted.take(j + 1))).covers(request),
    ensures
        is_slot_reservation(slots, running, request, slot, Some(sorted[j].ends_at)),
{
    broadcast use vstd::seq_lib::group_to_multiset_ensures;

    let collected = completions_on(running, slot);
    let t = sorted[j].ends_at;
    lemma_completions_cover(running, slot);
    assert(sorted.contains(sorted[j]));
    assert(sorted.to_multiset().contains(sorted[j]));
    assert(collected.to_multiset().contains(sorted[j]));
    assert(collected.contains(sorted[j]));
    let k = choose|k: int|
        0 <= k < running.len() && (#[trigger] running[k]).slot == slot && running[k].ends_at
            == sorted[j].ends_at;
    lemma_due_prefix(sorted, j + 1, t@);
    lemma_due_permutation(sorted, collected, t@);
    lemma_completions_release(running, slot, t@);
    assert(opens_at(slots, running, request, k));
    assert forall|m: int| #[trigger] opens_at(slots, running, request, m) && running[m].slot == slot implies t@
        <= running[m].ends_at@ by {
        let early = running[m].ends_at@;
        if early < t@ {
            lemma_due_prefix(sorted, j, early);
            lemma_due_permutation(sorted, collected, early);
            lemma_completions_release(running, slot, early);
        }
    }
}

/// Earliest time `request` can start if every running job holds its slot until
/// its deadline. `Some(now)` if it fits already; `None` if no slot could ever hold it.
#[must_use]
pub fn reservation_time(
    request: &ResourceRequest,
    inventory: &SlotInventory,
    running: &[RunningJob],
    now: VirtualTime,
    scratch: &mut BackfillScratch,
) -> (at: Option<VirtualTime>)
    requires
        inventory@.len() <= u32::MAX,
    ensures
        is_reservation(inventory@, running@, *request, now, at),
        at == reservation_of(inventory@, running@, *request, now),
{
    let ghost slots = inventory@;
    let mut earliest: Option<VirtualTime> = None;
    let count: SlotIndex = inventory.len();
    let mut slot_index: SlotIndex = 0;
    while slot_index < count
        invariant
            slots == inventory@,
            count == slots.len(),
            slot_index <= count,
            forall|i: int| 0 <= i < slot_index ==> !#[trigger] slot::fits_slot(slots, i, *request),
            match earliest {
                Some(t) => {
                    &&& exists|k: int|
                        #[trigger] opens_at(slots, running@, *request, k) && running@[k].ends_at
                            == t
                    &&& forall|k: int|
                        #[trigger] opens_at(slots, running@, *request, k) && running@[k].slot
                            < slot_index ==> t@ <= running@[k].ends_at@
                },
                None => forall|k: int|
                    #[trigger] opens_at(slots, running@, *request, k) ==> running@[k].slot
                        >= slot_index,
            },
        decreases count - slot_index,
    {
        let Some(entry) = inventory.slot(slot_index) else {
            return None;
        };
        if request.fits_within(&entry.capacity) {
            if request.fits_within(&entry.free()) {
                proof {
                    assert(slot::fits_slot(slots, slot_index as int, *request));
                    lemma_reservation_unique(slots, running@, *request, now, Some(now));
                }
                return Some(now);
            }
            let opening = slot_reservation(request, inventory, slot_index, running, scratch);
            if let Some(ends_at) = opening {
                // Keep the minimum across slots.
                earliest = match earliest {
                    Some(current) => if current.as_nanos() <= ends_at.as_nanos() {
                        Some(current)
                    } else {
                        Some(ends_at)
                    },
                    None => Some(ends_at),
                };
            }
        }
        slot_index += 1;
    }
    proof {
        lemma_reservation_unique(slots, running@, *request, now, earliest);
    }
    earliest
}

/// What one backfill pass did.
#[derive(Clone, Copy, PartialEq, Eq, Debug, Structural)]
pub struct BackfillOutcome {
    pub considered: usize,
    pub backfilled: usize,
    /// The head job's reservation, or `None` if it can never be satisfied.
    pub reservation: Option<VirtualTime>,
}

impl Default for BackfillOutcome {
    fn default() -> (outcome: Self)
        ensures
            outcome == (BackfillOutcome { considered: 0, backfilled: 0, reservation: None }),
    {
        BackfillOutcome { considered: 0, backfilled: 0, reservation: None }
    }
}

/// A backfill pass part way through: the slots as charged so far, the jobs
/// admitted, what became of each candidate, and how many live ones were looked at.
pub struct BackfillState {
    pub slots: Seq<WorkerSlot>,
    pub admitted: Seq<RunningJob>,
    pub disposition: Seq<Disposition>,
    pub considered: usize,
}

/// What a backfill pass is for: the head's request, its reservation, and the
/// running jobs and time that the reservation was computed from.
pub struct Ahead {
    pub request: Resources,
    pub due: VirtualTime,
    pub running: Seq<RunningJob>,
    pub now: VirtualTime,
}

/// The job as it would run from now on `slot`.
pub open spec fn run_of(id: JobId, job: Job, slot: SlotIndex, now: VirtualTime) -> RunningJob {
    RunningJob {
        job: id,
        slot,
        resources: job.request,
        ends_at: VirtualTime::at(
            crate::domain::time::clamped_sum(now@, job.walltime_limit@),
        ),
    }
}

/// Running `r` does not push the reservation later: it ends before the head is
/// due, or with it running the head can still start by then.
pub open spec fn harmless(slots: Seq<WorkerSlot>, ahead: Ahead, r: RunningJob) -> bool {
    ||| r.ends_at@ <= ahead.due@
    ||| reservation_of(
        slot::charge(slots, r.slot as int, r.resources),
        ahead.running.push(r),
        ahead.request,
        ahead.now,
    ) matches Some(at) && at@ <= ahead.due@
}

/// How a candidate is admitted, if it is: on its first fit, when that is harmless.
pub open spec fn admission(
    slots: Seq<WorkerSlot>,
    ahead: Ahead,
    id: JobId,
    job: Job,
) -> Option<RunningJob> {
    match slot::first_fit_of(slots, job.request) {
        Some(s) => if harmless(slots, ahead, run_of(id, job, s, ahead.now)) {
            Some(run_of(id, job, s, ahead.now))
        } else {
            None
        },
        None => None,
    }
}

/// The pass has nothing more to do at candidate `i`: there is none, or the budget
/// is used up.
pub open spec fn backfill_ends(
    candidates: Seq<ReadyEntry>,
    budget: PackBudget,
    i: int,
    st: BackfillState,
) -> bool {
    i < 0 || i >= candidates.len() || st.admitted.len() >= budget.max_decisions || st.considered
        >= budget.max_scanned
}

/// The pass once it has looked at candidate `i`: a stale handle is dropped, a live
/// job admitted if that is harmless.
pub open spec fn backfill_next(
    candidates: Seq<ReadyEntry>,
    jobs: Map<JobId, Job>,
    ahead: Ahead,
    i: int,
    st: BackfillState,
) -> BackfillState {
    let id = candidates[i].job;
    if !jobs.contains_key(id) {
        BackfillState { disposition: st.disposition.update(i, Disposition::Dropped), ..st }
    } else {
        let considered = (st.considered + 1) as usize;
        match admission(st.slots, ahead, id, jobs[id]) {
            Some(r) => BackfillState {
                slots: slot::charge(st.slots, r.slot as int, r.resources),
                admitted: st.admitted.push(r),
                disposition: st.disposition.update(i, Disposition::Dispatched),
                considered,
            },
            None => BackfillState { considered, ..st },
        }
    }
}

/// The pass from candidate `i` on: each live job is admitted if that is
/// harmless, while the budget lasts; stale handles are dropped.
pub open spec fn backfill_from(
    candidates: Seq<ReadyEntry>,
    jobs: Map<JobId, Job>,
    budget: PackBudget,
    ahead: Ahead,
    i: int,
    st: BackfillState,
) -> BackfillState
    decreases candidates.len() - i,
{
    if backfill_ends(candidates, budget, i, st) {
        st
    } else {
        backfill_from(
            candidates,
            jobs,
            budget,
            ahead,
            i + 1,
            backfill_next(candidates, jobs, ahead, i, st),
        )
    }
}

/// Every job that the pass tries from candidate `i` on can be charged where it
/// would go.
pub open spec fn backfill_lands(
    candidates: Seq<ReadyEntry>,
    jobs: Map<JobId, Job>,
    budget: PackBudget,
    ahead: Ahead,
    i: int,
    st: BackfillState,
) -> bool
    decreases candidates.len() - i,
{
    backfill_ends(candidates, budget, i, st) || {
        &&& jobs.contains_key(candidates[i].job) ==> pack::lands(
            st.slots,
            jobs[candidates[i].job].request,
        )
        &&& backfill_lands(
            candidates,
            jobs,
            budget,
            ahead,
            i + 1,
            backfill_next(candidates, jobs, ahead, i, st),
        )
    }
}

/// Every job that the whole pass tries can be charged where it would go.
pub open spec fn backfill_pass_lands(
    candidates: Seq<ReadyEntry>,
    head_index: int,
    jobs: Map<JobId, Job>,
    slots: Seq<WorkerSlot>,
    running: Seq<RunningJob>,
    now: VirtualTime,
    budget: PackBudget,
    disposition: Seq<Disposition>,
) -> bool {
    let head = candidates[head_index].job;
    let request = jobs[head].request;
    jobs.contains_key(head) ==> (reservation_of(slots, running, request, now) matches Some(due)
        ==> backfill_lands(
        candidates,
        jobs,
        budget,
        Ahead { request, due, running, now },
        head_index + 1,
        backfill_start(slots, disposition),
    ))
}

/// The pass before it has looked at any candidate.
pub open spec fn backfill_start(
    slots: Seq<WorkerSlot>,
    disposition: Seq<Disposition>,
) -> BackfillState {
    BackfillState { slots, admitted: Seq::empty(), disposition, considered: 0 }
}

/// The whole pass: nothing happens when the head is stale or has no reservation.
pub open spec fn backfill_pass(
    candidates: Seq<ReadyEntry>,
    head_index: int,
    jobs: Map<JobId, Job>,
    slots: Seq<WorkerSlot>,
    running: Seq<RunningJob>,
    now: VirtualTime,
    budget: PackBudget,
    disposition: Seq<Disposition>,
) -> (BackfillState, Option<VirtualTime>) {
    let start = backfill_start(slots, disposition);
    let head = candidates[head_index].job;
    if !jobs.contains_key(head) {
        (start, None)
    } else {
        let request = jobs[head].request;
        match reservation_of(slots, running, request, now) {
            None => (start, None),
            Some(due) => (
                backfill_from(
                    candidates,
                    jobs,
                    budget,
                    Ahead { request, due, running, now },
                    head_index + 1,
                    start,
                ),
                Some(due),
            ),
        }
    }
}

/// The decisions that admitting these jobs amounts to.
pub open spec fn placements(admitted: Seq<RunningJob>) -> Seq<DispatchDecision> {
    admitted.map_values(|r: RunningJob| DispatchDecision { job: r.job, slot: r.slot })
}

/// Runs lower-priority jobs into the gap ahead of the head job's reservation.
/// A candidate is admitted iff it fits now AND (it finishes before the reservation
/// OR tentatively running it leaves the head's reservation no later than before).
#[allow(clippy::too_many_arguments)]  // all caller-owned state a pure function must borrow
pub fn easy_backfill(
    candidates: &[ReadyEntry],
    head_index: usize,
    jobs: &Arena<Job>,
    inventory: &mut SlotInventory,
    running: &[RunningJob],
    now: VirtualTime,
    budget: PackBudget,
    disposition: &mut [Disposition],
    decisions: &mut Vec<DispatchDecision>,
    scratch: &mut BackfillScratch,
) -> (outcome: BackfillOutcome)
    requires
        old(inventory).wf(),
        old(inventory)@.len() <= u32::MAX,
        old(disposition)@.len() >= candidates@.len(),
        head_index < candidates@.len(),
        backfill_pass_lands(
            candidates@,
            head_index as int,
            jobs@,
            old(inventory)@,
            running@,
            now,
            budget,
            old(disposition)@,
        ),
    ensures
        final(inventory).wf(),
        ({
            let (end, reservation) = backfill_pass(
                candidates@,
                head_index as int,
                jobs@,
                old(inventory)@,
                running@,
                now,
                budget,
                old(disposition)@,
            );
            &&& outcome == (BackfillOutcome {
                considered: end.considered,
                backfilled: end.admitted.len() as usize,
                reservation,
            })
            &&& final(inventory)@ == end.slots
            &&& final(disposition)@ == end.disposition
            &&& final(decisions)@ == old(decisions)@ + placements(end.admitted)
        }),
{
    broadcast use crate::domain::time::law_nanos_round_trip;

    let mut outcome = BackfillOutcome::default();
    let ghost mut admitted = Seq::<RunningJob>::empty();
    proof {
        assert(decisions@ =~= old(decisions)@ + placements(admitted));
    }
    let Some(head_job) = jobs.get(candidates[head_index].job) else {
        return outcome;
    };
    let head_request: ResourceRequest = head_job.request;
    let reservation = reservation_time(&head_request, inventory, running, now, scratch);
    outcome.reservation = reservation;
    // No reservation means the head can never run here; do not backfill around it forever.
    let Some(reservation) = reservation else {
        return outcome;
    };
    let ghost ahead = Ahead { request: head_request, due: reservation, running: running@, now };
    let ghost start = backfill_start(old(inventory)@, old(disposition)@);
    // Only jobs after the head are backfill candidates.
    let mut index: usize = head_index + 1;
    while index < candidates.len() && outcome.backfilled < budget.max_decisions
        && outcome.considered < budget.max_scanned
        invariant
            head_index < index <= candidates@.len(),
            inventory.wf(),
            inventory@.len() == old(inventory)@.len() <= u32::MAX,
            disposition@.len() == old(disposition)@.len() >= candidates@.len(),
            outcome.reservation == Some(reservation),
            outcome.considered <= index,
            outcome.backfilled == admitted.len() <= index,
            decisions@ == old(decisions)@ + placements(admitted),
            ahead == (Ahead { request: head_request, due: reservation, running: running@, now }),
            ({
                let st = BackfillState {
                    slots: inventory@,
                    admitted,
                    disposition: disposition@,
                    considered: outcome.considered,
                };
                &&& backfill_lands(candidates@, jobs@, budget, ahead, index as int, st)
                &&& backfill_from(candidates@, jobs@, budget, ahead, head_index + 1, start)
                    == backfill_from(candidates@, jobs@, budget, ahead, index as int, st)
            }),
        decreases candidates@.len() - index,
    {
        let entry: ReadyEntry = candidates[index];
        let Some(job) = jobs.get(entry.job) else {
            disposition[index] = Disposition::Dropped;
            index += 1;
            continue;
        };
        outcome.considered += 1;
        let fit = inventory.first_fit(&job.request);
        proof {
            slot::lemma_first_fit_unique(inventory@, job.request, fit);
        }
        // Necessary condition: it must fit right now.
        let Some(slot) = fit else {
            index += 1;
            continue;
        };
        let ends_at = now.saturating_add(job.walltime_limit);
        let candidate = RunningJob { job: entry.job, slot, resources: job.request, ends_at };
        let ghost before = inventory@;
        proof {
            assert(candidate == run_of(entry.job, *job, slot, now));
            slot::law_charge_then_refund_restores(before, slot as int, job.request);
        }
        // Allocate tentatively; if the candidate does not finish before the head is
        // due to start, recompute the head's reservation and roll back if it slipped.
        inventory.try_allocate(slot, &job.request).expect(
            "first_fit just reported this slot has room",
        );
        if ends_at.as_nanos() > reservation.as_nanos() {
            let mut simulated: Vec<RunningJob> = Vec::new();
            // Take the buffer out so that `scratch` can be lent on meanwhile.
            std::mem::swap(&mut simulated, &mut scratch.running_with_candidate);
            fill_simulation(&mut simulated, running, candidate);
            let recomputed = reservation_time(&head_request, inventory, &simulated, now, scratch);
            std::mem::swap(&mut simulated, &mut scratch.running_with_candidate);
            let kept: bool = match recomputed {
                Some(at) => at.as_nanos() <= reservation.as_nanos(),
                None => false,
            };
            if !kept {
                inventory.release(slot, &job.request).expect("releasing what we just allocated");
                proof {
                    assert(inventory@ == before);
                }
                index += 1;
                continue;
            }
        }
        proof {
            assert(admission(before, ahead, entry.job, *job) == Some(candidate));
        }
        let decision = DispatchDecision { job: entry.job, slot };
        decisions.push(decision);
        disposition[index] = Disposition::Dispatched;
        outcome.backfilled += 1;
        proof {
            let more = admitted.push(candidate);
            assert(placements(more) =~= placements(admitted).push(decision));
            admitted = more;
            assert(decisions@ =~= old(decisions)@ + placements(admitted));
        }
        index += 1;
    }
    outcome
}

/// Sets `simulated` to the running jobs with one more behind them.
fn fill_simulation(simulated: &mut Vec<RunningJob>, running: &[RunningJob], candidate: RunningJob)
    ensures
        final(simulated)@ == running@.push(candidate),
{
    simulated.clear();
    simulated.extend_from_slice(running);
    proof {
        assert forall|i: int| 0 <= i < running@.len() implies simulated@[i] == running@[i] by {
            assert(cloned::<RunningJob>(running@[i], simulated@[i]));
        }
        assert(simulated@ =~= running@);
    }
    simulated.push(candidate);
}

proof fn lemma_released_nonnegative(running: Seq<RunningJob>, slot: int, time: u64)
    ensures
        Amount::zero().le(released(running, slot, time)),
    decreases running.len(),
{
    if running.len() > 0 {
        lemma_released_nonnegative(running.drop_last(), slot, time);
    }
}

/// What is given back only grows with time and with more running jobs.
proof fn lemma_released_monotone(
    running: Seq<RunningJob>,
    more: Seq<RunningJob>,
    slot: int,
    early: u64,
    late: u64,
)
    requires
        early <= late,
    ensures
        released(running, slot, early).le(released(running + more, slot, late)),
    decreases running.len() + more.len(),
{
    if more.len() > 0 {
        lemma_released_monotone(running, more.drop_last(), slot, early, late);
        assert((running + more).drop_last() =~= running + more.drop_last());
    } else {
        assert(running + more =~= running);
        if running.len() > 0 {
            lemma_released_monotone(running.drop_last(), more, slot, early, late);
            assert(running.drop_last() + more =~= running.drop_last());
        }
    }
}

/// Jobs may be listed in any order where one is moved to the back.
proof fn lemma_released_push_last(
    running: Seq<RunningJob>,
    more: Seq<RunningJob>,
    r: RunningJob,
    slot: int,
    time: u64,
)
    ensures
        released(running.push(r), slot, time).le(released((running + more).push(r), slot, time)),
{
    lemma_released_monotone(running, more, slot, time, time);
    assert(running.push(r).drop_last() =~= running);
    assert((running + more).push(r).drop_last() =~= running + more);
}

/// Some slot can hold `request` by `time`.
spec fn holdable_by(
    slots: Seq<WorkerSlot>,
    running: Seq<RunningJob>,
    request: Resources,
    time: u64,
) -> bool {
    exists|s: int| 0 <= s < slots.len() && #[trigger] startable(slots, running, request, s, time)
}

/// A reservation is a time by which some slot can hold the request.
proof fn lemma_reservation_holds(
    slots: Seq<WorkerSlot>,
    running: Seq<RunningJob>,
    request: Resources,
    now: VirtualTime,
    at: VirtualTime,
)
    requires
        is_reservation(slots, running, request, now, Some(at)),
    ensures
        holdable_by(slots, running, request, at@),
        fits_somewhere(slots, request) ==> at == now,
{
    if fits_somewhere(slots, request) {
        let i = choose|i: int| 0 <= i < slots.len() && #[trigger] slot::fits_slot(slots, i, request);
        lemma_released_nonnegative(running, i, at@);
        assert(startable(slots, running, request, i, at@));
    } else {
        let k = choose|k: int|
            #[trigger] opens_at(slots, running, request, k) && running[k].ends_at == at;
        assert(startable(slots, running, request, running[k].slot as int, at@));
    }
}

/// The last deadline on `slot` up to `time`, if there is one.
proof fn lemma_last_deadline(running: Seq<RunningJob>, slot: int, time: u64) -> (k: Option<int>)
    ensures
        k matches Some(k) ==> {
            &&& 0 <= k < running.len()
            &&& running[k].slot == slot
            &&& running[k].ends_at@ <= time
            &&& forall|j: int|
                0 <= j < running.len() && (#[trigger] running[j]).slot == slot
                    && running[j].ends_at@ <= time ==> running[j].ends_at@ <= running[k].ends_at@
        },
        k is None ==> forall|j: int|
            0 <= j < running.len() && (#[trigger] running[j]).slot == slot ==> running[j].ends_at@
                > time,
    decreases running.len(),
{
    if running.len() == 0 {
        None
    } else {
        let rest = running.drop_last();
        let r = running.last();
        let k = lemma_last_deadline(rest, slot, time);
        assert forall|j: int| 0 <= j < rest.len() implies #[trigger] running[j] == rest[j] by {}
        if r.slot == slot && r.ends_at@ <= time && (k is None || rest[k->0].ends_at@
            <= r.ends_at@) {
            Some(running.len() - 1)
        } else {
            k
        }
    }
}

/// Before the first deadline nothing is given back.
proof fn lemma_nothing_due(running: Seq<RunningJob>, slot: int, time: u64)
    requires
        forall|j: int|
            0 <= j < running.len() && (#[trigger] running[j]).slot == slot ==> running[j].ends_at@
                > time,
    ensures
        released(running, slot, time) == Amount::zero(),
    decreases running.len(),
{
    if running.len() > 0 {
        let rest = running.drop_last();
        assert forall|j: int| 0 <= j < rest.len() implies #[trigger] rest[j] == running[j] by {}
        lemma_nothing_due(rest, slot, time);
        assert(running[running.len() - 1] == running.last());
    }
}

/// Between two times with no deadline in between, nothing more is given back.
proof fn lemma_nothing_later(running: Seq<RunningJob>, slot: int, early: u64, late: u64)
    requires
        early <= late,
        forall|j: int|
            0 <= j < running.len() && (#[trigger] running[j]).slot == slot && running[j].ends_at@
                <= late ==> running[j].ends_at@ <= early,
    ensures
        released(running, slot, early) == released(running, slot, late),
    decreases running.len(),
{
    if running.len() > 0 {
        let rest = running.drop_last();
        assert forall|j: int|
            0 <= j < rest.len() && (#[trigger] rest[j]).slot == slot && rest[j].ends_at@
                <= late implies rest[j].ends_at@ <= early by {
            assert(running[j] == rest[j]);
        }
        lemma_nothing_later(rest, slot, early, late);
        assert(running[running.len() - 1] == running.last());
    }
}

/// There always is a reservation, or none at all.
proof fn lemma_reservation_exists(
    slots: Seq<WorkerSlot>,
    running: Seq<RunningJob>,
    request: Resources,
    now: VirtualTime,
)
    ensures
        is_reservation(
            slots,
            running,
            request,
            now,
            reservation_of(slots, running, request, now),
        ),
{
    if fits_somewhere(slots, request) {
        assert(is_reservation(slots, running, request, now, Some(now)));
    } else {
        let at = lemma_first_deadline(slots, running, request, running.len() as int);
        assert(is_reservation(slots, running, request, now, at));
    }
}

proof fn lemma_first_deadline(
    slots: Seq<WorkerSlot>,
    running: Seq<RunningJob>,
    request: Resources,
    n: int,
) -> (at: Option<VirtualTime>)
    requires
        0 <= n <= running.len(),
    ensures
        match at {
            Some(t) => {
                &&& exists|k: int|
                    #[trigger] opens_at(slots, running, request, k) && running[k].ends_at == t
                &&& forall|k: int|
                    #[trigger] opens_at(slots, running, request, k) && k < n ==> t@
                        <= running[k].ends_at@
            },
            None => forall|k: int| #[trigger] opens_at(slots, running, request, k) ==> k >= n,
        },
    decreases n,
{
    if n == 0 {
        None
    } else {
        let at = lemma_first_deadline(slots, running, request, n - 1);
        if opens_at(slots, running, request, n - 1) && (at is None || running[n - 1].ends_at@
            < at->0@) {
            Some(running[n - 1].ends_at)
        } else {
            at
        }
    }
}

/// If some slot can hold the request by `due`, the reservation is no later.
proof fn lemma_holdable_bounds_reservation(
    slots: Seq<WorkerSlot>,
    running: Seq<RunningJob>,
    request: Resources,
    now: VirtualTime,
    due: u64,
)
    requires
        holdable_by(slots, running, request, due),
        fits_somewhere(slots, request) ==> now@ <= due,
    ensures
        reservation_of(slots, running, request, now) matches Some(at) && at@ <= due,
{
    lemma_reservation_exists(slots, running, request, now);
    if !fits_somewhere(slots, request) {
        let s = choose|s: int|
            0 <= s < slots.len() && #[trigger] startable(slots, running, request, s, due);
        let k = lemma_last_deadline(running, s, due);
        assert(!slot::fits_slot(slots, s, request));
        match k {
            Some(k) => {
                lemma_nothing_later(running, s, running[k].ends_at@, due);
                assert(opens_at(slots, running, request, k));
            },
            None => {
                lemma_nothing_due(running, s, due);
            },
        }
    }
}

/// Charging a slot makes room nowhere.
proof fn lemma_charge_makes_no_room(
    slots: Seq<WorkerSlot>,
    s: int,
    charged: Resources,
    request: Resources,
)
    requires
        0 <= s < slots.len(),
        slots[s].admits(charged),
        fits_somewhere(slot::charge(slots, s, charged), request),
    ensures
        fits_somewhere(slots, request),
{
    let after = slot::charge(slots, s, charged);
    let i = choose|i: int| 0 <= i < after.len() && #[trigger] slot::fits_slot(after, i, request);
    assert(slot::fits_slot(slots, i, request));
}

/// Admitting a harmless job leaves the head startable by the time it is due.
proof fn lemma_admission_keeps_promise(
    slots: Seq<WorkerSlot>,
    ahead: Ahead,
    admitted: Seq<RunningJob>,
    r: RunningJob,
)
    requires
        r.slot < slots.len(),
        slots[r.slot as int].admits(r.resources),
        harmless(slots, ahead, r),
        holdable_by(slots, ahead.running + admitted, ahead.request, ahead.due@),
    ensures
        holdable_by(
            slot::charge(slots, r.slot as int, r.resources),
            ahead.running + admitted.push(r),
            ahead.request,
            ahead.due@,
        ),
{
    let after = slot::charge(slots, r.slot as int, r.resources);
    let all = ahead.running + admitted;
    assert(ahead.running + admitted.push(r) =~= all.push(r));
    assert(all.push(r).drop_last() =~= all);
    if r.ends_at@ <= ahead.due@ {
        let w = choose|s: int|
            0 <= s < slots.len() && #[trigger] startable(
                slots,
                all,
                ahead.request,
                s,
                ahead.due@,
            );
        assert(startable(after, all.push(r), ahead.request, w, ahead.due@));
    } else {
        let at = reservation_of(after, ahead.running.push(r), ahead.request, ahead.now);
        lemma_reservation_exists(after, ahead.running.push(r), ahead.request, ahead.now);
        lemma_reservation_holds(
            after,
            ahead.running.push(r),
            ahead.request,
            ahead.now,
            at->0,
        );
        let w = choose|s: int|
            0 <= s < after.len() && #[trigger] startable(
                after,
                ahead.running.push(r),
                ahead.request,
                s,
                at->0@,
            );
        lemma_released_monotone(
            ahead.running.push(r),
            Seq::empty(),
            w,
            at->0@,
            ahead.due@,
        );
        assert(ahead.running.push(r) + Seq::<RunningJob>::empty() =~= ahead.running.push(r));
        lemma_released_push_last(ahead.running, admitted, r, w, ahead.due@);
        assert(startable(after, all.push(r), ahead.request, w, ahead.due@));
    }
}

/// What holds of a pass from candidate `i` on, given what held up to there.
proof fn lemma_backfill(
    candidates: Seq<ReadyEntry>,
    jobs: Map<JobId, Job>,
    budget: PackBudget,
    ahead: Ahead,
    i: int,
    st: BackfillState,
)
    requires
        0 <= i <= candidates.len() <= usize::MAX,
        st.slots.len() <= slot::SLOT_SPACE,
        st.disposition.len() >= candidates.len(),
        st.considered <= i,
        st.admitted.len() <= st.considered,
        st.admitted.len() <= budget.max_decisions,
        st.considered <= budget.max_scanned,
        backfill_lands(candidates, jobs, budget, ahead, i, st),
        holdable_by(st.slots, ahead.running + st.admitted, ahead.request, ahead.due@),
        fits_somewhere(st.slots, ahead.request) ==> ahead.now@ <= ahead.due@,
    ensures
        ({
            let end = backfill_from(candidates, jobs, budget, ahead, i, st);
            &&& holdable_by(end.slots, ahead.running + end.admitted, ahead.request, ahead.due@)
            &&& fits_somewhere(end.slots, ahead.request) ==> ahead.now@ <= ahead.due@
            &&& slot::within_capacity(st.slots) ==> slot::within_capacity(end.slots)
            &&& end.slots.len() == st.slots.len()
            &&& end.disposition.len() == st.disposition.len()
            &&& end.admitted.len() <= end.considered
            &&& end.admitted.len() <= budget.max_decisions
            &&& end.considered <= budget.max_scanned
            &&& forall|j: int|
                0 <= j < end.disposition.len() && !(i <= j < candidates.len())
                    ==> #[trigger] end.disposition[j] == st.disposition[j]
            &&& forall|j: int|
                i <= j < candidates.len() && #[trigger] end.disposition[j] != st.disposition[j]
                    ==> end.disposition[j] == if jobs.contains_key(candidates[j].job) {
                    Disposition::Dispatched
                } else {
                    Disposition::Dropped
                }
        }),
    decreases candidates.len() - i,
{
    if !backfill_ends(candidates, budget, i, st) {
        let id = candidates[i].job;
        let next = backfill_next(candidates, jobs, ahead, i, st);
        if jobs.contains_key(id) {
            let job = jobs[id];
            slot::lemma_first_fit_exists(st.slots, job.request);
            if let Some(r) = admission(st.slots, ahead, id, job) {
                assert(st.slots[r.slot as int].admits(job.request));
                lemma_admission_keeps_promise(st.slots, ahead, st.admitted, r);
                if fits_somewhere(next.slots, ahead.request) {
                    lemma_charge_makes_no_room(
                        st.slots,
                        r.slot as int,
                        r.resources,
                        ahead.request,
                    );
                }
                if slot::within_capacity(st.slots) {
                    slot::law_allocation_stays_within_capacity(
                        st.slots,
                        r.slot as int,
                        r.resources,
                    );
                }
            }
        }
        lemma_backfill(candidates, jobs, budget, ahead, i + 1, next);
    }
}

proof fn lemma_backfill_lands(
    candidates: Seq<ReadyEntry>,
    jobs: Map<JobId, Job>,
    budget: PackBudget,
    ahead: Ahead,
    i: int,
    st: BackfillState,
)
    requires
        slot::within_capacity(st.slots),
        st.slots.len() <= slot::SLOT_SPACE,
    ensures
        backfill_lands(candidates, jobs, budget, ahead, i, st),
    decreases candidates.len() - i,
{
    if !backfill_ends(candidates, budget, i, st) {
        if jobs.contains_key(candidates[i].job) {
            pack::lemma_lands(st.slots, jobs[candidates[i].job].request);
        }
        lemma_backfill_lands(
            candidates,
            jobs,
            budget,
            ahead,
            i + 1,
            backfill_next(candidates, jobs, ahead, i, st),
        );
    }
}

/// On slots that hold no more than they declare, whatever a backfill pass tries
/// can be charged.
pub proof fn law_backfill_lands_on_sound_slots(
    candidates: Seq<ReadyEntry>,
    head_index: int,
    jobs: Map<JobId, Job>,
    slots: Seq<WorkerSlot>,
    running: Seq<RunningJob>,
    now: VirtualTime,
    budget: PackBudget,
    disposition: Seq<Disposition>,
)
    requires
        slot::within_capacity(slots),
        slots.len() <= slot::SLOT_SPACE,
    ensures
        backfill_pass_lands(
            candidates,
            head_index,
            jobs,
            slots,
            running,
            now,
            budget,
            disposition,
        ),
{
    let request = jobs[candidates[head_index].job].request;
    if let Some(due) = reservation_of(slots, running, request, now) {
        lemma_backfill_lands(
            candidates,
            jobs,
            budget,
            Ahead { request, due, running, now },
            head_index + 1,
            backfill_start(slots, disposition),
        );
    }
}

/// Backfilling never pushes the head's reservation later: with everything
/// running that the pass admitted, each until its deadline, the head can still
/// start no later than before. Without a reservation nothing is admitted.
pub proof fn law_backfill_never_delays_the_head(
    candidates: Seq<ReadyEntry>,
    head_index: int,
    jobs: Map<JobId, Job>,
    slots: Seq<WorkerSlot>,
    running: Seq<RunningJob>,
    now: VirtualTime,
    budget: PackBudget,
    disposition: Seq<Disposition>,
)
    requires
        0 <= head_index < candidates.len() <= usize::MAX,
        slots.len() <= slot::SLOT_SPACE,
        disposition.len() >= candidates.len(),
        backfill_pass_lands(
            candidates,
            head_index,
            jobs,
            slots,
            running,
            now,
            budget,
            disposition,
        ),
        jobs.contains_key(candidates[head_index].job),
    ensures
        ({
            let request = jobs[candidates[head_index].job].request;
            let (end, reservation) = backfill_pass(
                candidates,
                head_index,
                jobs,
                slots,
                running,
                now,
                budget,
                disposition,
            );
            &&& reservation == reservation_of(slots, running, request, now)
            &&& match reservation {
                Some(before) => reservation_of(
                    end.slots,
                    running + end.admitted,
                    request,
                    now,
                ) matches Some(after) && after@ <= before@,
                None => end.admitted.len() == 0 && end.slots == slots,
            }
        }),
{
    let request = jobs[candidates[head_index].job].request;
    lemma_reservation_exists(slots, running, request, now);
    if let Some(due) = reservation_of(slots, running, request, now) {
        let ahead = Ahead { request, due, running, now };
        let start = backfill_start(slots, disposition);
        lemma_reservation_holds(slots, running, request, now, due);
        assert(running + start.admitted =~= running);
        lemma_backfill(candidates, jobs, budget, ahead, head_index + 1, start);
        let end = backfill_from(candidates, jobs, budget, ahead, head_index + 1, start);
        lemma_holdable_bounds_reservation(
            end.slots,
            running + end.admitted,
            request,
            now,
            due@,
        );
    }
}

/// A backfill pass never over-commits a slot, stays within its budget, and
/// leaves the head and everything before it as it was.
pub proof fn law_backfill_respects_capacity_and_budget(
    candidates: Seq<ReadyEntry>,
    head_index: int,
    jobs: Map<JobId, Job>,
    slots: Seq<WorkerSlot>,
    running: Seq<RunningJob>,
    now: VirtualTime,
    budget: PackBudget,
    disposition: Seq<Disposition>,
)
    requires
        0 <= head_index < candidates.len() <= usize::MAX,
        slots.len() <= slot::SLOT_SPACE,
        disposition.len() >= candidates.len(),
        backfill_pass_lands(
            candidates,
            head_index,
            jobs,
            slots,
            running,
            now,
            budget,
            disposition,
        ),
    ensures
        ({
            let (end, reservation) = backfill_pass(
                candidates,
                head_index,
                jobs,
                slots,
                running,
                now,
                budget,
                disposition,
            );
            &&& slot::within_capacity(slots) ==> slot::within_capacity(end.slots)
            &&& end.slots.len() == slots.len()
            &&& end.admitted.len() <= end.considered
            &&& end.admitted.len() <= budget.max_decisions
            &&& end.considered <= budget.max_scanned
            &&& end.disposition.len() == disposition.len()
            &&& forall|j: int|
                0 <= j <= head_index ==> #[trigger] end.disposition[j] == disposition[j]
            &&& forall|j: int|
                0 <= j < candidates.len() && #[trigger] end.disposition[j] != disposition[j]
                    ==> end.disposition[j] == if jobs.contains_key(candidates[j].job) {
                    Disposition::Dispatched
                } else {
                    Disposition::Dropped
                }
        }),
{
    let head = candidates[head_index].job;
    if jobs.contains_key(head) {
        let request = jobs[head].request;
        lemma_reservation_exists(slots, running, request, now);
        if let Some(due) = reservation_of(slots, running, request, now) {
            let ahead = Ahead { request, due, running, now };
            let start = backfill_start(slots, disposition);
            lemma_reservation_holds(slots, running, request, now, due);
            assert(running + start.admitted =~= running);
            lemma_backfill(candidates, jobs, budget, ahead, head_index + 1, start);
        }
    }
}

/// The reservation is now whenever some slot has room for the request now.
pub proof fn law_reservation_is_now_when_it_fits(
    slots: Seq<WorkerSlot>,
    running: Seq<RunningJob>,
    request: Resources,
    now: VirtualTime,
)
    requires
        fits_somewhere(slots, request),
    ensures
        reservation_of(slots, running, request, now) == Some(now),
{
    lemma_reservation_unique(slots, running, request, now, Some(now));
}

/// A request larger than every slot never gets a reservation.
pub proof fn law_oversized_request_has_no_reservation(
    slots: Seq<WorkerSlot>,
    running: Seq<RunningJob>,
    request: Resources,
    now: VirtualTime,
)
    requires
        forall|i: int| 0 <= i < slots.len() ==> !request.le((#[trigger] slots[i]).capacity),
    ensures
        reservation_of(slots, running, request, now) is None,
{
    if fits_somewhere(slots, request) {
        let i = choose|i: int| 0 <= i < slots.len() && #[trigger] slot::fits_slot(slots, i, request);
        assert(request.le(slots[i].capacity));
    }
    lemma_reservation_unique(slots, running, request, now, None);
}

proof fn lemma_backfill_decides(
    candidates: Seq<ReadyEntry>,
    jobs: Map<JobId, Job>,
    budget: PackBudget,
    ahead: Ahead,
    slots: Seq<WorkerSlot>,
    packed: Seq<DispatchDecision>,
    i: int,
    st: BackfillState,
)
    requires
        0 <= i <= candidates.len(),
        st.disposition.len() >= candidates.len(),
        forall|k: int| i <= k < candidates.len() ==> (#[trigger] st.disposition[k]) is Pending,
        pack::decided(packed + placements(st.admitted)) == pack::dispatched_among(
            candidates,
            st.disposition,
            i,
        ),
        st.slots == pack::charged_by(slots, packed + placements(st.admitted), jobs),
    ensures
        ({
            let end = backfill_from(candidates, jobs, budget, ahead, i, st);
            &&& pack::decided(packed + placements(end.admitted)) == pack::dispatched_among(
                candidates,
                end.disposition,
                candidates.len() as int,
            )
            &&& end.slots == pack::charged_by(slots, packed + placements(end.admitted), jobs)
        }),
    decreases candidates.len() - i,
{
    let n = candidates.len() as int;
    pack::lemma_pending_adds_nothing(candidates, st.disposition, i, n);
    if !backfill_ends(candidates, budget, i, st) {
        let id = candidates[i].job;
        let next = backfill_next(candidates, jobs, ahead, i, st);
        pack::lemma_dispatched_prefix(candidates, st.disposition, next.disposition, i);
        if !jobs.contains_key(id) {
            assert(next.disposition[i] is Dropped);
        } else if let Some(r) = admission(st.slots, ahead, id, jobs[id]) {
            assert(next.disposition[i] is Dispatched);
            let before = packed + placements(st.admitted);
            let after = packed + placements(next.admitted);
            assert(after =~= before.push(DispatchDecision { job: id, slot: r.slot }));
            assert(after.drop_last() =~= before);
            assert(pack::decided(after) =~= pack::decided(before).push(id));
        } else {
            assert(st.disposition[i] is Pending);
        }
        lemma_backfill_decides(candidates, jobs, budget, ahead, slots, packed, i + 1, next);
    }
}

/// Backfilling behind the decisions already `packed`, with the head and all after
/// it pending: together the decisions are exactly the candidates marked
/// dispatched, in their order, each charged to the slot it names and nothing else.
pub proof fn law_backfill_decides_what_it_dispatches(
    candidates: Seq<ReadyEntry>,
    head_index: int,
    jobs: Map<JobId, Job>,
    slots: Seq<WorkerSlot>,
    packed: Seq<DispatchDecision>,
    running: Seq<RunningJob>,
    now: VirtualTime,
    budget: PackBudget,
    disposition: Seq<Disposition>,
)
    requires
        0 <= head_index < candidates.len(),
        disposition.len() >= candidates.len(),
        forall|k: int|
            head_index <= k < candidates.len() ==> (#[trigger] disposition[k]) is Pending,
        pack::decided(packed) == pack::dispatched_among(
            candidates,
            disposition,
            candidates.len() as int,
        ),
    ensures
        ({
            let (end, reservation) = backfill_pass(
                candidates,
                head_index,
                jobs,
                pack::charged_by(slots, packed, jobs),
                running,
                now,
                budget,
                disposition,
            );
            let decisions = packed + placements(end.admitted);
            &&& pack::decided(decisions) == pack::dispatched_among(
                candidates,
                end.disposition,
                candidates.len() as int,
            )
            &&& end.slots == pack::charged_by(slots, decisions, jobs)
        }),
{
    let charged = pack::charged_by(slots, packed, jobs);
    let head = candidates[head_index].job;
    let start = backfill_start(charged, disposition);
    let n = candidates.len() as int;
    assert(packed + placements(start.admitted) =~= packed);
    pack::lemma_pending_adds_nothing(candidates, disposition, head_index + 1, n);
    if jobs.contains_key(head) {
        let request = jobs[head].request;
        if let Some(due) = reservation_of(charged, running, request, now) {
            let ahead = Ahead { request, due, running, now };
            lemma_backfill_decides(
                candidates,
                jobs,
                budget,
                ahead,
                slots,
                packed,
                head_index + 1,
                start,
            );
        }
    }
}

/// The decided jobs as they run from `now` on, each on the slot it was given.
pub open spec fn runs_of(
    decisions: Seq<DispatchDecision>,
    jobs: Map<JobId, Job>,
    now: VirtualTime,
) -> Seq<RunningJob> {
    decisions.map_values(|d: DispatchDecision| run_of(d.job, jobs[d.job], d.slot, now))
}

/// What a pass admits is what its decisions amount to.
pub(crate) proof fn lemma_admitted_are_runs(
    candidates: Seq<ReadyEntry>,
    jobs: Map<JobId, Job>,
    budget: PackBudget,
    ahead: Ahead,
    i: int,
    st: BackfillState,
)
    requires
        0 <= i <= candidates.len(),
        st.admitted == runs_of(placements(st.admitted), jobs, ahead.now),
    ensures
        ({
            let end = backfill_from(candidates, jobs, budget, ahead, i, st);
            end.admitted == runs_of(placements(end.admitted), jobs, ahead.now)
        }),
    decreases candidates.len() - i,
{
    if !backfill_ends(candidates, budget, i, st) {
        let next = backfill_next(candidates, jobs, ahead, i, st);
        let runs = runs_of(placements(next.admitted), jobs, ahead.now);
        assert forall|k: int| 0 <= k < next.admitted.len() implies #[trigger] runs[k]
            == next.admitted[k] by {
            if k < st.admitted.len() {
                assert(runs_of(placements(st.admitted), jobs, ahead.now)[k] == st.admitted[k]);
            }
        }
        assert(runs =~= next.admitted);
        lemma_admitted_are_runs(candidates, jobs, budget, ahead, i + 1, next);
    }
}

/// The slots with each of these jobs charged where it runs.
pub open spec fn slots_after(slots: Seq<WorkerSlot>, runs: Seq<RunningJob>) -> Seq<WorkerSlot>
    decreases runs.len(),
{
    if runs.len() == 0 {
        slots
    } else {
        slot::charge(
            slots_after(slots, runs.drop_last()),
            runs.last().slot as int,
            runs.last().resources,
        )
    }
}

/// `run` is the job `id` run from now on the lowest slot that has room for it.
pub open spec fn runs_on_first_fit(
    slots: Seq<WorkerSlot>,
    now: VirtualTime,
    id: JobId,
    job: Job,
    run: RunningJob,
) -> bool {
    &&& run.job == id
    &&& run.resources == job.request
    &&& run.ends_at@ == (if now@ + job.walltime_limit@ <= u64::MAX {
        now@ + job.walltime_limit@
    } else {
        u64::MAX as int
    })
    &&& run.slot < slots.len()
    &&& slot::fits_slot(slots, run.slot as int, job.request)
    &&& forall|s: int| 0 <= s < run.slot ==> !#[trigger] slot::fits_slot(slots, s, job.request)
}

/// With `run` going on, the head can start no later than it is due: `run` is over by
/// then, or the reservation made anew with it running is no later.
pub open spec fn head_kept(slots: Seq<WorkerSlot>, ahead: Ahead, run: RunningJob) -> bool {
    run.ends_at@ <= ahead.due@ || match reservation_of(
        slot::charge(slots, run.slot as int, run.resources),
        ahead.running.push(run),
        ahead.request,
        ahead.now,
    ) {
        Some(at) => at@ <= ahead.due@,
        None => false,
    }
}

/// How many of the candidates from `i` on are live.
pub open spec fn live_from(candidates: Seq<ReadyEntry>, jobs: Map<JobId, Job>, i: int) -> nat
    decreases candidates.len() - i,
{
    if i < 0 || i >= candidates.len() {
        0
    } else {
        live_from(candidates, jobs, i + 1) + if jobs.contains_key(candidates[i].job) {
            1nat
        } else {
            0nat
        }
    }
}

/// Candidate `j` was reached with the first `m` of `admitted` running, and admitted as
/// the next: on the lowest slot with room, without making the head later.
pub open spec fn admitted_at(
    candidates: Seq<ReadyEntry>,
    jobs: Map<JobId, Job>,
    ahead: Ahead,
    slots: Seq<WorkerSlot>,
    admitted: Seq<RunningJob>,
    j: int,
    m: int,
) -> bool {
    let id = candidates[j].job;
    let then = slots_after(slots, admitted.take(m));
    &&& 0 <= m < admitted.len()
    &&& jobs.contains_key(id)
    &&& runs_on_first_fit(then, ahead.now, id, jobs[id], admitted[m])
    &&& head_kept(then, ahead, admitted[m])
}

/// Candidate `j` was reached with the first `m` of `admitted` running, and refused for
/// cause: no slot had room, or on the lowest one with room it would have made the
/// head later.
pub open spec fn refused_at(
    candidates: Seq<ReadyEntry>,
    jobs: Map<JobId, Job>,
    ahead: Ahead,
    slots: Seq<WorkerSlot>,
    admitted: Seq<RunningJob>,
    j: int,
    m: int,
) -> bool {
    let id = candidates[j].job;
    let then = slots_after(slots, admitted.take(m));
    &&& 0 <= m <= admitted.len()
    &&& (forall|s: int|
        0 <= s < then.len() ==> !#[trigger] slot::fits_slot(then, s, jobs[id].request)) || (exists|
        run: RunningJob,
    |
        #[trigger] runs_on_first_fit(then, ahead.now, id, jobs[id], run) && !head_kept(
            then,
            ahead,
            run,
        ))
}

/// What becomes of each candidate from `i` on, and why.
proof fn lemma_backfill_reasons(
    candidates: Seq<ReadyEntry>,
    jobs: Map<JobId, Job>,
    budget: PackBudget,
    ahead: Ahead,
    slots: Seq<WorkerSlot>,
    low: int,
    i: int,
    st: BackfillState,
)
    requires
        0 <= low <= i <= candidates.len() <= usize::MAX,
        st.slots.len() <= slot::SLOT_SPACE,
        st.disposition.len() >= candidates.len(),
        st.considered <= i,
        st.admitted.len() == pack::dispatched_within(st.disposition, low, i),
        st.slots == slots_after(slots, st.admitted),
        forall|j: int| i <= j < candidates.len() ==> (#[trigger] st.disposition[j]) is Pending,
    ensures
        ({
            let end = backfill_from(candidates, jobs, budget, ahead, i, st);
            &&& st.admitted.len() <= end.admitted.len()
            &&& end.admitted.take(st.admitted.len() as int) == st.admitted
            &&& st.considered <= end.considered <= st.considered + live_from(candidates, jobs, i)
            &&& end.slots == slots_after(slots, end.admitted)
            &&& forall|j: int| 0 <= j < i ==> #[trigger] end.disposition[j] == st.disposition[j]
            &&& forall|j: int|
                i <= j < candidates.len() && (#[trigger] end.disposition[j]) is Dispatched
                    ==> admitted_at(
                    candidates,
                    jobs,
                    ahead,
                    slots,
                    end.admitted,
                    j,
                    pack::dispatched_within(end.disposition, low, j) as int,
                )
            &&& end.admitted.len() < budget.max_decisions && end.considered < budget.max_scanned
                ==> {
                &&& end.considered == st.considered + live_from(candidates, jobs, i)
                &&& forall|j: int|
                    i <= j < candidates.len() ==> (#[trigger] end.disposition[j] is Dropped
                        <==> !jobs.contains_key(candidates[j].job))
                &&& forall|j: int|
                    i <= j < candidates.len() && (#[trigger] end.disposition[j]) is Pending
                        ==> refused_at(
                        candidates,
                        jobs,
                        ahead,
                        slots,
                        end.admitted,
                        j,
                        pack::dispatched_within(end.disposition, low, j) as int,
                    )
            }
        }),
    decreases candidates.len() - i,
{
    broadcast use crate::domain::time::law_nanos_round_trip;

    let end = backfill_from(candidates, jobs, budget, ahead, i, st);
    assert(st.admitted.take(st.admitted.len() as int) =~= st.admitted);
    if !backfill_ends(candidates, budget, i, st) {
        let id = candidates[i].job;
        let next = backfill_next(candidates, jobs, ahead, i, st);
        if jobs.contains_key(id) {
            slot::lemma_first_fit_exists(st.slots, jobs[id].request);
        }
        assert(next.slots == slots_after(slots, next.admitted)) by {
            if next.admitted.len() > st.admitted.len() {
                assert(next.admitted.drop_last() =~= st.admitted);
            }
        }
        pack::lemma_dispatched_within_agrees(st.disposition, next.disposition, low, i);
        lemma_backfill_reasons(candidates, jobs, budget, ahead, slots, low, i + 1, next);
        pack::lemma_dispatched_within_agrees(st.disposition, end.disposition, low, i);
        let n = st.admitted.len() as int;
        assert(end.admitted.take(n) =~= st.admitted) by {
            assert(end.admitted.take(next.admitted.len() as int).take(n) =~= end.admitted.take(n));
            assert(next.admitted.take(n) =~= st.admitted);
        }
        assert(end.disposition[i] == next.disposition[i]);
        if jobs.contains_key(id) {
            let job = jobs[id];
            match slot::first_fit_of(st.slots, job.request) {
                Some(s) => {
                    let run = run_of(id, job, s, ahead.now);
                    assert(runs_on_first_fit(st.slots, ahead.now, id, job, run));
                    assert(harmless(st.slots, ahead, run) == head_kept(st.slots, ahead, run));
                    if harmless(st.slots, ahead, run) {
                        assert(next.admitted[n] == run);
                        assert(end.admitted[n] == end.admitted.take(next.admitted.len() as int)[n]);
                        assert(admitted_at(candidates, jobs, ahead, slots, end.admitted, i, n));
                    } else {
                        assert(refused_at(candidates, jobs, ahead, slots, end.admitted, i, n));
                    }
                },
                None => {
                    assert(refused_at(candidates, jobs, ahead, slots, end.admitted, i, n));
                },
            }
        }
    }
}

/// A pass from candidate `i` on leaves the dispositions before it, and their number, as
/// they were.
pub(crate) proof fn lemma_backfill_keeps_the_front(
    candidates: Seq<ReadyEntry>,
    jobs: Map<JobId, Job>,
    budget: PackBudget,
    ahead: Ahead,
    i: int,
    st: BackfillState,
)
    requires
        0 <= i <= candidates.len() <= st.disposition.len(),
    ensures
        ({
            let end = backfill_from(candidates, jobs, budget, ahead, i, st);
            &&& end.disposition.len() == st.disposition.len()
            &&& forall|j: int| 0 <= j < i ==> #[trigger] end.disposition[j] == st.disposition[j]
            &&& end.admitted.len() <= st.admitted.len() + candidates.len() - i
        }),
    decreases candidates.len() - i,
{
    if !backfill_ends(candidates, budget, i, st) {
        let next = backfill_next(candidates, jobs, ahead, i, st);
        lemma_backfill_keeps_the_front(candidates, jobs, budget, ahead, i + 1, next);
    }
}

/// Backfilling tries everybody behind the head: unless the budget runs out, every
/// live candidate there is looked at and counted, every stale one is dropped, and one
/// that is left pending was refused for cause when it was reached. Refusing one
/// candidate never ends the pass.
pub proof fn law_backfill_refuses_only_for_cause(
    candidates: Seq<ReadyEntry>,
    head_index: int,
    jobs: Map<JobId, Job>,
    slots: Seq<WorkerSlot>,
    running: Seq<RunningJob>,
    now: VirtualTime,
    budget: PackBudget,
    disposition: Seq<Disposition>,
    due: VirtualTime,
)
    requires
        0 <= head_index < candidates.len() <= usize::MAX,
        slots.len() <= slot::SLOT_SPACE,
        disposition.len() >= candidates.len(),
        forall|j: int|
            head_index < j < candidates.len() ==> (#[trigger] disposition[j]) is Pending,
        jobs.contains_key(candidates[head_index].job),
        reservation_of(slots, running, jobs[candidates[head_index].job].request, now) == Some(due),
    ensures
        ({
            let request = jobs[candidates[head_index].job].request;
            let ahead = Ahead { request, due, running, now };
            let (end, reservation) = backfill_pass(
                candidates,
                head_index,
                jobs,
                slots,
                running,
                now,
                budget,
                disposition,
            );
            &&& end.considered <= live_from(candidates, jobs, head_index + 1)
            &&& end.admitted.len() < budget.max_decisions && end.considered < budget.max_scanned
                ==> {
                &&& end.considered == live_from(candidates, jobs, head_index + 1)
                &&& forall|j: int|
                    head_index < j < candidates.len() ==> (#[trigger] end.disposition[j] is Dropped
                        <==> !jobs.contains_key(candidates[j].job))
                &&& forall|j: int|
                    head_index < j < candidates.len() && (#[trigger] end.disposition[j]) is Pending
                        ==> refused_at(
                        candidates,
                        jobs,
                        ahead,
                        slots,
                        end.admitted,
                        j,
                        pack::dispatched_within(end.disposition, head_index + 1, j) as int,
                    )
            }
        }),
{
    let request = jobs[candidates[head_index].job].request;
    lemma_backfill_reasons(
        candidates,
        jobs,
        budget,
        Ahead { request, due, running, now },
        slots,
        head_index + 1,
        head_index + 1,
        backfill_start(slots, disposition),
    );
}

/// Whoever is backfilled had a right to be: when it was reached it went to the lowest
/// slot with room for it, and either ends before the head is due or leaves the head's
/// reservation no later.
pub proof fn law_backfill_admits_only_the_harmless(
    candidates: Seq<ReadyEntry>,
    head_index: int,
    jobs: Map<JobId, Job>,
    slots: Seq<WorkerSlot>,
    running: Seq<RunningJob>,
    now: VirtualTime,
    budget: PackBudget,
    disposition: Seq<Disposition>,
    due: VirtualTime,
)
    requires
        0 <= head_index < candidates.len() <= usize::MAX,
        slots.len() <= slot::SLOT_SPACE,
        disposition.len() >= candidates.len(),
        forall|j: int|
            head_index < j < candidates.len() ==> (#[trigger] disposition[j]) is Pending,
        jobs.contains_key(candidates[head_index].job),
        reservation_of(slots, running, jobs[candidates[head_index].job].request, now) == Some(due),
    ensures
        ({
            let request = jobs[candidates[head_index].job].request;
            let ahead = Ahead { request, due, running, now };
            let (end, reservation) = backfill_pass(
                candidates,
                head_index,
                jobs,
                slots,
                running,
                now,
                budget,
                disposition,
            );
            &&& reservation == Some(due)
            &&& end.slots == slots_after(slots, end.admitted)
            &&& forall|j: int|
                head_index < j < candidates.len() && (#[trigger] end.disposition[j]) is Dispatched
                    ==> admitted_at(
                    candidates,
                    jobs,
                    ahead,
                    slots,
                    end.admitted,
                    j,
                    pack::dispatched_within(end.disposition, head_index + 1, j) as int,
                )
        }),
{
    let request = jobs[candidates[head_index].job].request;
    lemma_backfill_reasons(
        candidates,
        jobs,
        budget,
        Ahead { request, due, running, now },
        slots,
        head_index + 1,
        head_index + 1,
        backfill_start(slots, disposition),
    );
}

/// A reservation is the earliest start: now if some slot has room now; otherwise a
/// time at which some slot has room with what has been given back by then, while at
/// no earlier time any slot has. There is none only if no slot ever has room.
pub proof fn law_reservation_is_the_earliest_start(
    slots: Seq<WorkerSlot>,
    running: Seq<RunningJob>,
    request: Resources,
    now: VirtualTime,
)
    ensures
        ({
            let fits = exists|s: int| 0 <= s < slots.len() && #[trigger] slot::fits_slot(slots, s, request);
            match reservation_of(slots, running, request, now) {
                Some(at) => {
                    &&& fits ==> at == now
                    &&& !fits ==> {
                        &&& exists|s: int|
                            0 <= s < slots.len() && #[trigger] startable(
                                slots,
                                running,
                                request,
                                s,
                                at@,
                            )
                        &&& forall|s: int, time: u64|
                            0 <= s < slots.len() && #[trigger] startable(
                                slots,
                                running,
                                request,
                                s,
                                time,
                            ) ==> at@ <= time
                    }
                },
                None => !fits && forall|s: int, time: u64|
                    0 <= s < slots.len() ==> !#[trigger] startable(
                        slots,
                        running,
                        request,
                        s,
                        time,
                    ),
            }
        }),
{
    lemma_reservation_exists(slots, running, request, now);
    let at = reservation_of(slots, running, request, now);
    if !fits_somewhere(slots, request) {
        if let Some(t) = at {
            lemma_reservation_holds(slots, running, request, now, t);
            let s = choose|s: int|
                0 <= s < slots.len() && #[trigger] startable(slots, running, request, s, t@);
            assert(startable(slots, running, request, s, t@));
        }
        assert forall|s: int, time: u64|
            0 <= s < slots.len() && #[trigger] startable(
                slots,
                running,
                request,
                s,
                time,
            ) implies at is Some && at->0@ <= time by {
            lemma_holdable_bounds_reservation(slots, running, request, now, time);
        }
    }
}

/// A slot has room for a request at a time if it is large enough, and what it has to
/// spare now, plus all that is given back by then, covers the request in every
/// dimension.
pub proof fn law_startable_means_enough_is_back(
    slots: Seq<WorkerSlot>,
    running: Seq<RunningJob>,
    request: Resources,
    s: int,
    time: u64,
)
    ensures
        ({
            let spare = slots[s].spare();
            let back = released(running, s, time);
            startable(slots, running, request, s, time) <==> {
                &&& request.cpu_millis <= slots[s].capacity.cpu_millis
                &&& request.mem_bytes <= slots[s].capacity.mem_bytes
                &&& request.gpus <= slots[s].capacity.gpus
                &&& request.cpu_millis <= spare.cpu_millis + back.cpu_millis
                &&& request.mem_bytes <= spare.mem_bytes + back.mem_bytes
                &&& request.gpus <= spare.gpus + back.gpus
            }
        }),
{
}

/// What a slot gets back by a time adds up over the jobs running on it: each gives
/// back all it holds at its deadline, and nothing before or elsewhere.
pub proof fn law_released_capacity_adds_up(
    running: Seq<RunningJob>,
    r: RunningJob,
    s: int,
    time: u64,
)
    ensures
        released(Seq::<RunningJob>::empty(), s, time) == (Amount {
            cpu_millis: 0,
            mem_bytes: 0,
            gpus: 0,
        }),
        ({
            let before = released(running, s, time);
            released(running.push(r), s, time) == (if r.slot == s && r.ends_at@ <= time {
                Amount {
                    cpu_millis: before.cpu_millis + r.resources.cpu_millis,
                    mem_bytes: before.mem_bytes + r.resources.mem_bytes,
                    gpus: before.gpus + r.resources.gpus,
                }
            } else {
                before
            })
        }),
{
    assert(running.push(r).drop_last() =~= running);
}

/// Each admitted job becomes one decision, in order.
pub proof fn law_admissions_become_decisions(admitted: Seq<RunningJob>, m: int)
    requires
        0 <= m < admitted.len(),
    ensures
        placements(admitted).len() == admitted.len(),
        placements(admitted)[m].job == admitted[m].job,
        placements(admitted)[m].slot == admitted[m].slot,
{
}

impl Clone for BackfillScratch {
    fn clone(&self) -> (copy: Self)
        ensures
            copy.held() == self.held(),
    {
        BackfillScratch {
            completions: self.completions.clone(),
            running_with_candidate: self.running_with_candidate.clone(),
        }
    }
}

} // verus!

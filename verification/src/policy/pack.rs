//! Greedy resource-aware packing.
use crate::cluster::slot;
use crate::cluster::{SlotIndex, SlotInventory, WorkerSlot};
use crate::domain::{Arena, Job, JobId, Resources};
use crate::policy::ready_set::ReadyEntry;
use vstd::prelude::*;

verus! {

/// One job placed on one slot.
#[derive(Clone, Copy, PartialEq, Eq, Debug, Structural)]
pub struct DispatchDecision {
    pub job: JobId,
    pub slot: SlotIndex,
}

/// What the scheduler decided about a candidate this cycle.
#[derive(Clone, Copy, PartialEq, Eq, Debug, Structural)]
pub enum Disposition {
    /// Not scheduled; return it to the ready set.
    Pending,
    /// Placed on a slot; now running.
    Dispatched,
    /// Stale handle; discard it.
    Dropped,
}

impl Default for Disposition {
    fn default() -> (disposition: Self)
        ensures
            disposition == Disposition::Pending,
    {
        Disposition::Pending
    }
}

/// Per-cycle work limits.
#[derive(Clone, Copy, PartialEq, Eq, Debug, Structural)]
pub struct PackBudget {
    pub max_decisions: usize,
    pub max_scanned: usize,
}

impl Default for PackBudget {
    /// Unlimited.
    fn default() -> (budget: Self)
        ensures
            budget == (PackBudget { max_decisions: usize::MAX, max_scanned: usize::MAX }),
    {
        PackBudget { max_decisions: usize::MAX, max_scanned: usize::MAX }
    }
}

/// What one packing pass did.
#[derive(Clone, Copy, PartialEq, Eq, Debug, Structural)]
pub struct PackOutcome {
    pub scanned: usize,
    pub dispatched: usize,
    /// Index into `candidates` of the first job that did not fit (the head job).
    pub head: Option<usize>,
    pub budget_exhausted: bool,
}

impl Default for PackOutcome {
    fn default() -> (outcome: Self)
        ensures
            outcome == (PackOutcome {
                scanned: 0,
                dispatched: 0,
                head: None,
                budget_exhausted: false,
            }),
    {
        PackOutcome { scanned: 0, dispatched: 0, head: None, budget_exhausted: false }
    }
}

/// A packing pass part way through: the slots as charged so far, the decisions
/// taken, what became of each candidate, and the running counts.
pub struct PackState {
    pub slots: Seq<WorkerSlot>,
    pub placed: Seq<DispatchDecision>,
    pub disposition: Seq<Disposition>,
    pub outcome: PackOutcome,
}

/// The pass before it has looked at any candidate.
pub open spec fn pack_start(slots: Seq<WorkerSlot>, disposition: Seq<Disposition>) -> PackState {
    PackState {
        slots,
        placed: Seq::empty(),
        disposition,
        outcome: PackOutcome { scanned: 0, dispatched: 0, head: None, budget_exhausted: false },
    }
}

/// The pass has nothing more to do at candidate `i`: there is none, the budget is
/// used up, or the job fits nowhere.
pub open spec fn pack_ends(
    candidates: Seq<ReadyEntry>,
    jobs: Map<JobId, Job>,
    budget: PackBudget,
    i: int,
    st: PackState,
) -> bool {
    ||| i < 0 || i >= candidates.len()
    ||| st.outcome.dispatched >= budget.max_decisions || st.outcome.scanned >= budget.max_scanned
    ||| jobs.contains_key(candidates[i].job) && slot::first_fit_of(
        st.slots,
        jobs[candidates[i].job].request,
    ) is None
}

/// The pass once it has settled candidate `i`: a stale handle is dropped, a live
/// job placed on its first fit.
pub open spec fn pack_next(
    candidates: Seq<ReadyEntry>,
    jobs: Map<JobId, Job>,
    i: int,
    st: PackState,
) -> PackState {
    let job = candidates[i].job;
    if !jobs.contains_key(job) {
        PackState { disposition: st.disposition.update(i, Disposition::Dropped), ..st }
    } else {
        let request = jobs[job].request;
        let slot = slot::first_fit_of(st.slots, request)->0;
        PackState {
            slots: slot::charge(st.slots, slot as int, request),
            placed: st.placed.push(DispatchDecision { job, slot }),
            disposition: st.disposition.update(i, Disposition::Dispatched),
            outcome: PackOutcome {
                scanned: (st.outcome.scanned + 1) as usize,
                dispatched: (st.outcome.dispatched + 1) as usize,
                ..st.outcome
            },
        }
    }
}

/// The pass from candidate `i` on: each live job goes to its first fit while the
/// budget lasts, stale handles are dropped, and the first job that fits nowhere
/// ends the pass as its head.
pub open spec fn pack_from(
    candidates: Seq<ReadyEntry>,
    jobs: Map<JobId, Job>,
    budget: PackBudget,
    i: int,
    st: PackState,
) -> PackState
    decreases candidates.len() - i,
{
    if i < 0 || i >= candidates.len() {
        st
    } else if st.outcome.dispatched >= budget.max_decisions || st.outcome.scanned
        >= budget.max_scanned {
        PackState { outcome: PackOutcome { budget_exhausted: true, ..st.outcome }, ..st }
    } else if pack_ends(candidates, jobs, budget, i, st) {
        let scanned = (st.outcome.scanned + 1) as usize;
        PackState { outcome: PackOutcome { scanned, head: Some(i as usize), ..st.outcome }, ..st }
    } else {
        pack_from(candidates, jobs, budget, i + 1, pack_next(candidates, jobs, i, st))
    }
}

/// `request` can be charged to its first fit, if it has one. It always can unless
/// that slot holds more than it declares in some dimension of which `request`
/// wants none.
pub open spec fn lands(slots: Seq<WorkerSlot>, request: Resources) -> bool {
    slot::first_fit_of(slots, request) matches Some(s) ==> slots[s as int].admits(request)
}

/// Every job that the pass comes to from candidate `i` on can be charged where it
/// goes.
pub open spec fn pack_lands(
    candidates: Seq<ReadyEntry>,
    jobs: Map<JobId, Job>,
    budget: PackBudget,
    i: int,
    st: PackState,
) -> bool
    decreases candidates.len() - i,
{
    pack_ends(candidates, jobs, budget, i, st) || {
        &&& jobs.contains_key(candidates[i].job) ==> lands(
            st.slots,
            jobs[candidates[i].job].request,
        )
        &&& pack_lands(candidates, jobs, budget, i + 1, pack_next(candidates, jobs, i, st))
    }
}

/// Where no slot holds more than it declares, every request lands, and charging
/// it keeps it so.
pub(crate) proof fn lemma_lands(slots: Seq<WorkerSlot>, request: Resources)
    requires
        slot::within_capacity(slots),
        slots.len() <= slot::SLOT_SPACE,
    ensures
        lands(slots, request),
        slot::first_fit_of(slots, request) matches Some(s) ==> s < slots.len()
            && slot::within_capacity(slot::charge(slots, s as int, request)),
{
    slot::lemma_first_fit_exists(slots, request);
    if let Some(s) = slot::first_fit_of(slots, request) {
        assert(slot::fits_slot(slots, s as int, request));
        assert(slots[s as int].within());
        slot::law_allocation_stays_within_capacity(slots, s as int, request);
    }
}

proof fn lemma_pack_lands(
    candidates: Seq<ReadyEntry>,
    jobs: Map<JobId, Job>,
    budget: PackBudget,
    i: int,
    st: PackState,
)
    requires
        slot::within_capacity(st.slots),
        st.slots.len() <= slot::SLOT_SPACE,
    ensures
        pack_lands(candidates, jobs, budget, i, st),
    decreases candidates.len() - i,
{
    if !pack_ends(candidates, jobs, budget, i, st) {
        if jobs.contains_key(candidates[i].job) {
            lemma_lands(st.slots, jobs[candidates[i].job].request);
        }
        lemma_pack_lands(candidates, jobs, budget, i + 1, pack_next(candidates, jobs, i, st));
    }
}

/// On slots that hold no more than they declare, whatever a packing pass places
/// can be charged.
pub proof fn law_pack_lands_on_sound_slots(
    candidates: Seq<ReadyEntry>,
    jobs: Map<JobId, Job>,
    budget: PackBudget,
    slots: Seq<WorkerSlot>,
    disposition: Seq<Disposition>,
)
    requires
        slot::within_capacity(slots),
        slots.len() <= slot::SLOT_SPACE,
    ensures
        pack_lands(candidates, jobs, budget, 0, pack_start(slots, disposition)),
{
    lemma_pack_lands(candidates, jobs, budget, 0, pack_start(slots, disposition));
}

/// Walks `candidates` in order, allocating each job that fits, and stops at the
/// first that does not: the head job, which backfill then reserves for.
pub fn pack(
    candidates: &[ReadyEntry],
    jobs: &Arena<Job>,
    inventory: &mut SlotInventory,
    budget: PackBudget,
    disposition: &mut [Disposition],
    decisions: &mut Vec<DispatchDecision>,
) -> (outcome: PackOutcome)
    requires
        old(inventory).wf(),
        old(inventory)@.len() <= slot::SLOT_SPACE,
        old(disposition)@.len() >= candidates@.len(),
        pack_lands(
            candidates@,
            jobs@,
            budget,
            0,
            pack_start(old(inventory)@, old(disposition)@),
        ),
    ensures
        final(inventory).wf(),
        ({
            let end = pack_from(
                candidates@,
                jobs@,
                budget,
                0,
                pack_start(old(inventory)@, old(disposition)@),
            );
            &&& outcome == end.outcome
            &&& final(inventory)@ == end.slots
            &&& final(disposition)@ == end.disposition
            &&& final(decisions)@ == old(decisions)@ + end.placed
        }),
{
    let mut outcome = PackOutcome::default();
    let mut index: usize = 0;
    let ghost mut placed = Seq::<DispatchDecision>::empty();
    proof {
        assert(decisions@ =~= old(decisions)@ + placed);
    }
    while index < candidates.len()
        invariant
            index <= candidates@.len(),
            inventory.wf(),
            inventory@.len() == old(inventory)@.len() <= slot::SLOT_SPACE,
            disposition@.len() == old(disposition)@.len() >= candidates@.len(),
            outcome.scanned <= index,
            outcome.dispatched <= index,
            decisions@ == old(decisions)@ + placed,
            ({
                let st = PackState {
                    slots: inventory@,
                    placed,
                    disposition: disposition@,
                    outcome,
                };
                &&& pack_lands(candidates@, jobs@, budget, index as int, st)
                &&& pack_from(
                    candidates@,
                    jobs@,
                    budget,
                    0,
                    pack_start(old(inventory)@, old(disposition)@),
                ) == pack_from(candidates@, jobs@, budget, index as int, st)
            }),
        decreases candidates@.len() - index,
    {
        if outcome.dispatched >= budget.max_decisions || outcome.scanned >= budget.max_scanned {
            outcome.budget_exhausted = true;
            return outcome;
        }
        let entry: ReadyEntry = candidates[index];
        // A stale handle means the job was cancelled or finished after queueing.
        let Some(job) = jobs.get(entry.job) else {
            disposition[index] = Disposition::Dropped;
            index += 1;
            continue;
        };
        outcome.scanned += 1;
        let fit = inventory.first_fit(&job.request);
        proof {
            slot::lemma_first_fit_unique(inventory@, job.request, fit);
        }
        // No slot has room: this is the head job. Stop rather than starve it.
        let Some(slot) = fit else {
            outcome.head = Some(index);
            return outcome;
        };
        inventory.try_allocate(slot, &job.request).expect(
            "first_fit just reported this slot has room",
        );
        let decision = DispatchDecision { job: entry.job, slot };
        decisions.push(decision);
        disposition[index] = Disposition::Dispatched;
        outcome.dispatched += 1;
        proof {
            placed = placed.push(decision);
            assert(decisions@ =~= old(decisions)@ + placed);
        }
        index += 1;
    }
    outcome
}

/// What holds of a pass from candidate `i` on, given what held up to there.
pub(crate) proof fn lemma_pack(
    candidates: Seq<ReadyEntry>,
    jobs: Map<JobId, Job>,
    budget: PackBudget,
    i: int,
    st: PackState,
)
    requires
        0 <= i <= candidates.len() <= usize::MAX,
        st.slots.len() <= slot::SLOT_SPACE,
        st.disposition.len() >= candidates.len(),
        st.outcome.scanned <= i,
        st.outcome.dispatched == st.placed.len() <= st.outcome.scanned,
        st.outcome.head is None,
        !st.outcome.budget_exhausted,
        st.outcome.dispatched <= budget.max_decisions,
        st.outcome.scanned <= budget.max_scanned,
        pack_lands(candidates, jobs, budget, i, st),
    ensures
        ({
            let end = pack_from(candidates, jobs, budget, i, st);
            &&& end.slots.len() == st.slots.len()
            &&& end.disposition.len() == st.disposition.len()
            &&& end.outcome.dispatched == end.placed.len()
            &&& end.outcome.dispatched <= end.outcome.scanned
            &&& end.outcome.dispatched <= budget.max_decisions
            &&& end.outcome.scanned <= budget.max_scanned
            &&& slot::within_capacity(st.slots) ==> slot::within_capacity(end.slots)
            &&& end.outcome.head matches Some(h) ==> {
                &&& i <= h < candidates.len()
                &&& jobs.contains_key(candidates[h as int].job)
                &&& slot::is_first_fit(end.slots, jobs[candidates[h as int].job].request, None)
                &&& forall|j: int|
                    h <= j < candidates.len() ==> #[trigger] end.disposition[j] == st.disposition[j]
                &&& forall|j: int| i <= j < h ==> #[trigger] end.disposition[j] != Disposition::Pending
            }
            &&& end.outcome.head is None && !end.outcome.budget_exhausted ==> forall|j: int|
                i <= j < candidates.len() ==> #[trigger] end.disposition[j] != Disposition::Pending
            &&& forall|j: int|
                0 <= j < end.disposition.len() && !(i <= j < candidates.len())
                    ==> #[trigger] end.disposition[j] == st.disposition[j]
            &&& forall|j: int|
                i <= j < candidates.len() && #[trigger] end.disposition[j] != st.disposition[j]
                    ==> end.disposition[j] == if jobs.contains_key(candidates[j].job) {
                    Disposition::Dispatched
                } else {
                    Disposition::Dropped
                }
        }),
    decreases candidates.len() - i,
{
    if i < candidates.len() && jobs.contains_key(candidates[i].job) {
        slot::lemma_first_fit_exists(st.slots, jobs[candidates[i].job].request);
    }
    if !pack_ends(candidates, jobs, budget, i, st) {
        let next = pack_next(candidates, jobs, i, st);
        if jobs.contains_key(candidates[i].job) {
            let request = jobs[candidates[i].job].request;
            let s = slot::first_fit_of(st.slots, request)->0;
            if slot::within_capacity(st.slots) {
                slot::law_allocation_stays_within_capacity(st.slots, s as int, request);
            }
        }
        lemma_pack(candidates, jobs, budget, i + 1, next);
    }
}

/// A packing pass never over-commits a slot, stays within its budget, and
/// reports as many dispatches as it decided on.
pub proof fn law_pack_respects_capacity_and_budget(
    candidates: Seq<ReadyEntry>,
    jobs: Map<JobId, Job>,
    budget: PackBudget,
    slots: Seq<WorkerSlot>,
    disposition: Seq<Disposition>,
)
    requires
        candidates.len() <= usize::MAX,
        disposition.len() >= candidates.len(),
        slots.len() <= slot::SLOT_SPACE,
        pack_lands(candidates, jobs, budget, 0, pack_start(slots, disposition)),
    ensures
        ({
            let end = pack_from(candidates, jobs, budget, 0, pack_start(slots, disposition));
            &&& slot::within_capacity(slots) ==> slot::within_capacity(end.slots)
            &&& end.outcome.dispatched == end.placed.len()
            &&& end.outcome.dispatched <= end.outcome.scanned
            &&& end.outcome.dispatched <= budget.max_decisions
            &&& end.outcome.scanned <= budget.max_scanned
        }),
{
    lemma_pack(candidates, jobs, budget, 0, pack_start(slots, disposition));
}

/// Packing stops at the first job that fits nowhere: everything before the head
/// was settled, the head fits no slot, and nothing from the head on was touched.
/// A pass that ends with neither a head nor an exhausted budget settled every
/// candidate.
pub proof fn law_pack_stops_at_the_head(
    candidates: Seq<ReadyEntry>,
    jobs: Map<JobId, Job>,
    budget: PackBudget,
    slots: Seq<WorkerSlot>,
    disposition: Seq<Disposition>,
)
    requires
        candidates.len() <= usize::MAX,
        disposition.len() >= candidates.len(),
        slots.len() <= slot::SLOT_SPACE,
        pack_lands(candidates, jobs, budget, 0, pack_start(slots, disposition)),
    ensures
        ({
            let end = pack_from(candidates, jobs, budget, 0, pack_start(slots, disposition));
            &&& end.outcome.head matches Some(h) ==> {
                &&& h < candidates.len()
                &&& jobs.contains_key(candidates[h as int].job)
                &&& slot::is_first_fit(end.slots, jobs[candidates[h as int].job].request, None)
                &&& forall|j: int|
                    h <= j < candidates.len() ==> #[trigger] end.disposition[j] == disposition[j]
                &&& forall|j: int| 0 <= j < h ==> #[trigger] end.disposition[j] != Disposition::Pending
            }
            &&& end.outcome.head is None && !end.outcome.budget_exhausted ==> forall|j: int|
                0 <= j < candidates.len() ==> #[trigger] end.disposition[j] != Disposition::Pending
        }),
{
    lemma_pack(candidates, jobs, budget, 0, pack_start(slots, disposition));
}

/// The dispatched among the first `n` candidates, in order.
pub open spec fn dispatched_among(
    candidates: Seq<ReadyEntry>,
    disposition: Seq<Disposition>,
    n: int,
) -> Seq<JobId>
    decreases n,
{
    if n <= 0 {
        Seq::empty()
    } else {
        let before = dispatched_among(candidates, disposition, n - 1);
        if disposition[n - 1] is Dispatched {
            before.push(candidates[n - 1].job)
        } else {
            before
        }
    }
}

/// The jobs that were decided on, in order.
pub open spec fn decided(decisions: Seq<DispatchDecision>) -> Seq<JobId> {
    decisions.map_values(|d: DispatchDecision| d.job)
}

/// The slots once every decided job has been charged to the slot it was given.
pub open spec fn charged_by(
    slots: Seq<WorkerSlot>,
    decisions: Seq<DispatchDecision>,
    jobs: Map<JobId, Job>,
) -> Seq<WorkerSlot>
    decreases decisions.len(),
{
    if decisions.len() == 0 {
        slots
    } else {
        slot::charge(
            charged_by(slots, decisions.drop_last(), jobs),
            decisions.last().slot as int,
            jobs[decisions.last().job].request,
        )
    }
}

/// What was dispatched among the first candidates depends on them alone.
pub(crate) proof fn lemma_dispatched_prefix(
    candidates: Seq<ReadyEntry>,
    a: Seq<Disposition>,
    b: Seq<Disposition>,
    n: int,
)
    requires
        forall|k: int| 0 <= k < n ==> #[trigger] a[k] == b[k],
    ensures
        dispatched_among(candidates, a, n) == dispatched_among(candidates, b, n),
    decreases n,
{
    if n > 0 {
        lemma_dispatched_prefix(candidates, a, b, n - 1);
        assert(a[n - 1] == b[n - 1]);
    }
}

/// Candidates that were left pending add nothing to what was dispatched.
pub(crate) proof fn lemma_pending_adds_nothing(
    candidates: Seq<ReadyEntry>,
    disposition: Seq<Disposition>,
    i: int,
    n: int,
)
    requires
        0 <= i <= n,
        forall|k: int| i <= k < n ==> (#[trigger] disposition[k]) is Pending,
    ensures
        dispatched_among(candidates, disposition, n) == dispatched_among(
            candidates,
            disposition,
            i,
        ),
    decreases n - i,
{
    if i < n {
        assert(disposition[n - 1] is Pending);
        lemma_pending_adds_nothing(candidates, disposition, i, n - 1);
    }
}

proof fn lemma_pack_decides(
    candidates: Seq<ReadyEntry>,
    jobs: Map<JobId, Job>,
    budget: PackBudget,
    slots: Seq<WorkerSlot>,
    i: int,
    st: PackState,
)
    requires
        0 <= i <= candidates.len(),
        st.disposition.len() >= candidates.len(),
        forall|k: int| i <= k < candidates.len() ==> (#[trigger] st.disposition[k]) is Pending,
        decided(st.placed) == dispatched_among(candidates, st.disposition, i),
        st.slots == charged_by(slots, st.placed, jobs),
    ensures
        ({
            let end = pack_from(candidates, jobs, budget, i, st);
            &&& decided(end.placed) == dispatched_among(
                candidates,
                end.disposition,
                candidates.len() as int,
            )
            &&& end.slots == charged_by(slots, end.placed, jobs)
        }),
    decreases candidates.len() - i,
{
    let n = candidates.len() as int;
    lemma_pending_adds_nothing(candidates, st.disposition, i, n);
    if !pack_ends(candidates, jobs, budget, i, st) {
        let next = pack_next(candidates, jobs, i, st);
        lemma_dispatched_prefix(candidates, st.disposition, next.disposition, i);
        if jobs.contains_key(candidates[i].job) {
            assert(next.disposition[i] is Dispatched);
            assert(next.placed.drop_last() =~= st.placed);
            assert(decided(next.placed) =~= decided(st.placed).push(candidates[i].job));
        } else {
            assert(next.disposition[i] is Dropped);
        }
        lemma_pack_decides(candidates, jobs, budget, slots, i + 1, next);
    }
}

/// A packing pass over pending candidates decides on exactly those it marks
/// dispatched, in their order, and charges each to the slot it names and nothing
/// else.
pub proof fn law_pack_decides_what_it_dispatches(
    candidates: Seq<ReadyEntry>,
    jobs: Map<JobId, Job>,
    budget: PackBudget,
    slots: Seq<WorkerSlot>,
    disposition: Seq<Disposition>,
)
    requires
        disposition.len() >= candidates.len(),
        forall|k: int| 0 <= k < candidates.len() ==> (#[trigger] disposition[k]) is Pending,
    ensures
        ({
            let end = pack_from(candidates, jobs, budget, 0, pack_start(slots, disposition));
            &&& decided(end.placed) == dispatched_among(
                candidates,
                end.disposition,
                candidates.len() as int,
            )
            &&& end.slots == charged_by(slots, end.placed, jobs)
        }),
{
    let start = pack_start(slots, disposition);
    assert(decided(start.placed) =~= Seq::<JobId>::empty());
    lemma_pack_decides(candidates, jobs, budget, slots, 0, start);
}

/// How many of the candidates from `low` up to `high` were dispatched.
pub open spec fn dispatched_within(disposition: Seq<Disposition>, low: int, high: int) -> nat
    decreases high - low,
{
    if high <= low {
        0
    } else {
        dispatched_within(disposition, low, high - 1) + if disposition[high - 1] is Dispatched {
            1nat
        } else {
            0nat
        }
    }
}

/// The count goes by the dispositions it looks at alone.
pub(crate) proof fn lemma_dispatched_within_agrees(
    a: Seq<Disposition>,
    b: Seq<Disposition>,
    low: int,
    high: int,
)
    requires
        forall|j: int| low <= j < high ==> #[trigger] a[j] == b[j],
    ensures
        dispatched_within(a, low, high) == dispatched_within(b, low, high),
    decreases high - low,
{
    if high > low {
        lemma_dispatched_within_agrees(a, b, low, high - 1);
        assert(a[high - 1] == b[high - 1]);
    }
}

/// Candidate `j` was reached with the first `m` of `placed` charged, and placed as the
/// next, on the lowest slot with room for it.
pub open spec fn placed_at(
    candidates: Seq<ReadyEntry>,
    jobs: Map<JobId, Job>,
    slots: Seq<WorkerSlot>,
    placed: Seq<DispatchDecision>,
    j: int,
    m: int,
) -> bool {
    let id = candidates[j].job;
    let then = charged_by(slots, placed.take(m), jobs);
    &&& 0 <= m < placed.len()
    &&& jobs.contains_key(id)
    &&& placed[m].job == id
    &&& placed[m].slot < then.len()
    &&& slot::fits_slot(then, placed[m].slot as int, jobs[id].request)
    &&& forall|s: int|
        0 <= s < placed[m].slot ==> !#[trigger] slot::fits_slot(then, s, jobs[id].request)
}

/// What becomes of each candidate from `i` on, and why the pass ends at `stop`.
proof fn lemma_pack_reasons(
    candidates: Seq<ReadyEntry>,
    jobs: Map<JobId, Job>,
    budget: PackBudget,
    slots: Seq<WorkerSlot>,
    i: int,
    st: PackState,
) -> (stop: int)
    requires
        0 <= i <= candidates.len() <= usize::MAX,
        st.slots.len() <= slot::SLOT_SPACE,
        st.disposition.len() >= candidates.len(),
        st.outcome.scanned == st.outcome.dispatched == st.placed.len(),
        st.placed.len() <= i,
        st.outcome.head is None,
        !st.outcome.budget_exhausted,
        st.placed.len() == dispatched_within(st.disposition, 0, i),
        st.slots == charged_by(slots, st.placed, jobs),
        forall|j: int| i <= j < candidates.len() ==> (#[trigger] st.disposition[j]) is Pending,
    ensures
        ({
            let end = pack_from(candidates, jobs, budget, i, st);
            &&& i <= stop <= candidates.len()
            &&& st.placed.len() <= end.placed.len()
            &&& end.placed.take(st.placed.len() as int) == st.placed
            &&& end.slots == charged_by(slots, end.placed, jobs)
            &&& forall|j: int| 0 <= j < i ==> #[trigger] end.disposition[j] == st.disposition[j]
            &&& forall|j: int|
                i <= j < stop ==> #[trigger] end.disposition[j] == (if jobs.contains_key(
                    candidates[j].job,
                ) {
                    Disposition::Dispatched
                } else {
                    Disposition::Dropped
                })
            &&& forall|j: int|
                stop <= j < candidates.len() ==> (#[trigger] end.disposition[j]) is Pending
            &&& forall|j: int|
                i <= j < stop && (#[trigger] end.disposition[j]) is Dispatched ==> placed_at(
                    candidates,
                    jobs,
                    slots,
                    end.placed,
                    j,
                    dispatched_within(end.disposition, 0, j) as int,
                )
            &&& end.outcome.dispatched == end.placed.len()
            &&& end.outcome.scanned == end.placed.len() + (if end.outcome.head is Some {
                1int
            } else {
                0int
            })
            &&& match end.outcome.head {
                Some(h) => {
                    &&& h == stop < candidates.len()
                    &&& !end.outcome.budget_exhausted
                    &&& jobs.contains_key(candidates[stop].job)
                    &&& forall|s: int|
                        0 <= s < end.slots.len() ==> !#[trigger] slot::fits_slot(
                            end.slots,
                            s,
                            jobs[candidates[stop].job].request,
                        )
                },
                None => {
                    &&& end.outcome.budget_exhausted <==> stop < candidates.len()
                    &&& end.outcome.budget_exhausted ==> end.placed.len() >= budget.max_decisions
                        || end.placed.len() >= budget.max_scanned
                },
            }
        }),
    decreases candidates.len() - i,
{
    let end = pack_from(candidates, jobs, budget, i, st);
    assert(st.placed.take(st.placed.len() as int) =~= st.placed);
    if i < candidates.len() && jobs.contains_key(candidates[i].job) {
        slot::lemma_first_fit_exists(st.slots, jobs[candidates[i].job].request);
    }
    if pack_ends(candidates, jobs, budget, i, st) {
        i
    } else {
        let id = candidates[i].job;
        let next = pack_next(candidates, jobs, i, st);
        assert(next.slots == charged_by(slots, next.placed, jobs)) by {
            if next.placed.len() > st.placed.len() {
                assert(next.placed.drop_last() =~= st.placed);
            }
        }
        lemma_dispatched_within_agrees(st.disposition, next.disposition, 0, i);
        let stop = lemma_pack_reasons(candidates, jobs, budget, slots, i + 1, next);
        lemma_dispatched_within_agrees(st.disposition, end.disposition, 0, i);
        let n = st.placed.len() as int;
        assert(end.placed.take(n) =~= st.placed) by {
            assert(end.placed.take(next.placed.len() as int).take(n) =~= end.placed.take(n));
            assert(next.placed.take(n) =~= st.placed);
        }
        assert(end.disposition[i] == next.disposition[i]);
        if jobs.contains_key(id) {
            assert(end.placed[n] == end.placed.take(next.placed.len() as int)[n]);
            assert(placed_at(candidates, jobs, slots, end.placed, i, n));
        }
        stop
    }
}

/// Packing takes the candidates in turn: up to where it stops every live one is placed,
/// on the lowest slot that had room when it was reached, and every stale one dropped;
/// from there on none is touched. It stops at the first that no slot has room for, its
/// head, or when the budget is used up, and nowhere else; it counts what it placed, and
/// as looked at one more if there is a head.
pub proof fn law_pack_places_in_turn_on_first_fits(
    candidates: Seq<ReadyEntry>,
    jobs: Map<JobId, Job>,
    budget: PackBudget,
    slots: Seq<WorkerSlot>,
    disposition: Seq<Disposition>,
) -> (stop: int)
    requires
        candidates.len() <= usize::MAX,
        disposition.len() >= candidates.len(),
        slots.len() <= slot::SLOT_SPACE,
        forall|k: int| 0 <= k < candidates.len() ==> (#[trigger] disposition[k]) is Pending,
    ensures
        ({
            let end = pack_from(candidates, jobs, budget, 0, pack_start(slots, disposition));
            &&& 0 <= stop <= candidates.len()
            &&& end.outcome.head matches Some(h) ==> h == stop
            &&& stop == candidates.len() <==> end.outcome.head is None
                && !end.outcome.budget_exhausted
            &&& forall|j: int|
                0 <= j < candidates.len() ==> #[trigger] end.disposition[j] == (if j >= stop {
                    Disposition::Pending
                } else if jobs.contains_key(candidates[j].job) {
                    Disposition::Dispatched
                } else {
                    Disposition::Dropped
                })
            &&& forall|j: int|
                0 <= j < stop && (#[trigger] end.disposition[j]) is Dispatched ==> placed_at(
                    candidates,
                    jobs,
                    slots,
                    end.placed,
                    j,
                    dispatched_within(end.disposition, 0, j) as int,
                )
            &&& end.slots == charged_by(slots, end.placed, jobs)
            &&& end.outcome.dispatched == end.placed.len()
            &&& end.outcome.scanned == end.placed.len() + (if end.outcome.head is Some {
                1int
            } else {
                0int
            })
            &&& end.outcome.head is Some ==> !end.outcome.budget_exhausted && jobs.contains_key(
                candidates[stop].job,
            ) && forall|s: int|
                0 <= s < end.slots.len() ==> !#[trigger] slot::fits_slot(
                    end.slots,
                    s,
                    jobs[candidates[stop].job].request,
                )
            &&& end.outcome.budget_exhausted ==> end.placed.len() >= budget.max_decisions
                || end.placed.len() >= budget.max_scanned
        }),
{
    lemma_pack_reasons(candidates, jobs, budget, slots, 0, pack_start(slots, disposition))
}

/// As many candidates are marked dispatched up to the stop as were placed.
pub(crate) proof fn lemma_dispatched_count(
    candidates: Seq<ReadyEntry>,
    jobs: Map<JobId, Job>,
    budget: PackBudget,
    slots: Seq<WorkerSlot>,
    disposition: Seq<Disposition>,
    stop: int,
)
    requires
        candidates.len() <= usize::MAX,
        disposition.len() == candidates.len(),
        slots.len() <= slot::SLOT_SPACE,
        0 <= stop <= candidates.len(),
        forall|k: int| 0 <= k < candidates.len() ==> (#[trigger] disposition[k]) is Pending,
        ({
            let end = pack_from(candidates, jobs, budget, 0, pack_start(slots, disposition));
            forall|j: int| stop <= j < candidates.len() ==> (#[trigger] end.disposition[j]) is Pending
        }),
    ensures
        ({
            let end = pack_from(candidates, jobs, budget, 0, pack_start(slots, disposition));
            &&& end.disposition.len() == candidates.len()
            &&& end.slots.len() == slots.len()
            &&& end.placed.len() == dispatched_within(end.disposition, 0, stop)
        }),
{
    law_pack_decides_what_it_dispatches(candidates, jobs, budget, slots, disposition);
    let end = pack_from(candidates, jobs, budget, 0, pack_start(slots, disposition));
    lemma_pack_keeps_length(candidates, jobs, budget, 0, pack_start(slots, disposition));
    lemma_pending_adds_nothing(candidates, end.disposition, stop, candidates.len() as int);
    lemma_dispatched_among_counts(candidates, end.disposition, stop);
    assert(decided(end.placed).len() == end.placed.len());
}

proof fn lemma_pack_keeps_length(
    candidates: Seq<ReadyEntry>,
    jobs: Map<JobId, Job>,
    budget: PackBudget,
    i: int,
    st: PackState,
)
    requires
        0 <= i,
        candidates.len() <= st.disposition.len(),
        st.slots.len() <= slot::SLOT_SPACE,
    ensures
        pack_from(candidates, jobs, budget, i, st).disposition.len() == st.disposition.len(),
        pack_from(candidates, jobs, budget, i, st).slots.len() == st.slots.len(),
    decreases candidates.len() - i,
{
    if !pack_ends(candidates, jobs, budget, i, st) {
        if jobs.contains_key(candidates[i].job) {
            slot::lemma_first_fit_exists(st.slots, jobs[candidates[i].job].request);
        }
        lemma_pack_keeps_length(
            candidates,
            jobs,
            budget,
            i + 1,
            pack_next(candidates, jobs, i, st),
        );
    }
}

proof fn lemma_dispatched_among_counts(
    candidates: Seq<ReadyEntry>,
    disposition: Seq<Disposition>,
    n: int,
)
    ensures
        dispatched_among(candidates, disposition, n).len() == dispatched_within(disposition, 0, n),
    decreases n,
{
    if n > 0 {
        lemma_dispatched_among_counts(candidates, disposition, n - 1);
    }
}

/// Charging decisions adds them up: one more decision charges its job's request to the
/// slot it names, and none charges nothing.
pub proof fn law_charges_add_up(
    slots: Seq<WorkerSlot>,
    decisions: Seq<DispatchDecision>,
    decision: DispatchDecision,
    jobs: Map<JobId, Job>,
)
    ensures
        charged_by(slots, Seq::<DispatchDecision>::empty(), jobs) == slots,
        charged_by(slots, decisions.push(decision), jobs) == slot::charge(
            charged_by(slots, decisions, jobs),
            decision.slot as int,
            jobs[decision.job].request,
        ),
{
    assert(decisions.push(decision).drop_last() =~= decisions);
}

} // verus!

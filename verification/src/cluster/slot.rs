//! Virtual cluster capacity. Slot count and size are configuration, not
//! discovered from a real cluster, so benchmarks can simulate any fleet.
use crate::domain::{Capacity, ResourceRequest, Resources};
use vstd::prelude::*;

verus! {

/// Dense index into a `SlotInventory`.
pub type SlotIndex = u32;

/// One past the largest slot index.
pub const SLOT_SPACE: u64 = 0x1_0000_0000;

/// A capacity operation could not be applied.
#[derive(Clone, Copy, PartialEq, Eq, Debug, Structural)]
pub enum CapacityError {
    /// There is no slot with this index.
    NoSuchSlot { slot: SlotIndex },
    /// The allocation would exceed the capacity of this slot.
    WouldExceed { slot: SlotIndex },
}

/// One worker's declared capacity and current allocation.
#[derive(Clone, Copy, PartialEq, Eq, Debug, Structural)]
pub struct WorkerSlot {
    pub capacity: Capacity,
    pub allocated: Resources,
}

impl WorkerSlot {
    /// Unallocated capacity, floored at zero in every dimension.
    pub open spec fn spare(self) -> Resources {
        self.capacity.minus(self.allocated)
    }

    /// True when `request` can be charged on top of what is allocated.
    pub open spec fn admits(self, request: Resources) -> bool {
        self.allocated.sum_in_range(request) && self.allocated.plus(request).le(self.capacity)
    }

    /// True when no more is allocated than the slot declares.
    pub open spec fn within(self) -> bool {
        self.allocated.le(self.capacity)
    }

    /// This slot with `request` charged to it.
    pub open spec fn charged(self, request: Resources) -> WorkerSlot {
        WorkerSlot { allocated: self.allocated.plus(request), ..self }
    }

    /// This slot with `request` returned to it.
    pub open spec fn refunded(self, request: Resources) -> WorkerSlot {
        WorkerSlot { allocated: self.allocated.minus(request), ..self }
    }

    /// An empty slot of this capacity.
    pub open spec fn fresh(capacity: Capacity) -> WorkerSlot {
        WorkerSlot { capacity, allocated: Resources::nothing() }
    }

    /// An empty slot of the given capacity.
    #[must_use]
    pub fn new(capacity: Capacity) -> (slot: Self)
        ensures
            slot == WorkerSlot::fresh(capacity),
    {
        WorkerSlot { capacity, allocated: Resources::zero() }
    }

    /// Unallocated capacity.
    #[must_use]
    pub fn free(&self) -> (spare: Resources)
        ensures
            spare == self.spare(),
    {
        self.capacity.saturating_sub(&self.allocated)
    }
}

/// `request` fits the spare capacity of slot `i`.
pub open spec fn fits_slot(slots: Seq<WorkerSlot>, i: int, request: Resources) -> bool {
    request.le(slots[i].spare())
}

/// `slot` is the lowest-indexed slot with room for `request`, if any has.
pub open spec fn is_first_fit(
    slots: Seq<WorkerSlot>,
    request: Resources,
    slot: Option<SlotIndex>,
) -> bool {
    match slot {
        Some(s) => {
            &&& s < slots.len()
            &&& fits_slot(slots, s as int, request)
            &&& forall|i: int| 0 <= i < s ==> !#[trigger] fits_slot(slots, i, request)
        },
        None => forall|i: int| 0 <= i < slots.len() ==> !#[trigger] fits_slot(slots, i, request),
    }
}

/// The lowest-indexed slot with room for `request`.
pub open spec fn first_fit_of(slots: Seq<WorkerSlot>, request: Resources) -> Option<SlotIndex> {
    choose|slot: Option<SlotIndex>| is_first_fit(slots, request, slot)
}

/// There is only one first fit.
pub(crate) proof fn lemma_first_fit_unique(
    slots: Seq<WorkerSlot>,
    request: Resources,
    slot: Option<SlotIndex>,
)
    requires
        is_first_fit(slots, request, slot),
    ensures
        first_fit_of(slots, request) == slot,
{
    let other = first_fit_of(slots, request);
    assert(is_first_fit(slots, request, other));
    if let Some(a) = slot {
        assert(fits_slot(slots, a as int, request));
    }
    if let Some(b) = other {
        assert(fits_slot(slots, b as int, request));
    }
}

/// There is always a first fit, or none at all.
pub(crate) proof fn lemma_first_fit_exists(slots: Seq<WorkerSlot>, request: Resources)
    requires
        slots.len() <= SLOT_SPACE,
    ensures
        is_first_fit(slots, request, first_fit_of(slots, request)),
{
    lemma_first_fit_search(slots, request, 0);
}

proof fn lemma_first_fit_search(slots: Seq<WorkerSlot>, request: Resources, i: int)
    requires
        slots.len() <= SLOT_SPACE,
        0 <= i <= slots.len(),
        forall|j: int| 0 <= j < i ==> !#[trigger] fits_slot(slots, j, request),
    ensures
        exists|slot: Option<SlotIndex>| is_first_fit(slots, request, slot),
    decreases slots.len() - i,
{
    if i == slots.len() {
        assert(is_first_fit(slots, request, None));
    } else if fits_slot(slots, i, request) {
        assert(is_first_fit(slots, request, Some(i as u32)));
    } else {
        lemma_first_fit_search(slots, request, i + 1);
    }
}

/// No slot holds more than it declares.
pub open spec fn within_capacity(slots: Seq<WorkerSlot>) -> bool {
    forall|i: int| 0 <= i < slots.len() ==> (#[trigger] slots[i]).within()
}

/// The slots with `request` charged to slot `i`.
pub open spec fn charge(slots: Seq<WorkerSlot>, i: int, request: Resources) -> Seq<WorkerSlot> {
    slots.update(i, slots[i].charged(request))
}

/// The slots with `request` returned to slot `i`.
pub open spec fn refund(slots: Seq<WorkerSlot>, i: int, request: Resources) -> Seq<WorkerSlot> {
    slots.update(i, slots[i].refunded(request))
}

/// The clamped sum of spare capacity over the first `n` slots.
pub open spec fn spare_sum(slots: Seq<WorkerSlot>, n: int) -> Resources
    decreases n,
{
    if n <= 0 {
        Resources::nothing()
    } else {
        spare_sum(slots, n - 1).plus(slots[n - 1].spare())
    }
}

/// `i` is where a new slot goes: over the lowest zero-capacity slot, or behind
/// the last when there is none.
pub open spec fn is_vacancy(slots: Seq<WorkerSlot>, i: int) -> bool {
    &&& 0 <= i <= slots.len()
    &&& forall|j: int| 0 <= j < i ==> (#[trigger] slots[j]).capacity != Resources::nothing()
    &&& i < slots.len() ==> slots[i].capacity == Resources::nothing()
}

/// The scheduler's model of cluster capacity.
#[derive(Debug)]
pub struct SlotInventory {
    slots: Vec<WorkerSlot>,
    /// Per-dimension maximum over all slots; a fast pre-check for `can_ever_fit`.
    max_capacity: Capacity,
}

impl View for SlotInventory {
    type V = Seq<WorkerSlot>;

    closed spec fn view(&self) -> Seq<WorkerSlot> {
        self.slots@
    }
}

impl SlotInventory {
    /// The recorded maximum bounds every declared capacity.
    pub closed spec fn wf(&self) -> bool {
        forall|i: int|
            0 <= i < self.slots@.len() ==> (#[trigger] self.slots@[i]).capacity.le(
                self.max_capacity,
            )
    }

    /// `count` identical slots.
    #[must_use]
    pub fn from_uniform(count: u32, capacity: Capacity) -> (inventory: Self)
        ensures
            inventory.wf(),
            inventory@ == Seq::new(count as nat, |i: int| WorkerSlot::fresh(capacity)),
    {
        let slots: Vec<WorkerSlot> = vec![WorkerSlot::new(capacity); count as usize];
        assert forall|i: int| 0 <= i < slots@.len() implies slots@[i] == WorkerSlot::fresh(
            capacity,
        ) by {
            assert(cloned::<WorkerSlot>(WorkerSlot::fresh(capacity), slots@[i]));
        }
        assert(slots@ =~= Seq::new(count as nat, |i: int| WorkerSlot::fresh(capacity)));
        SlotInventory { slots, max_capacity: capacity }
    }

    /// One slot per entry, capacities as given.
    #[must_use]
    pub fn from_capacities(capacities: &[Capacity]) -> (inventory: Self)
        ensures
            inventory.wf(),
            inventory@ == capacities@.map_values(|c: Capacity| WorkerSlot::fresh(c)),
    {
        let mut slots: Vec<WorkerSlot> = Vec::with_capacity(capacities.len());
        let mut max_capacity = Resources::zero();
        let mut i: usize = 0;
        while i < capacities.len()
            invariant
                i <= capacities@.len(),
                slots@.len() == i,
                forall|j: int|
                    0 <= j < i ==> #[trigger] slots@[j] == WorkerSlot::fresh(capacities@[j])
                        && slots@[j].capacity.le(max_capacity),
            decreases capacities@.len() - i,
        {
            max_capacity = max_capacity.max_with(&capacities[i]);
            slots.push(WorkerSlot::new(capacities[i]));
            i += 1;
        }
        assert(slots@ =~= capacities@.map_values(|c: Capacity| WorkerSlot::fresh(c)));
        SlotInventory { slots, max_capacity }
    }

    /// Number of slots.
    #[must_use]
    pub fn len(&self) -> (count: SlotIndex)
        requires
            self@.len() <= u32::MAX,
        ensures
            count == self@.len(),
    {
        self.slots.len() as u32
    }

    /// True when there are no slots.
    #[must_use]
    pub fn is_empty(&self) -> (empty: bool)
        ensures
            empty == (self@.len() == 0),
    {
        self.slots.is_empty()
    }

    /// Borrows one slot, or `None` if out of range.
    #[must_use]
    pub fn slot(&self, slot: SlotIndex) -> (entry: Option<&WorkerSlot>)
        ensures
            entry == (if slot < self@.len() {
                Some(&self@[slot as int])
            } else {
                None
            }),
    {
        if (slot as usize) < self.slots.len() {
            Some(&self.slots[slot as usize])
        } else {
            None
        }
    }

    /// Unallocated capacity of one slot, or `None` if out of range.
    #[must_use]
    pub fn free(&self, slot: SlotIndex) -> (spare: Option<Resources>)
        ensures
            spare == (if slot < self@.len() {
                Some(self@[slot as int].spare())
            } else {
                None
            }),
    {
        match self.slot(slot) {
            Some(entry) => Some(entry.free()),
            None => None,
        }
    }

    /// Lowest-indexed slot with room for `request` right now (first-fit).
    #[must_use]
    pub fn first_fit(&self, request: &ResourceRequest) -> (slot: Option<SlotIndex>)
        requires
            self@.len() <= SLOT_SPACE,
        ensures
            is_first_fit(self@, *request, slot),
    {
        let mut i: usize = 0;
        while i < self.slots.len()
            invariant
                i <= self.slots@.len() <= SLOT_SPACE,
                forall|j: int| 0 <= j < i ==> !#[trigger] fits_slot(self.slots@, j, *request),
            decreases self.slots@.len() - i,
        {
            if request.fits_within(&self.slots[i].free()) {
                assert(fits_slot(self.slots@, i as int, *request));
                return Some(i as u32);
            }
            i += 1;
        }
        None
    }

    /// Charges `request` against `slot`. On error nothing changes.
    ///
    /// # Errors
    /// `NoSuchSlot` if out of range; `WouldExceed` if it does not fit.
    pub fn try_allocate(&mut self, slot: SlotIndex, request: &ResourceRequest) -> (charged: Result<
        (),
        CapacityError,
    >)
        requires
            old(self).wf(),
        ensures
            final(self).wf(),
            charged == (if slot >= old(self)@.len() {
                Err(CapacityError::NoSuchSlot { slot })
            } else if !old(self)@[slot as int].admits(*request) {
                Err(CapacityError::WouldExceed { slot })
            } else {
                Ok(())
            }),
            charged is Ok ==> final(self)@ == charge(old(self)@, slot as int, *request),
            charged is Err ==> *final(self) == *old(self),
    {
        if slot as usize >= self.slots.len() {
            return Err(CapacityError::NoSuchSlot { slot });
        }
        let entry: WorkerSlot = self.slots[slot as usize];
        // Overflow and over-capacity are different failures; check both.
        let Some(next) = entry.allocated.checked_add(request) else {
            return Err(CapacityError::WouldExceed { slot });
        };
        if !next.fits_within(&entry.capacity) {
            return Err(CapacityError::WouldExceed { slot });
        }
        self.slots[slot as usize] = WorkerSlot { capacity: entry.capacity, allocated: next };
        Ok(())
    }

    /// Returns `request` to `slot`.
    ///
    /// # Errors
    /// `NoSuchSlot` if out of range.
    pub fn release(&mut self, slot: SlotIndex, request: &ResourceRequest) -> (released: Result<
        (),
        CapacityError,
    >)
        requires
            old(self).wf(),
        ensures
            final(self).wf(),
            released == (if slot >= old(self)@.len() {
                Err(CapacityError::NoSuchSlot { slot })
            } else {
                Ok(())
            }),
            released is Ok ==> final(self)@ == refund(old(self)@, slot as int, *request),
            released is Err ==> *final(self) == *old(self),
    {
        if slot as usize >= self.slots.len() {
            return Err(CapacityError::NoSuchSlot { slot });
        }
        let entry: WorkerSlot = self.slots[slot as usize];
        self.slots[slot as usize] = WorkerSlot {
            capacity: entry.capacity,
            allocated: entry.allocated.saturating_sub(request),
        };
        Ok(())
    }

    /// True when some slot's declared capacity could hold `request` if empty.
    #[must_use]
    pub fn can_ever_fit(&self, request: &ResourceRequest) -> (possible: bool)
        requires
            self.wf(),
        ensures
            possible <==> exists|i: int|
                0 <= i < self@.len() && request.le((#[trigger] self@[i]).capacity),
    {
        // Cheap per-dimension check first; it can only rule out, never rule in.
        if !request.fits_within(&self.max_capacity) {
            return false;
        }
        let mut i: usize = 0;
        while i < self.slots.len()
            invariant
                i <= self.slots@.len(),
                forall|j: int| 0 <= j < i ==> !request.le((#[trigger] self.slots@[j]).capacity),
            decreases self.slots@.len() - i,
        {
            if request.fits_within(&self.slots[i].capacity) {
                assert(request.le(self@[i as int].capacity));
                return true;
            }
            i += 1;
        }
        false
    }

    /// Componentwise sum of free capacity across all slots.
    #[must_use]
    pub fn total_free(&self) -> (spare: Resources)
        ensures
            spare == spare_sum(self@, self@.len() as int),
    {
        let mut total = Resources::zero();
        let mut i: usize = 0;
        while i < self.slots.len()
            invariant
                i <= self.slots@.len(),
                total == spare_sum(self.slots@, i as int),
            decreases self.slots@.len() - i,
        {
            total = total.saturating_add(&self.slots[i].free());
            i += 1;
        }
        total
    }

    /// Adds a slot of `capacity`, reusing the lowest zero-capacity slot if one
    /// exists so indices stay stable across worker churn.
    pub fn add_slot(&mut self, capacity: Capacity) -> (slot: SlotIndex)
        requires
            old(self).wf(),
            exists|i: int| is_vacancy(old(self)@, i) && i < SLOT_SPACE,
        ensures
            final(self).wf(),
            is_vacancy(old(self)@, slot as int),
            final(self)@ == (if slot < old(self)@.len() {
                old(self)@.update(slot as int, WorkerSlot::fresh(capacity))
            } else {
                old(self)@.push(WorkerSlot::fresh(capacity))
            }),
    {
        let mut index: usize = 0;
        while index < self.slots.len()
            invariant_except_break
                index <= self.slots@.len(),
                forall|j: int|
                    0 <= j < index ==> (#[trigger] self.slots@[j]).capacity
                        != Resources::nothing(),
            invariant
                self.slots@ == old(self).slots@,
                self.max_capacity == old(self).max_capacity,
            ensures
                is_vacancy(self.slots@, index as int),
            decreases self.slots@.len() - index,
        {
            if self.slots[index].capacity == Resources::zero() {
                break;
            }
            index += 1;
        }
        if index < self.slots.len() {
            self.slots[index] = WorkerSlot::new(capacity);
        } else {
            self.slots.push(WorkerSlot::new(capacity));
        }
        self.max_capacity = self.max_capacity.max_with(&capacity);
        index as u32
    }

    /// Appends a slot, never reusing one. The engine decides reuse itself
    /// because it knows which zeroed slots still have a draining worker attached.
    pub fn push_slot(&mut self, capacity: Capacity) -> (slot: SlotIndex)
        requires
            old(self).wf(),
            old(self)@.len() < SLOT_SPACE,
        ensures
            final(self).wf(),
            slot == old(self)@.len(),
            final(self)@ == old(self)@.push(WorkerSlot::fresh(capacity)),
    {
        let index: usize = self.slots.len();
        self.slots.push(WorkerSlot::new(capacity));
        self.max_capacity = self.max_capacity.max_with(&capacity);
        index as u32
    }

    /// Replaces a slot's declared capacity. Zero capacity drains it: nothing
    /// new fits, and `add_slot` may reuse it.
    ///
    /// # Errors
    /// `NoSuchSlot`.
    pub fn set_capacity(&mut self, slot: SlotIndex, capacity: Capacity) -> (set: Result<
        (),
        CapacityError,
    >)
        requires
            old(self).wf(),
        ensures
            final(self).wf(),
            set == (if slot >= old(self)@.len() {
                Err(CapacityError::NoSuchSlot { slot })
            } else {
                Ok(())
            }),
            set is Ok ==> final(self)@ == old(self)@.update(
                slot as int,
                WorkerSlot { capacity, ..old(self)@[slot as int] },
            ),
            set is Err ==> *final(self) == *old(self),
    {
        if slot as usize >= self.slots.len() {
            return Err(CapacityError::NoSuchSlot { slot });
        }
        let entry: WorkerSlot = self.slots[slot as usize];
        self.slots[slot as usize] = WorkerSlot { capacity, allocated: entry.allocated };
        // The maximum only over-approximates: it grows with a larger slot, but
        // need not shrink with a smaller one.
        self.max_capacity = self.max_capacity.max_with(&capacity);
        Ok(())
    }

    /// Forgets every allocation on `slot`, keeping its capacity.
    ///
    /// # Errors
    /// `NoSuchSlot`.
    pub fn clear_allocation(&mut self, slot: SlotIndex) -> (cleared: Result<(), CapacityError>)
        requires
            old(self).wf(),
        ensures
            final(self).wf(),
            cleared == (if slot >= old(self)@.len() {
                Err(CapacityError::NoSuchSlot { slot })
            } else {
                Ok(())
            }),
            cleared is Ok ==> final(self)@ == old(self)@.update(
                slot as int,
                WorkerSlot::fresh(old(self)@[slot as int].capacity),
            ),
            cleared is Err ==> *final(self) == *old(self),
    {
        if slot as usize >= self.slots.len() {
            return Err(CapacityError::NoSuchSlot { slot });
        }
        let entry: WorkerSlot = self.slots[slot as usize];
        self.slots[slot as usize] = WorkerSlot::new(entry.capacity);
        Ok(())
    }

    /// Drops every allocation, keeping the slots.
    pub fn reset(&mut self)
        requires
            old(self).wf(),
        ensures
            final(self).wf(),
            final(self)@ == old(self)@.map_values(
                |s: WorkerSlot| WorkerSlot::fresh(s.capacity),
            ),
    {
        let mut i: usize = 0;
        while i < self.slots.len()
            invariant
                i <= self.slots@.len() == old(self).slots@.len(),
                self.max_capacity == old(self).max_capacity,
                forall|j: int|
                    0 <= j < i ==> #[trigger] self.slots@[j] == WorkerSlot::fresh(
                        old(self).slots@[j].capacity,
                    ),
                forall|j: int|
                    i <= j < self.slots@.len() ==> #[trigger] self.slots@[j] == old(self).slots@[j],
            decreases self.slots@.len() - i,
        {
            let capacity: Capacity = self.slots[i].capacity;
            self.slots[i] = WorkerSlot::new(capacity);
            i += 1;
        }
        assert(self.slots@ =~= old(self).slots@.map_values(
            |s: WorkerSlot| WorkerSlot::fresh(s.capacity),
        ));
    }
}

impl Clone for SlotInventory {
    fn clone(&self) -> (copy: Self)
        ensures
            copy@ == self@,
            self.wf() ==> copy.wf(),
    {
        let slots: Vec<WorkerSlot> = self.slots.clone();
        assert forall|i: int| 0 <= i < slots@.len() implies slots@[i] == self.slots@[i] by {
            assert(cloned::<WorkerSlot>(self.slots@[i], slots@[i]));
        }
        assert(slots@ =~= self.slots@);
        SlotInventory { slots, max_capacity: self.max_capacity }
    }
}

/// Charging and returning keep every slot within its declared capacity; so do
/// the operations that add an empty slot or forget allocations.
pub proof fn law_allocation_stays_within_capacity(
    slots: Seq<WorkerSlot>,
    i: int,
    request: Resources,
)
    requires
        within_capacity(slots),
        0 <= i < slots.len(),
    ensures
        slots[i].admits(request) ==> within_capacity(charge(slots, i, request)),
        within_capacity(refund(slots, i, request)),
        within_capacity(slots.push(WorkerSlot::fresh(request))),
        within_capacity(slots.update(i, WorkerSlot::fresh(request))),
        within_capacity(slots.map_values(|s: WorkerSlot| WorkerSlot::fresh(s.capacity))),
{
}

/// Returning what was charged restores the slots exactly.
pub proof fn law_charge_then_refund_restores(slots: Seq<WorkerSlot>, i: int, request: Resources)
    requires
        0 <= i < slots.len(),
        slots[i].admits(request),
    ensures
        refund(charge(slots, i, request), i, request) == slots,
{
    crate::domain::resource::law_add_then_sub_round_trips(slots[i].allocated, request);
    assert(refund(charge(slots, i, request), i, request) =~= slots);
}

/// On a slot within its capacity, fitting the spare capacity and being
/// chargeable are the same thing, so first fit always allocates.
pub proof fn law_first_fit_allocates(
    slots: Seq<WorkerSlot>,
    request: Resources,
    slot: Option<SlotIndex>,
)
    requires
        within_capacity(slots),
        is_first_fit(slots, request, slot),
    ensures
        slot matches Some(s) ==> slots[s as int].admits(request),
        slot is None ==> forall|i: int|
            0 <= i < slots.len() ==> !(#[trigger] slots[i]).admits(request),
{
    assert forall|i: int| 0 <= i < slots.len() implies fits_slot(slots, i, request)
        == (#[trigger] slots[i]).admits(request) by {
        assert(slots[i].within());
    }
}

/// What fits a slot right now could fit it empty.
pub proof fn law_fitting_now_implies_fitting_ever(slots: Seq<WorkerSlot>, i: int, request: Resources)
    requires
        0 <= i < slots.len(),
        fits_slot(slots, i, request),
    ensures
        request.le(slots[i].capacity),
{
}

/// A request fits a slot when, in every dimension, it wants nothing or no more than
/// what the slot declares beyond what is allocated there.
pub proof fn law_fitting_means_room_in_every_dimension(
    slots: Seq<WorkerSlot>,
    i: int,
    request: Resources,
)
    ensures
        ({
            let (all, used) = (slots[i].capacity, slots[i].allocated);
            fits_slot(slots, i, request) <==> {
                &&& request.cpu_millis == 0 || used.cpu_millis + request.cpu_millis
                    <= all.cpu_millis
                &&& request.mem_bytes == 0 || used.mem_bytes + request.mem_bytes <= all.mem_bytes
                &&& request.gpus == 0 || used.gpus + request.gpus <= all.gpus
            }
        }),
        ({
            let (all, used) = (slots[i].capacity, slots[i].allocated);
            slots[i].admits(request) <==> {
                &&& used.cpu_millis + request.cpu_millis <= all.cpu_millis
                &&& used.mem_bytes + request.mem_bytes <= all.mem_bytes
                &&& used.gpus + request.gpus <= all.gpus
            }
        }),
{
}

/// First fit is the lowest slot that has room, and there is none only where no slot
/// has.
pub proof fn law_first_fit_is_the_lowest_with_room(slots: Seq<WorkerSlot>, request: Resources)
    requires
        slots.len() <= SLOT_SPACE,
    ensures
        match first_fit_of(slots, request) {
            Some(s) => {
                &&& s < slots.len()
                &&& fits_slot(slots, s as int, request)
                &&& forall|i: int| 0 <= i < slots.len() && #[trigger] fits_slot(slots, i, request) ==> s <= i
            },
            None => forall|i: int| 0 <= i < slots.len() ==> !#[trigger] fits_slot(slots, i, request),
        },
        forall|slot: Option<SlotIndex>| #[trigger]
            is_first_fit(slots, request, slot) ==> slot == first_fit_of(slots, request),
{
    lemma_first_fit_exists(slots, request);
    assert forall|slot: Option<SlotIndex>| #[trigger]
        is_first_fit(slots, request, slot) implies slot == first_fit_of(slots, request) by {
        lemma_first_fit_unique(slots, request, slot);
    }
}

/// Charging a slot adds the request to what is allocated there, in every dimension,
/// and returning it takes it off; capacities and the other slots stay as they are.
pub proof fn law_charging_and_returning_move_allocation(
    slots: Seq<WorkerSlot>,
    i: int,
    request: Resources,
)
    requires
        0 <= i < slots.len(),
    ensures
        ({
            let (was, up, down) = (
                slots[i],
                charge(slots, i, request),
                refund(slots, i, request),
            );
            &&& up.len() == slots.len() && down.len() == slots.len()
            &&& forall|j: int|
                0 <= j < slots.len() && j != i ==> #[trigger] up[j] == slots[j]
            &&& forall|j: int|
                0 <= j < slots.len() && j != i ==> #[trigger] down[j] == slots[j]
            &&& up[i].capacity == was.capacity && down[i].capacity == was.capacity
            &&& was.admits(request) ==> {
                &&& up[i].allocated.cpu_millis == was.allocated.cpu_millis + request.cpu_millis
                &&& up[i].allocated.mem_bytes == was.allocated.mem_bytes + request.mem_bytes
                &&& up[i].allocated.gpus == was.allocated.gpus + request.gpus
            }
            &&& request.le(was.allocated) ==> {
                &&& down[i].allocated.cpu_millis == was.allocated.cpu_millis - request.cpu_millis
                &&& down[i].allocated.mem_bytes == was.allocated.mem_bytes - request.mem_bytes
                &&& down[i].allocated.gpus == was.allocated.gpus - request.gpus
            }
        }),
{
}

/// Spare capacity is what is declared and not allocated, in every dimension; the total
/// adds up over the slots.
pub proof fn law_spare_capacity_adds_up(slots: Seq<WorkerSlot>, n: int)
    requires
        0 <= n < slots.len(),
    ensures
        ({
            let (all, used, spare) = (slots[n].capacity, slots[n].allocated, slots[n].spare());
            &&& spare.cpu_millis == (if used.cpu_millis <= all.cpu_millis {
                all.cpu_millis - used.cpu_millis
            } else {
                0
            })
            &&& spare.mem_bytes == (if used.mem_bytes <= all.mem_bytes {
                all.mem_bytes - used.mem_bytes
            } else {
                0
            })
            &&& spare.gpus == (if used.gpus <= all.gpus {
                all.gpus - used.gpus
            } else {
                0
            })
            &&& spare_sum(slots, n + 1) == spare_sum(slots, n).plus(spare)
            &&& spare_sum(slots, 0) == (Resources { cpu_millis: 0, mem_bytes: 0, gpus: 0 })
        }),
{
}

/// A new slot takes the place of the lowest slot without capacity, or goes behind the
/// last.
pub proof fn law_vacancy_is_the_lowest_empty_slot(slots: Seq<WorkerSlot>, i: int)
    requires
        is_vacancy(slots, i),
    ensures
        0 <= i <= slots.len(),
        i < slots.len() ==> slots[i].capacity.cpu_millis == 0 && slots[i].capacity.mem_bytes == 0
            && slots[i].capacity.gpus == 0,
        forall|j: int|
            0 <= j < slots.len() && (#[trigger] slots[j]).capacity.cpu_millis == 0
                && slots[j].capacity.mem_bytes == 0 && slots[j].capacity.gpus == 0 ==> i <= j,
{
    assert forall|j: int|
        0 <= j < slots.len() && (#[trigger] slots[j]).capacity.cpu_millis == 0
            && slots[j].capacity.mem_bytes == 0 && slots[j].capacity.gpus == 0 implies i <= j by {
        if j < i {
            assert(slots[j].capacity == Resources::nothing());
        }
    }
}

} // verus!

//! Generational arena: slot storage whose handles go stale when a slot is reused.
use vstd::prelude::*;

verus! {

/// One past the largest slot index a handle can carry.
pub const INDEX_SPACE: u64 = 0x1_0000_0000;

/// Handle to an arena slot: 32-bit index low, 32-bit generation high.
/// Stale after the slot is reused; `Arena::get` then returns `None`.
#[derive(Clone, Copy, PartialEq, Eq, PartialOrd, Ord, Hash, Debug, Structural)]
pub struct JobId(u64);

impl View for JobId {
    type V = u64;

    closed spec fn view(&self) -> u64 {
        self.0
    }
}

impl JobId {
    /// The slot index: the low word.
    pub open spec fn idx(self) -> u32 {
        (self@ % INDEX_SPACE) as u32
    }

    /// The generation: the high word.
    pub open spec fn era(self) -> u32 {
        (self@ / INDEX_SPACE) as u32
    }

    /// The handle whose packed form is `bits`.
    pub closed spec fn of_bits(bits: u64) -> JobId {
        JobId(bits)
    }

    /// The handle with this index and generation.
    pub open spec fn pack(index: u32, generation: u32) -> JobId {
        JobId::of_bits((generation * INDEX_SPACE + index) as u64)
    }

    /// Packs an index and generation. Crate-private: only `Arena` issues handles.
    #[must_use]
    pub(crate) fn new(index: u32, generation: u32) -> (id: Self)
        ensures
            id == JobId::pack(index, generation),
    {
        JobId(generation as u64 * INDEX_SPACE + index as u64)
    }

    /// The slot index.
    #[must_use]
    pub fn index(self) -> (index: u32)
        ensures
            index == self.idx(),
    {
        (self.0 % INDEX_SPACE) as u32
    }

    /// The generation this handle was issued at.
    #[must_use]
    pub fn generation(self) -> (generation: u32)
        ensures
            generation == self.era(),
    {
        (self.0 / INDEX_SPACE) as u32
    }

    /// The packed `u64`, for serialization.
    #[must_use]
    pub fn to_bits(self) -> (bits: u64)
        ensures
            bits == self@,
    {
        self.0
    }

    /// Rebuilds a handle from `to_bits`.
    #[must_use]
    pub fn from_bits(bits: u64) -> (id: Self)
        ensures
            id == JobId::of_bits(bits),
    {
        JobId(bits)
    }
}

/// The packed form determines the handle, and every `u64` is one.
pub broadcast proof fn law_bits_round_trip(bits: u64)
    ensures
        (#[trigger] JobId::of_bits(bits))@ == bits,
{
}

/// Handles with equal packed forms are equal.
pub broadcast proof fn law_bits_determine_handle(id: JobId)
    ensures
        JobId::of_bits(#[trigger] id@) == id,
{
}

/// Packing an index and a generation and reading them back gives both.
pub broadcast proof fn law_pack_round_trips(index: u32, generation: u32)
    ensures
        (#[trigger] JobId::pack(index, generation)).idx() == index,
        JobId::pack(index, generation).era() == generation,
{
    broadcast use law_bits_round_trip;

}

/// A handle is determined by its index and generation.
pub proof fn law_parts_determine_handle(id: JobId)
    ensures
        JobId::pack(id.idx(), id.era()) == id,
{
    broadcast use law_bits_determine_handle;

    assert(id.era() * INDEX_SPACE + id.idx() == id@);
}

pub broadcast group group_job_id {
    law_bits_round_trip,
    law_bits_determine_handle,
    law_pack_round_trips,
}

/// A slot as a snapshot sees it: holding a value, or vacant and linked into
/// the free list.
#[derive(Clone, Copy, PartialEq, Eq, Debug)]
pub enum SlotState<T> {
    Occupied { generation: u32, value: T },
    Vacant { generation: u32, next_free: Option<u32> },
}

/// A snapshot does not describe a valid arena.
#[derive(Clone, Copy, PartialEq, Eq, Debug)]
pub enum ArenaRestoreError {
    /// The free list points at a slot which is out of range or occupied, or
    /// runs on past every vacant slot.
    BadFreeLink(u32),
    /// The free list ends before it has visited every vacant slot.
    FreeListIncomplete { reachable: usize, vacant: usize },
}

/// How many slots hold a value.
pub open spec fn occupied_count<T>(slots: Seq<SlotState<T>>) -> nat
    decreases slots.len(),
{
    if slots.len() == 0 {
        0
    } else {
        occupied_count(slots.drop_last()) + if slots.last() is Occupied {
            1nat
        } else {
            0nat
        }
    }
}

/// How many slots hold nothing.
pub open spec fn vacant_count<T>(slots: Seq<SlotState<T>>) -> int {
    slots.len() - occupied_count(slots)
}

/// True when `link` names a vacant slot.
pub open spec fn links_to_vacant<T>(slots: Seq<SlotState<T>>, link: Option<u32>) -> bool {
    link matches Some(i) && i < slots.len() && slots[i as int] is Vacant
}

/// The link `n` steps down the free list from `head`.
pub open spec fn free_link<T>(slots: Seq<SlotState<T>>, head: Option<u32>, n: nat) -> Option<u32>
    decreases n,
{
    if n == 0 {
        head
    } else {
        let previous = free_link(slots, head, (n - 1) as nat);
        if links_to_vacant(slots, previous) {
            slots[previous->0 as int]->next_free
        } else {
            None
        }
    }
}

/// The first `n` links from `head` all name vacant slots.
pub open spec fn walks<T>(slots: Seq<SlotState<T>>, head: Option<u32>, n: nat) -> bool {
    forall|k: nat| k < n ==> links_to_vacant(slots, #[trigger] free_link(slots, head, k))
}

/// The free list from `head` visits as many vacant slots as there are, then ends.
pub open spec fn free_list_complete<T>(slots: Seq<SlotState<T>>, head: Option<u32>) -> bool {
    &&& walks(slots, head, vacant_count(slots) as nat)
    &&& free_link(slots, head, vacant_count(slots) as nat) is None
}

/// The free list breaks at `bad`: every earlier link is sound, and `bad` itself
/// either names no vacant slot or comes after all of them were visited.
pub open spec fn free_list_breaks_at<T>(
    slots: Seq<SlotState<T>>,
    head: Option<u32>,
    bad: u32,
) -> bool {
    exists|n: nat|
        {
            &&& #[trigger] free_link(slots, head, n) == Some(bad)
            &&& n <= vacant_count(slots)
            &&& walks(slots, head, n)
            &&& n == vacant_count(slots) || !links_to_vacant(slots, Some(bad))
        }
}

/// The free list ends after `reachable` vacant slots, short of all of them.
pub open spec fn free_list_short<T>(
    slots: Seq<SlotState<T>>,
    head: Option<u32>,
    reachable: nat,
) -> bool {
    &&& reachable < vacant_count(slots)
    &&& walks(slots, head, reachable)
    &&& free_link(slots, head, reachable) is None
}

/// True when `id` names an occupied slot at that slot's current generation.
pub open spec fn is_live<T>(slots: Seq<SlotState<T>>, id: JobId) -> bool {
    &&& id.idx() < slots.len()
    &&& slots[id.idx() as int] matches SlotState::Occupied { generation, .. } && generation
        == id.era()
}

/// The values behind live handles.
pub open spec fn live_entries<T>(slots: Seq<SlotState<T>>) -> Map<JobId, T> {
    Map::new(|id: JobId| is_live(slots, id), |id: JobId| slots[id.idx() as int]->value)
}

/// The slots differ at most in the values they hold: the same slots are vacant,
/// linked the same way, and every generation is the same.
pub open spec fn same_layout<T>(a: Seq<SlotState<T>>, b: Seq<SlotState<T>>) -> bool {
    &&& a.len() == b.len()
    &&& forall|i: int|
        0 <= i < a.len() ==> match (#[trigger] a[i], b[i]) {
            (
                SlotState::Occupied { generation: x, .. },
                SlotState::Occupied { generation: y, .. },
            ) => x == y,
            (x, y) => x == y,
        }
}

/// Layouts that are the same as a third are the same as each other.
pub proof fn lemma_same_layout_chains<T>(
    a: Seq<SlotState<T>>,
    b: Seq<SlotState<T>>,
    c: Seq<SlotState<T>>,
)
    requires
        same_layout(a, b),
        same_layout(b, c),
    ensures
        same_layout(a, c),
{
    assert forall|i: int| 0 <= i < a.len() implies match (#[trigger] a[i], c[i]) {
        (
            SlotState::Occupied { generation: x, .. },
            SlotState::Occupied { generation: y, .. },
        ) => x == y,
        (x, y) => x == y,
    } by {
        assert(a[i] == a[i] && b[i] == b[i]);
    }
}

proof fn lemma_count_bounds<T>(slots: Seq<SlotState<T>>)
    ensures
        occupied_count(slots) <= slots.len(),
    decreases slots.len(),
{
    if slots.len() > 0 {
        lemma_count_bounds(slots.drop_last());
    }
}

proof fn lemma_count_update<T>(slots: Seq<SlotState<T>>, i: int, slot: SlotState<T>)
    requires
        0 <= i < slots.len(),
    ensures
        occupied_count(slots.update(i, slot)) == occupied_count(slots) + (if slot is Occupied {
            1int
        } else {
            0int
        }) - (if slots[i] is Occupied {
            1int
        } else {
            0int
        }),
    decreases slots.len(),
{
    if i == slots.len() - 1 {
        assert(slots.update(i, slot).drop_last() =~= slots.drop_last());
    } else {
        assert(slots.update(i, slot).drop_last() =~= slots.drop_last().update(i, slot));
        lemma_count_update(slots.drop_last(), i, slot);
    }
}

proof fn lemma_count_push<T>(slots: Seq<SlotState<T>>, slot: SlotState<T>)
    ensures
        occupied_count(slots.push(slot)) == occupied_count(slots) + (if slot is Occupied {
            1int
        } else {
            0int
        }),
{
    assert(slots.push(slot).drop_last() =~= slots);
}

/// Following the list from equal links gives equal links.
proof fn lemma_links_run_parallel<T>(
    slots: Seq<SlotState<T>>,
    head: Option<u32>,
    i: nat,
    j: nat,
    m: nat,
)
    requires
        free_link(slots, head, i) == free_link(slots, head, j),
    ensures
        free_link(slots, head, i + m) == free_link(slots, head, j + m),
    decreases m,
{
    if m > 0 {
        lemma_links_run_parallel(slots, head, i, j, (m - 1) as nat);
    }
}

/// A complete free list visits no slot twice.
proof fn lemma_free_list_distinct<T>(slots: Seq<SlotState<T>>, head: Option<u32>, i: nat, j: nat)
    requires
        free_list_complete(slots, head),
        i < j < vacant_count(slots),
    ensures
        free_link(slots, head, i) != free_link(slots, head, j),
{
    if free_link(slots, head, i) == free_link(slots, head, j) {
        let v = vacant_count(slots) as nat;
        let m = (v - j) as nat;
        lemma_links_run_parallel(slots, head, i, j, m);
        assert(links_to_vacant(slots, free_link(slots, head, (i + m) as nat)));
    }
}

/// Taking the head off a complete list leaves the rest complete.
proof fn lemma_free_list_pop<T>(slots: Seq<SlotState<T>>, head: u32, slot: SlotState<T>)
    requires
        free_list_complete(slots, Some(head)),
        slot is Occupied,
    ensures
        head < slots.len(),
        slots[head as int] is Vacant,
        free_list_complete(slots.update(head as int, slot), slots[head as int]->next_free),
{
    let start = Some(head);
    let v = vacant_count(slots) as nat;
    lemma_count_bounds(slots);
    assert(free_link(slots, start, 0) == start);
    assert(links_to_vacant(slots, free_link(slots, start, 0)));
    let after = slots.update(head as int, slot);
    let rest = slots[head as int]->next_free;
    lemma_count_update(slots, head as int, slot);
    assert forall|k: nat| k < v implies #[trigger] free_link(after, rest, k) == free_link(
        slots,
        start,
        k + 1,
    ) by {
        lemma_pop_links(slots, head, slot, k);
    }
    assert forall|k: nat| k < v - 1 implies links_to_vacant(
        after,
        #[trigger] free_link(after, rest, k),
    ) by {
        lemma_free_list_distinct(slots, start, 0, k + 1);
        assert(links_to_vacant(slots, free_link(slots, start, k + 1)));
    }
    assert(free_link(after, rest, (v - 1) as nat) == free_link(slots, start, v));
}

proof fn lemma_pop_links<T>(slots: Seq<SlotState<T>>, head: u32, slot: SlotState<T>, k: nat)
    requires
        free_list_complete(slots, Some(head)),
        head < slots.len(),
        slots[head as int] is Vacant,
        slot is Occupied,
        k < vacant_count(slots),
    ensures
        free_link(slots.update(head as int, slot), slots[head as int]->next_free, k) == free_link(
            slots,
            Some(head),
            k + 1,
        ),
    decreases k,
{
    let start = Some(head);
    assert(free_link(slots, start, 0) == start);
    if k == 0 {
        assert(free_link(slots, start, 1) == slots[head as int]->next_free) by {
            reveal_with_fuel(free_link, 2);
        }
    } else {
        lemma_pop_links(slots, head, slot, (k - 1) as nat);
        assert(links_to_vacant(slots, free_link(slots, start, k)));
        lemma_free_list_distinct(slots, start, 0, k);
    }
}

/// Vacating an occupied slot and linking it in front keeps the list complete.
proof fn lemma_free_list_push<T>(
    slots: Seq<SlotState<T>>,
    head: Option<u32>,
    index: u32,
    generation: u32,
)
    requires
        free_list_complete(slots, head),
        index < slots.len(),
        slots[index as int] is Occupied,
    ensures
        free_list_complete(
            slots.update(index as int, SlotState::Vacant { generation, next_free: head }),
            Some(index),
        ),
{
    let v = vacant_count(slots) as nat;
    lemma_count_bounds(slots);
    let slot = SlotState::<T>::Vacant { generation, next_free: head };
    let after = slots.update(index as int, slot);
    lemma_count_update(slots, index as int, slot);
    assert forall|k: nat| k <= v implies #[trigger] free_link(after, Some(index), k + 1)
        == free_link(slots, head, k) by {
        lemma_push_links(slots, head, index, generation, k);
    }
    assert forall|k: nat| k < v + 1 implies links_to_vacant(
        after,
        #[trigger] free_link(after, Some(index), k),
    ) by {
        if k > 0 {
            let p = (k - 1) as nat;
            assert(free_link(after, Some(index), p + 1) == free_link(slots, head, p));
            assert(links_to_vacant(slots, free_link(slots, head, p)));
        }
    }
    assert(free_link(after, Some(index), (v + 1) as nat) == free_link(slots, head, v));
}

proof fn lemma_push_links<T>(
    slots: Seq<SlotState<T>>,
    head: Option<u32>,
    index: u32,
    generation: u32,
    k: nat,
)
    requires
        free_list_complete(slots, head),
        index < slots.len(),
        slots[index as int] is Occupied,
        k <= vacant_count(slots),
    ensures
        free_link(
            slots.update(index as int, SlotState::Vacant { generation, next_free: head }),
            Some(index),
            k + 1,
        ) == free_link(slots, head, k),
    decreases k,
{
    let after = slots.update(index as int, SlotState::Vacant { generation, next_free: head });
    if k == 0 {
        reveal_with_fuel(free_link, 2);
    } else {
        lemma_push_links(slots, head, index, generation, (k - 1) as nat);
        assert(links_to_vacant(slots, free_link(slots, head, (k - 1) as nat)));
    }
}

/// Rewriting an occupied slot to another occupied slot leaves the list alone.
proof fn lemma_free_list_kept<T>(
    slots: Seq<SlotState<T>>,
    head: Option<u32>,
    index: int,
    slot: SlotState<T>,
)
    requires
        free_list_complete(slots, head),
        0 <= index < slots.len(),
        slots[index] is Occupied,
        slot is Occupied,
    ensures
        free_list_complete(slots.update(index, slot), head),
{
    let after = slots.update(index, slot);
    lemma_count_update(slots, index, slot);
    assert forall|k: nat| k <= vacant_count(slots) implies #[trigger] free_link(after, head, k)
        == free_link(slots, head, k) by {
        lemma_kept_links(slots, head, index, slot, k);
    }
    assert forall|k: nat| k < vacant_count(slots) implies links_to_vacant(
        after,
        #[trigger] free_link(after, head, k),
    ) by {
        assert(links_to_vacant(slots, free_link(slots, head, k)));
    }
    lemma_count_bounds(slots);
    let v = vacant_count(slots) as nat;
    assert(free_link(after, head, v) == free_link(slots, head, v));
}

proof fn lemma_kept_links<T>(
    slots: Seq<SlotState<T>>,
    head: Option<u32>,
    index: int,
    slot: SlotState<T>,
    k: nat,
)
    requires
        free_list_complete(slots, head),
        0 <= index < slots.len(),
        slots[index] is Occupied,
        slot is Occupied,
        k <= vacant_count(slots),
    ensures
        free_link(slots.update(index, slot), head, k) == free_link(slots, head, k),
    decreases k,
{
    if k > 0 {
        lemma_kept_links(slots, head, index, slot, (k - 1) as nat);
        assert(links_to_vacant(slots, free_link(slots, head, (k - 1) as nat)));
    }
}

/// `Vec`-backed storage that reuses freed slots through an intrusive free list.
#[derive(Debug)]
pub struct Arena<T> {
    slots: Vec<SlotState<T>>,
    free_head: Option<u32>,
    len: usize,
}

impl<T> View for Arena<T> {
    type V = Map<JobId, T>;

    open spec fn view(&self) -> Map<JobId, T> {
        live_entries(self.states())
    }
}

impl<T> Arena<T> {
    /// Every slot in index order.
    pub closed spec fn states(&self) -> Seq<SlotState<T>> {
        self.slots@
    }

    /// The first link of the free list.
    pub closed spec fn head(&self) -> Option<u32> {
        self.free_head
    }

    /// The free list reaches exactly the vacant slots, and the live count is kept.
    pub closed spec fn wf(&self) -> bool {
        &&& free_list_complete(self.slots@, self.free_head)
        &&& self.len == occupied_count(self.slots@)
    }

    /// True when `insert` has somewhere to put a value: a vacant slot, or an
    /// index that no slot has yet and a handle can still carry.
    pub open spec fn has_room(&self) -> bool {
        self.head() is None ==> self.states().len() < INDEX_SPACE
    }

    /// The handle the next insertion is going to issue.
    pub open spec fn next_handle(&self) -> JobId {
        match self.head() {
            Some(i) => JobId::pack(i, self.states()[i as int]->Vacant_generation),
            None => JobId::pack(self.states().len() as u32, 0),
        }
    }

    /// A live handle names a slot of the arena, and no two of them name the same.
    pub proof fn lemma_live_handles(&self)
        ensures
            forall|id: JobId| #[trigger] self@.contains_key(id) ==> id.idx() < self.states().len(),
            forall|a: JobId, b: JobId|
                #[trigger] self@.contains_key(a) && #[trigger] self@.contains_key(b) && a.idx()
                    == b.idx() ==> a == b,
    {
        assert forall|a: JobId, b: JobId|
            #[trigger] self@.contains_key(a) && #[trigger] self@.contains_key(b) && a.idx()
                == b.idx() implies a == b by {
            law_parts_determine_handle(a);
            law_parts_determine_handle(b);
        }
    }

    /// The next handle names a slot that no live handle names.
    pub proof fn lemma_next_index_is_free(&self)
        requires
            self.wf(),
            self.has_room(),
        ensures
            forall|id: JobId| #[trigger]
                self@.contains_key(id) ==> id.idx() != self.next_handle().idx(),
    {
        broadcast use group_job_id;

        if self.free_head is Some {
            self.lemma_head_is_vacant();
        }
    }

    /// An arena's own slots and free list pass restoration, and they are all there
    /// is to it: an arena restored from them has the same entries and issues the
    /// same handles.
    pub proof fn law_snapshot_restores(&self, restored: Arena<T>)
        requires
            self.wf(),
            restored.states() == self.states(),
            restored.head() == self.head(),
        ensures
            free_list_complete(self.states(), self.head()),
            restored@ == self@,
            restored.next_handle() == self.next_handle(),
    {
    }

    /// A removed handle finds nothing, and the slot's next value goes by another
    /// handle, under which the removed one still finds nothing. Until the slot's
    /// generation wraps it stays so: `law_outdated_handles_never_resolve`.
    pub proof fn law_removed_handle_stays_stale(&self, after: Arena<T>, id: JobId, value: T)
        requires
            self@.contains_key(id),
            after.states() == self.states().update(
                id.idx() as int,
                SlotState::Vacant {
                    generation: next_generation(id.era()),
                    next_free: self.head(),
                },
            ),
            after.head() == Some(id.idx()),
        ensures
            !after@.contains_key(id),
            after.next_handle().idx() == id.idx(),
            after.next_handle() != id,
            !after@.insert(after.next_handle(), value).contains_key(id),
    {
        broadcast use group_job_id;

    }

    /// Walking the slots lists the live entries: a handle is listed exactly when it
    /// is live, beside its value; indices rise along the list; and there are as many
    /// entries as `len` counts.
    pub proof fn law_iter_lists_the_live_entries(&self, out: Seq<(JobId, &T)>)
        requires
            self.states().len() <= INDEX_SPACE,
            entries_up_to(self.states(), self.states().len() as int, out),
        ensures
            forall|id: JobId| #[trigger] self@.contains_key(id) <==> is_listed(out, id),
            forall|k: int|
                0 <= k < out.len() ==> self@.contains_key((#[trigger] out[k]).0)
                    && self@[out[k].0] == *out[k].1,
            forall|a: int, b: int|
                0 <= a < b < out.len() ==> (#[trigger] out[a]).0.idx() < (#[trigger] out[b]).0.idx(),
            out.len() == occupied_count(self.states()),
            self@.dom().finite(),
            out.len() == self@.dom().len(),
            lists_entries(out, self@),
    {
        let slots = self.states();
        let entries = occupied_entries(slots, slots.len() as int);
        lemma_occupied_entries(slots, slots.len() as int);
        lemma_live_count(slots);
        assert(slots.take(slots.len() as int) =~= slots);
        assert forall|id: JobId| #[trigger] self@.contains_key(id) implies is_listed(out, id) by {
            let k = choose|k: int| 0 <= k < entries.len() && (#[trigger] entries[k]).0 == id;
            assert(out[k].0 == id);
        }
    }

    /// An empty arena. Allocates nothing until the first insert.
    #[must_use]
    pub fn new() -> (arena: Self)
        ensures
            arena.wf(),
            arena.states() == Seq::<SlotState<T>>::empty(),
            arena.head() is None,
            arena@ == Map::<JobId, T>::empty(),
    {
        let arena = Arena { slots: Vec::new(), free_head: None, len: 0 };
        assert(arena@ =~= Map::<JobId, T>::empty());
        arena
    }

    /// An empty arena with room for `capacity` slots, allocated once up front.
    #[must_use]
    pub fn with_capacity(capacity: usize) -> (arena: Self)
        ensures
            arena.wf(),
            arena.states() == Seq::<SlotState<T>>::empty(),
            arena.head() is None,
            arena@ == Map::<JobId, T>::empty(),
    {
        let arena = Arena { slots: Vec::with_capacity(capacity), free_head: None, len: 0 };
        assert(arena@ =~= Map::<JobId, T>::empty());
        arena
    }

    /// Number of live entries.
    #[must_use]
    pub fn len(&self) -> (len: usize)
        requires
            self.wf(),
        ensures
            len == occupied_count(self.states()),
            self.states().len() <= INDEX_SPACE ==> self@.dom().finite() && len == self@.dom().len(),
    {
        proof {
            if self.slots@.len() <= INDEX_SPACE {
                lemma_live_count(self.slots@);
            }
        }
        self.len
    }

    /// True when nothing is live.
    #[must_use]
    pub fn is_empty(&self) -> (empty: bool)
        requires
            self.wf(),
        ensures
            empty == (occupied_count(self.states()) == 0),
            self.states().len() <= INDEX_SPACE ==> empty == (self@ == Map::<JobId, T>::empty()),
    {
        proof {
            if self.slots@.len() <= INDEX_SPACE {
                lemma_live_count(self.slots@);
                if self@.dom().len() == 0 {
                    assert(self@ =~= Map::<JobId, T>::empty());
                }
            }
        }
        self.len == 0
    }

    /// Slots ever allocated, live or vacant. Sizes side tables keyed by `JobId::index`.
    #[must_use]
    pub fn capacity_slots(&self) -> (count: usize)
        ensures
            count == self.states().len(),
    {
        self.slots.len()
    }

    /// The handle the next `insert` will return. Lets a caller validate and
    /// log a value before it enters the arena.
    #[must_use]
    pub fn next_id(&self) -> (id: JobId)
        requires
            self.wf(),
            self.has_room(),
        ensures
            id == self.next_handle(),
            !self@.contains_key(id),
    {
        proof {
            self.lemma_next_handle_is_fresh();
        }
        if let Some(index) = self.free_head {
            proof {
                self.lemma_head_is_vacant();
            }
            match &self.slots[index as usize] {
                SlotState::Vacant { generation, .. } => JobId::new(index, *generation),
                SlotState::Occupied { generation, .. } => JobId::new(index, *generation),
            }
        } else {
            JobId::new(self.slots.len() as u32, 0)
        }
    }

    proof fn lemma_head_is_vacant(&self)
        requires
            self.wf(),
            self.free_head is Some,
        ensures
            links_to_vacant(self.slots@, self.free_head),
    {
        let v = vacant_count(self.slots@) as nat;
        lemma_count_bounds(self.slots@);
        assert(free_link(self.slots@, self.free_head, 0) == self.free_head);
        if v == 0 {
            assert(free_link(self.slots@, self.free_head, v) is None);
        }
    }

    proof fn lemma_next_handle_is_fresh(&self)
        requires
            self.wf(),
            self.has_room(),
        ensures
            !self@.contains_key(self.next_handle()),
    {
        broadcast use group_job_id;

        if self.free_head is Some {
            self.lemma_head_is_vacant();
        }
    }

    /// Head of the free list, for snapshots.
    #[must_use]
    pub fn free_head(&self) -> (head: Option<u32>)
        ensures
            head == self.head(),
    {
        self.free_head
    }

    /// Every slot in index order, borrowed, for snapshots.
    pub fn slots(&self) -> (out: Vec<SlotState<&T>>)
        ensures
            out@.len() == self.states().len(),
            forall|i: int|
                0 <= i < out@.len() ==> #[trigger] out@[i] == (match self.states()[i] {
                    SlotState::Occupied { generation, value } => SlotState::Occupied {
                        generation,
                        value: &value,
                    },
                    SlotState::Vacant { generation, next_free } => SlotState::Vacant {
                        generation,
                        next_free,
                    },
                }),
    {
        let mut out: Vec<SlotState<&T>> = Vec::with_capacity(self.slots.len());
        let mut i: usize = 0;
        while i < self.slots.len()
            invariant
                i <= self.slots@.len(),
                out@.len() == i,
                forall|j: int|
                    0 <= j < i ==> #[trigger] out@[j] == (match self.slots@[j] {
                        SlotState::Occupied { generation, value } => SlotState::Occupied {
                            generation,
                            value: &value,
                        },
                        SlotState::Vacant { generation, next_free } => SlotState::Vacant {
                            generation,
                            next_free,
                        },
                    }),
            decreases self.slots@.len() - i,
        {
            out.push(
                match &self.slots[i] {
                    SlotState::Occupied { generation, value } => SlotState::Occupied {
                        generation: *generation,
                        value,
                    },
                    SlotState::Vacant { generation, next_free } => SlotState::Vacant {
                        generation: *generation,
                        next_free: *next_free,
                    },
                },
            );
            i += 1;
        }
        out
    }

    /// Rebuilds an arena exactly as `slots` and `free_head` describe it, so
    /// later inserts yield the ids the captured arena would have.
    ///
    /// # Errors
    /// `ArenaRestoreError` when the free list is broken or misses a vacant slot.
    pub fn from_parts(slots: Vec<SlotState<T>>, free_head: Option<u32>) -> (restored: Result<
        Self,
        ArenaRestoreError,
    >)
        ensures
            restored is Ok <==> free_list_complete(slots@, free_head),
            restored matches Ok(arena) ==> {
                &&& arena.wf()
                &&& arena.states() == slots@
                &&& arena.head() == free_head
            },
            restored matches Err(ArenaRestoreError::BadFreeLink(bad)) ==> free_list_breaks_at(
                slots@,
                free_head,
                bad,
            ),
            restored matches Err(ArenaRestoreError::FreeListIncomplete { reachable, vacant }) ==> {
                &&& free_list_short(slots@, free_head, reachable as nat)
                &&& vacant == vacant_count(slots@)
            },
    {
        let mut vacant: usize = 0;
        let mut i: usize = 0;
        while i < slots.len()
            invariant
                i <= slots@.len(),
                vacant == vacant_count(slots@.take(i as int)),
                vacant <= i,
            decreases slots@.len() - i,
        {
            proof {
                assert(slots@.take(i + 1).drop_last() =~= slots@.take(i as int));
            }
            match &slots[i] {
                SlotState::Vacant { .. } => {
                    vacant += 1;
                },
                SlotState::Occupied { .. } => {},
            }
            i += 1;
        }
        proof {
            assert(slots@.take(slots@.len() as int) =~= slots@);
            lemma_count_bounds(slots@);
        }
        // Walk the free list once: every link must land on a vacant slot, and
        // the walk may not exceed the vacant count (that would be a cycle).
        let mut cursor = free_head;
        let mut reachable: usize = 0;
        while cursor.is_some()
            invariant
                cursor == free_link(slots@, free_head, reachable as nat),
                reachable <= vacant,
                vacant == vacant_count(slots@),
                walks(slots@, free_head, reachable as nat),
            decreases vacant - reachable,
        {
            let index: u32 = cursor.unwrap();
            if reachable >= vacant || index as usize >= slots.len() {
                proof {
                    assert(index as usize >= slots@.len() ==> index >= slots@.len());
                    lemma_walk_breaks(slots@, free_head, reachable as nat, index);
                }
                return Err(ArenaRestoreError::BadFreeLink(index));
            }
            match &slots[index as usize] {
                SlotState::Vacant { next_free, .. } => {
                    cursor = *next_free;
                    reachable += 1;
                },
                SlotState::Occupied { .. } => {
                    proof {
                        lemma_walk_breaks(slots@, free_head, reachable as nat, index);
                    }
                    return Err(ArenaRestoreError::BadFreeLink(index));
                },
            }
        }
        if reachable != vacant {
            proof {
                assert(!links_to_vacant(slots@, free_link(slots@, free_head, reachable as nat)));
            }
            return Err(ArenaRestoreError::FreeListIncomplete { reachable, vacant });
        }
        let len = slots.len() - vacant;
        Ok(Arena { slots, free_head, len })
    }

    /// Stores `value` and returns its handle.
    pub fn insert(&mut self, value: T) -> (id: JobId)
        requires
            old(self).wf(),
            old(self).has_room(),
        ensures
            final(self).wf(),
            id == old(self).next_handle(),
            !old(self)@.contains_key(id),
            final(self)@ == old(self)@.insert(id, value),
            final(self).states() == (match old(self).head() {
                Some(i) => old(self).states().update(
                    i as int,
                    SlotState::Occupied { generation: id.era(), value },
                ),
                None => old(self).states().push(SlotState::Occupied { generation: 0, value }),
            }),
            final(self).head() == (match old(self).head() {
                Some(i) => old(self).states()[i as int]->next_free,
                None => None,
            }),
    {
        broadcast use group_job_id;

        proof {
            self.lemma_next_handle_is_fresh();
            lemma_count_bounds(self.slots@);
        }
        let ghost before = self.slots@;
        if let Some(index) = self.free_head {
            proof {
                self.lemma_head_is_vacant();
            }
            let (generation, next_free): (u32, Option<u32>) = match &self.slots[index as usize] {
                SlotState::Vacant { generation, next_free } => (*generation, *next_free),
                SlotState::Occupied { generation, .. } => (*generation, None),
            };
            let ghost slot = SlotState::Occupied { generation, value };
            proof {
                lemma_free_list_pop(before, index, slot);
                lemma_count_update(before, index as int, slot);
                lemma_count_bounds(before.update(index as int, slot));
                assert(self.slots.len() == before.len());
            }
            // Pop the free list: its head becomes whatever this slot pointed at.
            self.free_head = next_free;
            self.slots[index as usize] = SlotState::Occupied { generation, value };
            self.len += 1;
            let id = JobId::new(index, generation);
            proof {
                lemma_live_insert(before, self.slots@, id, value);
            }
            id
        } else {
            let ghost slot = SlotState::Occupied { generation: 0, value };
            let index: u32 = self.slots.len() as u32;
            proof {
                lemma_count_push(before, slot);
                lemma_count_bounds(before.push(slot));
                assert(free_link(before, None::<u32>, 0) is None);
                assert(links_to_vacant(before, free_link(before, None::<u32>, 0)) ==> false);
                assert(vacant_count(before) == 0);
            }
            self.slots.push(SlotState::Occupied { generation: 0, value });
            // Nothing was vacant, so every slot is live now.
            self.len = self.slots.len();
            let id = JobId::new(index, 0);
            proof {
                lemma_live_insert(before, self.slots@, id, value);
            }
            id
        }
    }

    /// Borrows the value behind `id`, or `None` if `id` is stale.
    #[must_use]
    pub fn get(&self, id: JobId) -> (value: Option<&T>)
        ensures
            value == (if self@.contains_key(id) {
                Some(&self@[id])
            } else {
                None
            }),
    {
        if id.index() as usize >= self.slots.len() {
            return None;
        }
        match &self.slots[id.index() as usize] {
            SlotState::Occupied { generation, value } => if *generation == id.generation() {
                Some(value)
            } else {
                None
            },
            SlotState::Vacant { .. } => None,
        }
    }

    /// Mutably borrows the value behind `id`, or `None` if stale.
    #[must_use]
    pub fn get_mut(&mut self, id: JobId) -> (value: Option<&mut T>)
        requires
            old(self).wf(),
        ensures
            final(self).head() == old(self).head(),
            same_layout(old(self).states(), final(self).states()),
            value is Some <==> old(self)@.contains_key(id),
            match value {
                Some(value) => {
                    &&& *value == old(self)@[id]
                    &&& final(self)@ == old(self)@.insert(id, *final(value))
                    &&& final(self).states() == old(self).states().update(
                        id.idx() as int,
                        SlotState::Occupied { generation: id.era(), value: *final(value) },
                    )
                },
                None => *final(self) == *old(self),
            },
            final(self).wf(),
    {
        if !self.contains(id) {
            return None;
        }
        let index: usize = id.index() as usize;
        proof {
            lemma_rewrite_live(self.slots@, self.free_head, id);
        }
        match &mut self.slots[index] {
            SlotState::Occupied { value, .. } => Some(value),
            SlotState::Vacant { .. } => None,
        }
    }

    /// True when `id` is live.
    #[must_use]
    pub fn contains(&self, id: JobId) -> (live: bool)
        ensures
            live == self@.contains_key(id),
    {
        self.get(id).is_some()
    }

    /// Removes and returns the value behind `id`, bumping the slot's generation so
    /// every copy of `id` goes stale. `None` if already stale.
    pub fn remove(&mut self, id: JobId) -> (removed: Option<T>)
        requires
            old(self).wf(),
        ensures
            final(self).wf(),
            removed == (if old(self)@.contains_key(id) {
                Some(old(self)@[id])
            } else {
                None
            }),
            final(self)@ == old(self)@.remove(id),
            removed is None ==> *final(self) == *old(self),
            removed is Some ==> {
                &&& final(self).states() == old(self).states().update(
                    id.idx() as int,
                    SlotState::Vacant {
                        generation: next_generation(id.era()),
                        next_free: old(self).head(),
                    },
                )
                &&& final(self).head() == Some(id.idx())
            },
    {
        if !self.contains(id) {
            assert(self@.remove(id) =~= self@);
            return None;
        }
        let index: u32 = id.index();
        let ghost before = self.slots@;
        let generation: u32 = id.generation().wrapping_add(1);
        let mut slot = SlotState::Vacant { generation, next_free: self.free_head };
        proof {
            lemma_free_list_push(before, self.free_head, index, generation);
            lemma_count_update(before, index as int, slot);
            lemma_live_remove(before, id, slot);
        }
        std::mem::swap(&mut self.slots[index as usize], &mut slot);
        // Push this slot onto the free list.
        self.free_head = Some(index);
        self.len -= 1;
        match slot {
            SlotState::Occupied { value, .. } => Some(value),
            SlotState::Vacant { .. } => None,
        }
    }

    /// Every live entry, in slot order.
    pub fn iter(&self) -> (out: Vec<(JobId, &T)>)
        requires
            self.states().len() <= INDEX_SPACE,
        ensures
            entries_up_to(self.states(), self.states().len() as int, out@),
            lists_entries(out@, self@),
            out@.len() == occupied_count(self.states()),
    {
        let mut out: Vec<(JobId, &T)> = Vec::new();
        let mut i: usize = 0;
        while i < self.slots.len()
            invariant
                i <= self.slots@.len() <= INDEX_SPACE,
                entries_up_to(self.slots@, i as int, out@),
            decreases self.slots@.len() - i,
        {
            match &self.slots[i] {
                SlotState::Occupied { generation, value } => {
                    out.push((JobId::new(i as u32, *generation), value));
                },
                SlotState::Vacant { .. } => {},
            }
            i += 1;
        }
        proof {
            self.law_iter_lists_the_live_entries(out@);
        }
        out
    }
}

impl<T> Default for Arena<T> {
    fn default() -> (arena: Self)
        ensures
            arena.wf(),
            arena.states() == Seq::<SlotState<T>>::empty(),
            arena.head() is None,
            arena@ == Map::<JobId, T>::empty(),
    {
        Arena::new()
    }
}

/// The generation a slot moves to when its value leaves it.
pub open spec fn next_generation(generation: u32) -> u32 {
    if generation == u32::MAX {
        0
    } else {
        (generation + 1) as u32
    }
}

/// The handle and value of each occupied slot below `n`, in slot order.
pub open spec fn occupied_entries<T>(slots: Seq<SlotState<T>>, n: int) -> Seq<(JobId, T)>
    decreases n,
{
    if n <= 0 {
        Seq::empty()
    } else {
        let before = occupied_entries(slots, n - 1);
        match slots[n - 1] {
            SlotState::Occupied { generation, value } => before.push(
                (JobId::pack((n - 1) as u32, generation), value),
            ),
            SlotState::Vacant { .. } => before,
        }
    }
}

/// `out` borrows, one for one, the entries of the occupied slots below `n`.
pub open spec fn entries_up_to<T>(slots: Seq<SlotState<T>>, n: int, out: Seq<(JobId, &T)>) -> bool {
    &&& out.len() == occupied_entries(slots, n).len()
    &&& forall|k: int|
        0 <= k < out.len() ==> (#[trigger] out[k]).0 == occupied_entries(slots, n)[k].0
            && *out[k].1 == occupied_entries(slots, n)[k].1
}

/// `out` holds an entry under `id`.
pub open spec fn is_listed<T>(out: Seq<(JobId, &T)>, id: JobId) -> bool {
    exists|k: int| 0 <= k < out.len() && (#[trigger] out[k]).0 == id
}

/// `out` lists exactly the entries of `live`, each once, by rising index.
pub open spec fn lists_entries<T>(out: Seq<(JobId, &T)>, live: Map<JobId, T>) -> bool {
    &&& forall|id: JobId| #[trigger] live.contains_key(id) <==> is_listed(out, id)
    &&& forall|k: int| 0 <= k < out.len() ==> live[(#[trigger] out[k]).0] == *out[k].1
    &&& forall|a: int, b: int|
        0 <= a < b < out.len() ==> (#[trigger] out[a]).0.idx() < (#[trigger] out[b]).0.idx()
}

/// The entries of the occupied slots below `n` are live, rise in index, leave out
/// no live handle below `n`, and are as many as those slots.
proof fn lemma_occupied_entries<T>(slots: Seq<SlotState<T>>, n: int)
    requires
        0 <= n <= slots.len() <= INDEX_SPACE,
    ensures
        occupied_entries(slots, n).len() == occupied_count(slots.take(n)),
        forall|k: int|
            0 <= k < occupied_entries(slots, n).len() ==> {
                let (id, value) = #[trigger] occupied_entries(slots, n)[k];
                is_live(slots, id) && id.idx() < n && slots[id.idx() as int]->value == value
            },
        forall|a: int, b: int|
            0 <= a < b < occupied_entries(slots, n).len() ==> (#[trigger] occupied_entries(
                slots,
                n,
            )[a]).0.idx() < (#[trigger] occupied_entries(slots, n)[b]).0.idx(),
        forall|id: JobId| #[trigger]
            is_live(slots, id) && id.idx() < n ==> exists|k: int|
                0 <= k < occupied_entries(slots, n).len() && (#[trigger] occupied_entries(
                    slots,
                    n,
                )[k]).0 == id,
    decreases n,
{
    broadcast use group_job_id;

    if n > 0 {
        lemma_occupied_entries(slots, n - 1);
        let before = occupied_entries(slots, n - 1);
        let entries = occupied_entries(slots, n);
        assert(slots.take(n).drop_last() =~= slots.take(n - 1));
        assert forall|id: JobId| #[trigger] is_live(slots, id) && id.idx() < n implies exists|k: int|
            0 <= k < entries.len() && (#[trigger] entries[k]).0 == id by {
            if id.idx() < n - 1 {
                let k = choose|k: int| 0 <= k < before.len() && (#[trigger] before[k]).0 == id;
                assert(entries[k].0 == id);
            } else {
                law_parts_determine_handle(id);
                assert(entries.last().0 == id);
            }
        }
    }
}

/// A sound walk of `n` links to a link that cannot be followed breaks the list.
proof fn lemma_walk_breaks<T>(slots: Seq<SlotState<T>>, head: Option<u32>, n: nat, bad: u32)
    requires
        free_link(slots, head, n) == Some(bad),
        walks(slots, head, n),
        n <= vacant_count(slots),
        n == vacant_count(slots) || !links_to_vacant(slots, Some(bad)),
    ensures
        free_list_breaks_at(slots, head, bad),
        !free_list_complete(slots, head),
{
}

/// Setting the slot of `id` to hold `value` at its generation adds that entry.
proof fn lemma_live_insert<T>(
    before: Seq<SlotState<T>>,
    after: Seq<SlotState<T>>,
    id: JobId,
    value: T,
)
    requires
        id.idx() < after.len(),
        before.len() <= after.len() <= before.len() + 1,
        before.len() < after.len() ==> id.idx() == before.len(),
        after[id.idx() as int] == (SlotState::Occupied { generation: id.era(), value }),
        forall|i: int| 0 <= i < before.len() && i != id.idx() ==> after[i] == before[i],
        id.idx() < before.len() ==> before[id.idx() as int] is Vacant || is_live(before, id),
    ensures
        live_entries(after) == live_entries(before).insert(id, value),
{
    assert forall|other: JobId| is_live(after, other) == (other == id || is_live(before, other)) by {
        if other.idx() == id.idx() && other.era() == id.era() {
            law_parts_determine_handle(other);
            law_parts_determine_handle(id);
        }
    }
    assert(live_entries(after) =~= live_entries(before).insert(id, value));
}

/// Replacing the value behind a live handle changes that entry and nothing else.
proof fn lemma_rewrite_live<T>(slots: Seq<SlotState<T>>, head: Option<u32>, id: JobId)
    requires
        free_list_complete(slots, head),
        is_live(slots, id),
    ensures
        forall|v: T|
            #![trigger slots.update(
                id.idx() as int,
                SlotState::Occupied { generation: id.era(), value: v },
            )]
            {
                let after = slots.update(
                    id.idx() as int,
                    SlotState::Occupied { generation: id.era(), value: v },
                );
                &&& free_list_complete(after, head)
                &&& occupied_count(after) == occupied_count(slots)
                &&& live_entries(after) == live_entries(slots).insert(id, v)
            },
{
    assert forall|v: T|
        #![trigger slots.update(
            id.idx() as int,
            SlotState::Occupied { generation: id.era(), value: v },
        )]
        {
            let after = slots.update(
                id.idx() as int,
                SlotState::Occupied { generation: id.era(), value: v },
            );
            &&& free_list_complete(after, head)
            &&& occupied_count(after) == occupied_count(slots)
            &&& live_entries(after) == live_entries(slots).insert(id, v)
        } by {
        let slot = SlotState::Occupied { generation: id.era(), value: v };
        lemma_free_list_kept(slots, head, id.idx() as int, slot);
        lemma_count_update(slots, id.idx() as int, slot);
        lemma_live_insert(slots, slots.update(id.idx() as int, slot), id, v);
    }
}

/// Vacating the slot of a live handle removes exactly that entry.
proof fn lemma_live_remove<T>(before: Seq<SlotState<T>>, id: JobId, slot: SlotState<T>)
    requires
        is_live(before, id),
        slot is Vacant,
    ensures
        live_entries(before.update(id.idx() as int, slot)) == live_entries(before).remove(id),
{
    let after = before.update(id.idx() as int, slot);
    assert forall|other: JobId| is_live(after, other) == (other != id && is_live(before, other)) by {
        if other.idx() == id.idx() && other.era() == id.era() {
            law_parts_determine_handle(other);
            law_parts_determine_handle(id);
        }
    }
    assert(live_entries(after) =~= live_entries(before).remove(id));
}

/// While every slot can be named, the occupied slots are the live handles.
proof fn lemma_live_count<T>(slots: Seq<SlotState<T>>)
    requires
        slots.len() <= INDEX_SPACE,
    ensures
        live_entries(slots).dom().finite(),
        live_entries(slots).dom().len() == occupied_count(slots),
    decreases slots.len(),
{
    broadcast use group_job_id;

    if slots.len() == 0 {
        assert(live_entries(slots).dom() =~= Set::<JobId>::empty());
    } else {
        let rest = slots.drop_last();
        lemma_live_count(rest);
        match slots.last() {
            SlotState::Occupied { generation, value } => {
                let id = JobId::pack((slots.len() - 1) as u32, generation);
                lemma_live_insert(rest, slots, id, value);
                assert(!is_live(rest, id));
                assert(live_entries(slots).dom() =~= live_entries(rest).dom().insert(id));
            },
            SlotState::Vacant { .. } => {
                assert forall|id: JobId| is_live(slots, id) == is_live(rest, id) by {}
                assert(live_entries(slots).dom() =~= live_entries(rest).dom());
            },
        }
    }
}

/// The generation a slot is at, whether it holds a value or not.
pub open spec fn generation_at<T>(slots: Seq<SlotState<T>>, i: int) -> u32 {
    match slots[i] {
        SlotState::Occupied { generation, .. } => generation,
        SlotState::Vacant { generation, .. } => generation,
    }
}

/// `id` was issued for an earlier value of its slot.
pub open spec fn outdated<T>(slots: Seq<SlotState<T>>, id: JobId) -> bool {
    id.idx() < slots.len() && generation_at(slots, id.idx() as int) > id.era()
}

/// No slot is gone or at a lower generation than before.
pub open spec fn no_younger<T>(before: Seq<SlotState<T>>, after: Seq<SlotState<T>>) -> bool {
    &&& before.len() <= after.len()
    &&& forall|i: int|
        0 <= i < before.len() ==> #[trigger] generation_at(before, i) <= generation_at(after, i)
}

/// Inserting never lowers a generation, and removing does not unless the slot's
/// generation wraps around, which leaves every other slot's as it was; otherwise a
/// removed handle is outdated from then on.
pub proof fn law_generations_only_rise<T>(arena: Arena<T>, value: T, id: JobId)
    requires
        arena.wf(),
    ensures
        no_younger(
            arena.states(),
            match arena.head() {
                Some(i) => arena.states().update(
                    i as int,
                    SlotState::Occupied { generation: arena.next_handle().era(), value },
                ),
                None => arena.states().push(SlotState::Occupied { generation: 0, value }),
            },
        ),
        arena@.contains_key(id) ==> {
            let after = arena.states().update(
                id.idx() as int,
                SlotState::Vacant {
                    generation: next_generation(id.era()),
                    next_free: arena.head(),
                },
            );
            &&& id.era() < u32::MAX ==> no_younger(arena.states(), after) && outdated(after, id)
            &&& forall|i: int|
                0 <= i < arena.states().len() && i != id.idx() ==> #[trigger] generation_at(
                    after,
                    i,
                ) == generation_at(arena.states(), i)
        },
{
    broadcast use group_job_id;

    if let Some(i) = arena.head() {
        assert(links_to_vacant(arena.states(), free_link(arena.states(), arena.head(), 0)));
    }
}

/// A handle that is outdated finds nothing, is not issued again, and stays
/// outdated until its slot's generation wraps: for as long as that generation has
/// not fallen, it resolves to no value it did not name.
pub proof fn law_outdated_handles_never_resolve<T>(before: Arena<T>, after: Arena<T>, id: JobId)
    requires
        after.wf(),
        outdated(before.states(), id),
        id.idx() < after.states().len(),
        generation_at(before.states(), id.idx() as int) <= generation_at(
            after.states(),
            id.idx() as int,
        ),
    ensures
        outdated(after.states(), id),
        !after@.contains_key(id),
        after.has_room() ==> after.next_handle() != id,
{
    broadcast use group_job_id;

    if let Some(i) = after.head() {
        assert(links_to_vacant(after.states(), free_link(after.states(), after.head(), 0)));
    }
}

/// A packed handle is its generation in the high word and its index in the low one.
pub proof fn law_handle_is_generation_then_index(id: JobId)
    ensures
        id@ == id.era() * 0x1_0000_0000 + id.idx(),
{
}

/// A slot moves one generation on each time its value leaves it, and from the last
/// generation to the first.
pub proof fn law_generations_go_up_by_one(generation: u32)
    ensures
        generation < 0xffff_ffff ==> next_generation(generation) == generation + 1,
        generation == 0xffff_ffff ==> next_generation(generation) == 0,
{
}

/// A handle is live exactly when its slot holds a value of its generation, and then
/// stands for that value.
pub proof fn law_live_handles_name_their_values<T>(arena: Arena<T>, id: JobId)
    ensures
        arena@.contains_key(id) <==> id.idx() < arena.states().len() && arena.states()[id.idx() as int]
            is Occupied && generation_at(arena.states(), id.idx() as int) == id.era(),
        arena@.contains_key(id) ==> (arena.states()[id.idx() as int] matches SlotState::Occupied {
            value,
            ..
        } && value == arena@[id]),
{
}

/// The next handle takes the first slot of the free list, at the generation it has
/// moved to; with no slot vacant, the index after the last, at generation zero.
pub proof fn law_next_handle_takes_the_free_head<T>(arena: Arena<T>)
    requires
        arena.wf(),
        arena.states().len() < INDEX_SPACE,
    ensures
        arena.head() matches Some(i) ==> {
            &&& i < arena.states().len()
            &&& arena.states()[i as int] is Vacant
            &&& arena.next_handle().idx() == i
            &&& arena.next_handle().era() == generation_at(arena.states(), i as int)
        },
        arena.head() is None ==> {
            &&& arena.next_handle().idx() == arena.states().len()
            &&& arena.next_handle().era() == 0
            &&& forall|i: int|
                0 <= i < arena.states().len() ==> (#[trigger] arena.states()[i]) is Occupied
        },
{
    broadcast use group_job_id;

    let slots = arena.states();
    if arena.head() is Some {
        arena.lemma_head_is_vacant();
    } else {
        lemma_count_bounds(slots);
        assert(vacant_count(slots) == 0) by {
            if vacant_count(slots) > 0 {
                assert(links_to_vacant(slots, free_link(slots, arena.head(), 0)));
            }
        }
        assert forall|i: int| 0 <= i < slots.len() implies (#[trigger] slots[i]) is Occupied by {
            lemma_all_counted(slots, i);
        }
    }
}

/// Where as many slots hold a value as there are, every one does.
proof fn lemma_all_counted<T>(slots: Seq<SlotState<T>>, i: int)
    requires
        occupied_count(slots) == slots.len(),
        0 <= i < slots.len(),
    ensures
        slots[i] is Occupied,
    decreases slots.len(),
{
    lemma_count_bounds(slots.drop_last());
    if i < slots.len() - 1 {
        lemma_all_counted(slots.drop_last(), i);
    }
}

/// The free list of a snapshot is followed from its head, each vacant slot naming the
/// next; where it names no vacant slot, the list is over.
pub proof fn law_free_list_is_followed_link_by_link<T>(
    slots: Seq<SlotState<T>>,
    head: Option<u32>,
    n: nat,
)
    ensures
        free_link(slots, head, 0) == head,
        free_link(slots, head, n) matches Some(i) ==> free_link(slots, head, n + 1) == (if i
            < slots.len() {
            match slots[i as int] {
                SlotState::Vacant { next_free, .. } => next_free,
                SlotState::Occupied { .. } => None,
            }
        } else {
            None
        }),
        free_link(slots, head, n) is None ==> free_link(slots, head, n + 1) is None,
{
}

/// A snapshot is sound, or has exactly one fault: one link that is bad, or one length
/// at which the free list ends too soon.
pub proof fn law_snapshots_have_one_verdict<T>(slots: Seq<SlotState<T>>, head: Option<u32>)
    ensures
        free_list_complete(slots, head) ==> (forall|bad: u32|
            !#[trigger] free_list_breaks_at(slots, head, bad)) && (forall|n: nat|
            !#[trigger] free_list_short(slots, head, n)),
        !free_list_complete(slots, head) ==> (exists|bad: u32|
            #[trigger] free_list_breaks_at(slots, head, bad)) != (exists|n: nat|
            #[trigger] free_list_short(slots, head, n)),
        forall|a: u32, b: u32|
            #[trigger] free_list_breaks_at(slots, head, a) && #[trigger] free_list_breaks_at(
                slots,
                head,
                b,
            ) ==> a == b,
        forall|m: nat, n: nat|
            #[trigger] free_list_short(slots, head, m) && #[trigger] free_list_short(slots, head, n)
                ==> m == n,
{
    lemma_count_bounds(slots);
    let v = vacant_count(slots) as nat;
    let end = lemma_walk_ends(slots, head, v);
    assert forall|bad: u32| #[trigger] free_list_breaks_at(slots, head, bad) implies free_link(
        slots,
        head,
        end,
    ) == Some(bad) by {
        let n = choose|n: nat|
            {
                &&& #[trigger] free_link(slots, head, n) == Some(bad)
                &&& n <= vacant_count(slots)
                &&& walks(slots, head, n)
                &&& n == vacant_count(slots) || !links_to_vacant(slots, Some(bad))
            };
        if n < end {
            assert(links_to_vacant(slots, free_link(slots, head, n)));
        } else if end < n {
            assert(links_to_vacant(slots, free_link(slots, head, end)));
        }
    }
    assert forall|n: nat| #[trigger] free_list_short(slots, head, n) implies n == end by {
        if n < end {
            assert(links_to_vacant(slots, free_link(slots, head, n)));
        } else if end < n {
            assert(links_to_vacant(slots, free_link(slots, head, end)));
        }
    }
    if free_list_complete(slots, head) {
        if end < v {
            assert(links_to_vacant(slots, free_link(slots, head, end)));
        }
    } else {
        match free_link(slots, head, end) {
            Some(bad) => {
                assert(free_list_breaks_at(slots, head, bad));
            },
            None => {
                assert(free_list_short(slots, head, end));
            },
        }
    }
}

/// How far the free list can be followed, up to `v` links.
proof fn lemma_walk_ends<T>(slots: Seq<SlotState<T>>, head: Option<u32>, v: nat) -> (end: nat)
    ensures
        end <= v,
        walks(slots, head, end),
        end == v || !links_to_vacant(slots, free_link(slots, head, end)),
    decreases v,
{
    if v == 0 {
        0
    } else {
        let end = lemma_walk_ends(slots, head, (v - 1) as nat);
        if links_to_vacant(slots, free_link(slots, head, end)) {
            v
        } else {
            end
        }
    }
}

} // verus!

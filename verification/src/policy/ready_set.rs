//! The ready set: one indexed binary heap per priority class.
use crate::domain::{JobId, PriorityClass};
use crate::policy::priority::{OrderKey, Score};
use crate::policy::sort;
use crate::policy::sort::Keyed;
use vstd::prelude::*;

verus! {

/// Sentinel meaning "this job is not in the heap".
const ABSENT: u32 = u32::MAX;

/// A job's position in the ready set.
#[derive(Clone, Copy, PartialEq, Eq, Debug, Structural)]
pub struct ReadyEntry {
    pub class: PriorityClass,
    pub job: JobId,
    pub score: Score,
}

impl Keyed for ReadyEntry {
    /// Highest class first, then highest score, then the smaller handle.
    open spec fn key(self) -> sort::Key {
        ((3 - self.class.rank()) as u64, (u64::MAX - self.score) as u64, self.job@)
    }

    fn sort_key(&self) -> (key: sort::Key) {
        (3 - self.class.ordinal() as u64, u64::MAX - self.score, self.job.to_bits())
    }
}

/// The order a cycle works through its candidates in.
pub open spec fn goes_first() -> spec_fn(ReadyEntry, ReadyEntry) -> bool {
    |a: ReadyEntry, b: ReadyEntry| sort::key_le(a.key(), b.key())
}

/// Entries from the highest down.
pub open spec fn from_the_top(entries: Seq<ReadyEntry>) -> Seq<ReadyEntry> {
    entries.sort_by(goes_first())
}

proof fn lemma_goes_first_is_total()
    ensures
        vstd::relations::total_ordering(goes_first()),
{
    broadcast use crate::domain::arena::group_job_id;

    let r = goes_first();
    assert forall|a: ReadyEntry, b: ReadyEntry| #[trigger] r(a, b) && #[trigger] r(b, a) implies a
        == b by {
        sort::lemma_key_order(a.key(), b.key(), a.key());
        crate::domain::job::law_rank_determines_class(a.class, b.class);
        assert(JobId::of_bits(a.job@) == JobId::of_bits(b.job@));
    }
}

/// A list with the same entries in key order is the list from the highest down.
pub(crate) proof fn lemma_sorted_is_from_the_top(entries: Seq<ReadyEntry>, sorted: Seq<ReadyEntry>)
    requires
        sorted.to_multiset() == entries.to_multiset(),
        sort::sorted_by_key(sorted),
    ensures
        sorted == from_the_top(entries),
{
    lemma_goes_first_is_total();
    let r = goes_first();
    entries.lemma_sort_by_ensures(r);
    assert(vstd::relations::sorted_by(sorted, r)) by {
        assert forall|i: int, j: int| 0 <= i < j < sorted.len() implies #[trigger] r(
            sorted[i],
            sorted[j],
        ) by {
            assert(sort::key_le(sorted[i].key(), sorted[j].key()));
        }
    }
    vstd::seq_lib::lemma_sorted_unique(sorted, from_the_top(entries), r);
}

/// Sorting keeps the entries and puts each before all that rank below it.
pub proof fn law_from_the_top_is_ordered(entries: Seq<ReadyEntry>)
    ensures
        from_the_top(entries).to_multiset() == entries.to_multiset(),
        from_the_top(entries).len() == entries.len(),
        forall|i: int, j: int|
            0 <= i < j < entries.len() ==> {
                let (a, b) = (
                    #[trigger] from_the_top(entries)[i],
                    #[trigger] from_the_top(entries)[j],
                );
                a == b || outranks(a, b)
            },
{
    broadcast use vstd::seq_lib::group_to_multiset_ensures;
    broadcast use crate::domain::arena::group_job_id;

    lemma_goes_first_is_total();
    let r = goes_first();
    entries.lemma_sort_by_ensures(r);
    let sorted = from_the_top(entries);
    assert(sorted.len() == sorted.to_multiset().len());
    assert forall|i: int, j: int| 0 <= i < j < entries.len() implies ({
        let (a, b) = (#[trigger] sorted[i], #[trigger] sorted[j]);
        a == b || outranks(a, b)
    }) by {
        let (a, b) = (sorted[i], sorted[j]);
        assert(r(a, b));
        crate::domain::job::law_rank_determines_class(a.class, b.class);
        crate::policy::priority::law_order_is_total(a.score, a.job, b.score, b.job);
    }
}

/// Where `job` stands among the entries of `queue`.
pub open spec fn rank_in(queue: Map<JobId, Score>, job: JobId) -> int {
    crate::policy::priority::order_rank(queue[job], job)
}

/// `job` is queued and every other queued job ranks below it.
pub open spec fn is_top(queue: Map<JobId, Score>, job: JobId) -> bool {
    &&& queue.contains_key(job)
    &&& forall|other: JobId|
        queue.contains_key(other) && other != job ==> #[trigger] rank_in(queue, other) < rank_in(
            queue,
            job,
        )
}

/// No two queued jobs share an arena index.
pub open spec fn one_per_index(queue: Map<JobId, Score>) -> bool {
    forall|a: JobId, b: JobId|
        #[trigger] queue.contains_key(a) && #[trigger] queue.contains_key(b) && a.idx() == b.idx()
            ==> a == b
}

/// No queued job other than `job` itself holds `job`'s arena index.
pub open spec fn index_free_for(queue: Map<JobId, Score>, job: JobId) -> bool {
    forall|other: JobId| #[trigger] queue.contains_key(other) && other.idx() == job.idx() ==> other == job
}

/// A call on a heap.
pub enum HeapCall {
    Push { job: JobId, score: Score },
    Update { job: JobId, score: Score },
    Remove { job: JobId },
    PopMax,
    PeekMax,
    Contains { job: JobId },
    Len,
    IsEmpty,
    Clear,
    ReserveSlots,
}

/// What a call on a heap returns.
pub enum HeapAnswer {
    Done,
    Verdict(bool),
    Top(Option<(JobId, Score)>),
    Count(nat),
}

/// `call` may be made on a heap that holds `queue`.
pub open spec fn heap_allows(queue: Map<JobId, Score>, call: HeapCall) -> bool {
    match call {
        HeapCall::Push { job, .. } => index_free_for(queue, job) && job.idx() < u32::MAX,
        _ => true,
    }
}

/// `top` is the top entry of `queue`, or nothing when nothing is queued.
pub open spec fn is_top_entry(queue: Map<JobId, Score>, top: Option<(JobId, Score)>) -> bool {
    match top {
        Some((job, score)) => is_top(queue, job) && score == queue[job],
        None => queue == Map::<JobId, Score>::empty(),
    }
}

/// On a heap that holds `before`, `call` returns `answer` and leaves `after`.
pub open spec fn heap_step(
    before: Map<JobId, Score>,
    call: HeapCall,
    answer: HeapAnswer,
    after: Map<JobId, Score>,
) -> bool {
    match call {
        HeapCall::Push { job, score } => answer is Done && after == before.insert(job, score),
        HeapCall::Update { job, score } => {
            &&& answer == HeapAnswer::Verdict(before.contains_key(job))
            &&& after == (if before.contains_key(job) {
                before.insert(job, score)
            } else {
                before
            })
        },
        HeapCall::Remove { job } => {
            &&& answer == HeapAnswer::Verdict(before.contains_key(job))
            &&& after == before.remove(job)
        },
        HeapCall::PopMax => answer matches HeapAnswer::Top(top) && is_top_entry(before, top)
            && after == (match top {
            Some((job, _)) => before.remove(job),
            None => before,
        }),
        HeapCall::PeekMax => answer matches HeapAnswer::Top(top) && is_top_entry(before, top)
            && after == before,
        HeapCall::Contains { job } => answer == HeapAnswer::Verdict(before.contains_key(job))
            && after == before,
        HeapCall::Len => answer == HeapAnswer::Count(before.dom().len()) && after == before,
        HeapCall::IsEmpty => answer == HeapAnswer::Verdict(before == Map::<JobId, Score>::empty())
            && after == before,
        HeapCall::Clear => answer is Done && after == Map::<JobId, Score>::empty(),
        HeapCall::ReserveSlots => answer is Done && after == before,
    }
}

/// A heap that holds `states[0]` at first takes every one of `calls` in turn, gives
/// `answers`, and holds `states[k]` after `k` calls.
pub open spec fn heap_run(
    states: Seq<Map<JobId, Score>>,
    calls: Seq<HeapCall>,
    answers: Seq<HeapAnswer>,
) -> bool {
    &&& heap_keeps_to(states, calls, answers)
    &&& forall|k: int| 0 <= k < calls.len() ==> heap_allows(states[k], #[trigger] calls[k])
}

/// As `heap_run`, with nothing said of the calls that may not be made.
pub open spec fn heap_keeps_to(
    states: Seq<Map<JobId, Score>>,
    calls: Seq<HeapCall>,
    answers: Seq<HeapAnswer>,
) -> bool {
    &&& states.len() == calls.len() + 1
    &&& answers.len() == calls.len()
    &&& forall|k: int|
        0 <= k < calls.len() && heap_allows(states[k], #[trigger] calls[k]) ==> heap_step(
            states[k],
            calls[k],
            answers[k],
            states[k + 1],
        )
}

/// A call has one answer and one effect: they depend on what the heap holds alone.
pub proof fn law_heap_calls_go_by_the_contents(
    queue: Map<JobId, Score>,
    call: HeapCall,
    a: HeapAnswer,
    after_a: Map<JobId, Score>,
    b: HeapAnswer,
    after_b: Map<JobId, Score>,
)
    requires
        heap_step(queue, call, a, after_a),
        heap_step(queue, call, b, after_b),
    ensures
        a == b,
        after_a == after_b,
{
    if let (HeapAnswer::Top(Some((x, _))), HeapAnswer::Top(Some((y, _)))) = (a, b) {
        if x != y {
            assert(rank_in(queue, x) < rank_in(queue, y));
            assert(rank_in(queue, y) < rank_in(queue, x));
        }
    }
}

proof fn lemma_heap_states_agree(
    a: Seq<Map<JobId, Score>>,
    x: Seq<HeapAnswer>,
    b: Seq<Map<JobId, Score>>,
    y: Seq<HeapAnswer>,
    calls: Seq<HeapCall>,
    n: int,
)
    requires
        heap_run(a, calls, x),
        heap_keeps_to(b, calls, y),
        a[0] == b[0],
        0 <= n <= calls.len(),
    ensures
        a[n] == b[n],
        n > 0 ==> x[n - 1] == y[n - 1],
    decreases n,
{
    if n > 0 {
        let k = n - 1;
        lemma_heap_states_agree(a, x, b, y, calls, k);
        assert(heap_allows(a[k], calls[k]));
        law_heap_calls_go_by_the_contents(a[k], calls[k], x[k], a[k + 1], y[k], b[k + 1]);
    }
}

/// Two heaps that hold the same entries cannot be told apart: calls that one takes
/// the other takes too, with the same answers, and they go on holding the same.
pub proof fn law_heaps_with_equal_contents_behave_alike(
    one: PriorityHeap,
    other: PriorityHeap,
    calls: Seq<HeapCall>,
    a: Seq<Map<JobId, Score>>,
    x: Seq<HeapAnswer>,
    b: Seq<Map<JobId, Score>>,
    y: Seq<HeapAnswer>,
)
    requires
        one@ == other@,
        a[0] == one@,
        heap_run(a, calls, x),
        b[0] == other@,
        heap_keeps_to(b, calls, y),
    ensures
        heap_run(b, calls, y),
        x == y,
        a == b,
{
    assert forall|n: int| 0 <= n < a.len() implies a[n] == b[n] by {
        lemma_heap_states_agree(a, x, b, y, calls, n);
    }
    assert forall|k: int| 0 <= k < calls.len() implies x[k] == y[k] by {
        lemma_heap_states_agree(a, x, b, y, calls, k + 1);
    }
    assert(a =~= b);
    assert(x =~= y);
}

/// A cleared heap is as good as a new one: it is empty, holds no job and has no
/// top, and from then on any calls that a new heap takes it takes too, with the same
/// answers.
pub proof fn law_cleared_heap_behaves_as_new(
    used: PriorityHeap,
    cleared: PriorityHeap,
    fresh: PriorityHeap,
    calls: Seq<HeapCall>,
    a: Seq<Map<JobId, Score>>,
    x: Seq<HeapAnswer>,
    b: Seq<Map<JobId, Score>>,
    y: Seq<HeapAnswer>,
)
    requires
        heap_step(used@, HeapCall::Clear, HeapAnswer::Done, cleared@),
        fresh@ == Map::<JobId, Score>::empty(),
        a[0] == fresh@,
        heap_run(a, calls, x),
        b[0] == cleared@,
        heap_keeps_to(b, calls, y),
    ensures
        cleared@ == fresh@,
        heap_step(cleared@, HeapCall::Len, HeapAnswer::Count(0), cleared@),
        heap_step(cleared@, HeapCall::IsEmpty, HeapAnswer::Verdict(true), cleared@),
        heap_step(cleared@, HeapCall::PeekMax, HeapAnswer::Top(None), cleared@),
        forall|job: JobId| #[trigger]
            heap_step(
                cleared@,
                (HeapCall::Contains { job }),
                HeapAnswer::Verdict(false),
                cleared@,
            ),
        heap_run(b, calls, y),
        x == y,
        a == b,
{
    law_heaps_with_equal_contents_behave_alike(fresh, cleared, calls, a, x, b, y);
}

/// In an array heap the parent of `i` is `(i - 1) / 2`.
spec fn parent(i: int) -> int {
    (i - 1) / 2
}

/// The entry at `i` does not outrank its parent.
spec fn settled(keys: Seq<int>, i: int) -> bool {
    keys[parent(i)] >= keys[i]
}

/// Every entry but the one at `hole` is settled under its parent.
spec fn settled_except(keys: Seq<int>, hole: int) -> bool {
    forall|i: int| 0 < i < keys.len() && i != hole ==> #[trigger] settled(keys, i)
}

/// Every entry is settled, save perhaps `hole` and the children of `hole`.
spec fn settled_around(keys: Seq<int>, hole: int) -> bool {
    forall|i: int|
        0 < i < keys.len() && i != hole && parent(i) != hole ==> #[trigger] settled(keys, i)
}

/// The children of `hole` do not outrank the parent of `hole`.
spec fn bridged(keys: Seq<int>, hole: int) -> bool {
    hole > 0 ==> forall|i: int|
        0 < i < keys.len() && parent(i) == hole ==> keys[parent(hole)] >= #[trigger] keys[i]
}

spec fn heap_ordered(keys: Seq<int>) -> bool {
    forall|i: int| 0 < i < keys.len() ==> #[trigger] settled(keys, i)
}

proof fn lemma_root_is_greatest(keys: Seq<int>, i: int)
    requires
        heap_ordered(keys),
        0 <= i < keys.len(),
    ensures
        keys[0] >= keys[i],
    decreases i,
{
    if i > 0 {
        assert(settled(keys, i));
        lemma_root_is_greatest(keys, parent(i));
    }
}

/// Max-heap over `OrderKey` with O(log n) update and removal by `JobId`.
/// Scores and ids live in parallel arrays; membership is a dense table
/// indexed by `JobId::index`.
#[derive(Debug)]
pub struct PriorityHeap {
    scores: Vec<Score>,
    ids: Vec<JobId>,
    positions: Vec<u32>,
}

impl View for PriorityHeap {
    type V = Map<JobId, Score>;

    closed spec fn view(&self) -> Map<JobId, Score> {
        Map::new(|job: JobId| self.holds(job), |job: JobId| self.scores@[self.place(job)])
    }
}

/// How many arena indices a table covers once it has grown to cover `slots`: it
/// never shrinks.
pub open spec fn grown(before: nat, slots: usize) -> nat {
    if before < slots {
        slots as nat
    } else {
        before
    }
}

/// Growing a table a second time, to no more than the first, changes nothing: in
/// particular `reserve_slots` is idempotent.
pub proof fn law_growing_again_changes_nothing(before: nat, first: usize, again: usize)
    requires
        again <= first,
    ensures
        grown(grown(before, first), again) == grown(before, first),
{
}

impl PriorityHeap {
    spec fn place(&self, job: JobId) -> int {
        self.positions@[job.idx() as int] as int
    }

    spec fn holds(&self, job: JobId) -> bool {
        &&& job.idx() < self.positions@.len()
        &&& self.positions@[job.idx() as int] != ABSENT
        &&& self.ids@[self.place(job)] == job
    }

    spec fn keys(&self) -> Seq<int> {
        Seq::new(
            self.ids@.len(),
            |p: int| crate::policy::priority::order_rank(self.scores@[p], self.ids@[p]),
        )
    }

    /// The position table and the arrays describe the same membership.
    spec fn indexed(&self) -> bool {
        &&& self.scores@.len() == self.ids@.len()
        &&& self.ids@.len() <= ABSENT
        &&& forall|p: int|
            0 <= p < self.ids@.len() ==> (#[trigger] self.ids@[p]).idx() < self.positions@.len()
                && self.ids@[p].idx() < ABSENT && self.positions@[self.ids@[p].idx() as int] == p
        &&& forall|x: int|
            0 <= x < self.positions@.len() && #[trigger] self.positions@[x] != ABSENT
                ==> self.positions@[x] < self.ids@.len()
                && self.ids@[self.positions@[x] as int].idx() == x
    }

    /// Membership table and heap order both hold.
    pub closed spec fn wf(&self) -> bool {
        &&& self.indexed()
        &&& heap_ordered(self.keys())
    }

    /// How many arena indices the position table covers.
    pub closed spec fn slots(&self) -> nat {
        self.positions@.len()
    }

    /// An empty heap.
    #[must_use]
    pub fn new() -> (heap: Self)
        ensures
            heap.wf(),
            heap@ == Map::<JobId, Score>::empty(),
            heap.slots() == 0,
    {
        let heap = PriorityHeap { scores: Vec::new(), ids: Vec::new(), positions: Vec::new() };
        assert(heap@ =~= Map::<JobId, Score>::empty());
        heap
    }

    /// An empty heap preallocated for `slots` arena indices.
    #[must_use]
    pub fn with_slots(slots: usize) -> (heap: Self)
        ensures
            heap.wf(),
            heap@ == Map::<JobId, Score>::empty(),
            heap.slots() == slots,
    {
        let mut heap = PriorityHeap::new();
        heap.reserve_slots(slots);
        heap
    }

    /// Grows the position table to cover `slots` arena indices. Idempotent.
    pub fn reserve_slots(&mut self, slots: usize)
        requires
            old(self).wf(),
        ensures
            final(self).wf(),
            final(self)@ == old(self)@,
            final(self).slots() == grown(old(self).slots(), slots),
            heap_step(old(self)@, HeapCall::ReserveSlots, HeapAnswer::Done, final(self)@),
    {
        let ghost before = *self;
        self.grow_table(slots);
        proof {
            assert(self.keys() =~= before.keys());
        }
        self.scores.reserve(slots.saturating_sub(self.scores.len()));
        self.ids.reserve(slots.saturating_sub(self.ids.len()));
        proof {
            assert(self.keys() =~= before.keys());
            assert(self@ =~= before@);
        }
    }

    fn grow_table(&mut self, slots: usize)
        requires
            old(self).indexed(),
        ensures
            final(self).indexed(),
            final(self).scores@ == old(self).scores@,
            final(self).ids@ == old(self).ids@,
            final(self).slots() == grown(old(self).slots(), slots),
            final(self)@ == old(self)@,
    {
        if self.positions.len() < slots {
            let ghost before = *self;
            self.positions.resize(slots, ABSENT);
            proof {
                let n = before.positions@.len() as int;
                assert forall|x: int| 0 <= x < n implies #[trigger] self.positions@[x]
                    == before.positions@[x] by {
                    assert(self.positions@.subrange(0, n)[x] == before.positions@[x]);
                }
                assert forall|x: int| n <= x < slots implies #[trigger] self.positions@[x] == ABSENT by {
                    assert(cloned::<u32>(ABSENT, self.positions@[x]));
                }
                assert(self@ =~= before@);
            }
        }
    }

    /// Number of entries.
    #[must_use]
    pub fn len(&self) -> (len: usize)
        requires
            self.wf(),
        ensures
            self@.dom().finite(),
            len == self@.dom().len(),
            len <= u32::MAX,
            heap_step(self@, HeapCall::Len, HeapAnswer::Count(len as nat), self@),
    {
        proof {
            self.lemma_contents();
        }
        self.ids.len()
    }

    /// True when empty.
    #[must_use]
    pub fn is_empty(&self) -> (empty: bool)
        requires
            self.wf(),
        ensures
            empty <==> self@ == Map::<JobId, Score>::empty(),
            heap_step(self@, HeapCall::IsEmpty, HeapAnswer::Verdict(empty), self@),
    {
        proof {
            self.lemma_emptiness();
        }
        self.ids.is_empty()
    }

    proof fn lemma_emptiness(&self)
        requires
            self.indexed(),
        ensures
            self@ == Map::<JobId, Score>::empty() <==> self.ids@.len() == 0,
    {
        self.lemma_contents();
        if self.ids@.len() == 0 {
            assert(self@ =~= Map::<JobId, Score>::empty());
        } else {
            assert(self@.contains_key(self.ids@[0]));
        }
    }

    /// Entries of the map are the entries of the arrays, each once.
    proof fn lemma_contents(&self)
        requires
            self.indexed(),
        ensures
            self@.dom().finite(),
            self@.dom().len() == self.ids@.len(),
            self.ids@.no_duplicates(),
            forall|job: JobId| self@.contains_key(job) <==> self.ids@.contains(job),
            forall|p: int|
                0 <= p < self.ids@.len() ==> self@.contains_key(#[trigger] self.ids@[p])
                    && self@[self.ids@[p]] == self.scores@[p],
            one_per_index(self@),
            forall|job: JobId| #[trigger] self@.contains_key(job) ==> job.idx() < ABSENT,
    {
        assert forall|a: int, b: int|
            0 <= a < self.ids@.len() && 0 <= b < self.ids@.len() && a != b implies self.ids@[a]
            != self.ids@[b] by {}
        assert forall|job: JobId| self@.contains_key(job) implies self.ids@.contains(job) by {
            assert(self.ids@[self.place(job)] == job);
        }
        assert(self@.dom() =~= self.ids@.to_set());
        self.ids@.unique_seq_to_set();
    }

    /// The entries are finitely many, fewer than the sentinel, and hold an arena
    /// index at most once.
    pub proof fn lemma_shape(&self)
        requires
            self.wf(),
        ensures
            self@.dom().finite(),
            self@.dom().len() <= u32::MAX,
            one_per_index(self@),
            forall|job: JobId| #[trigger] self@.contains_key(job) ==> job.idx() < u32::MAX,
    {
        self.lemma_contents();
    }

    /// Empties the heap, keeping its allocations.
    pub fn clear(&mut self)
        requires
            old(self).wf(),
        ensures
            final(self).wf(),
            final(self)@ == Map::<JobId, Score>::empty(),
            final(self).slots() == old(self).slots(),
            heap_step(old(self)@, HeapCall::Clear, HeapAnswer::Done, final(self)@),
    {
        let mut i: usize = 0;
        let ghost before = *self;
        while i < self.ids.len()
            invariant
                before.indexed(),
                self.scores@ == before.scores@,
                self.ids@ == before.ids@,
                i <= self.ids@.len(),
                self.positions@.len() == before.positions@.len(),
                forall|x: int|
                    0 <= x < self.positions@.len() ==> #[trigger] self.positions@[x] == ABSENT
                        || self.positions@[x] == before.positions@[x],
                forall|x: int|
                    0 <= x < self.positions@.len() && #[trigger] self.positions@[x] != ABSENT
                        ==> self.positions@[x] >= i,
            decreases self.ids@.len() - i,
        {
            let index: usize = self.ids[i].index() as usize;
            self.positions[index] = ABSENT;
            i += 1;
        }
        self.scores.clear();
        self.ids.clear();
        proof {
            assert(self@ =~= Map::<JobId, Score>::empty());
        }
    }

    /// True when `job` is in the heap.
    #[must_use]
    pub fn contains(&self, job: JobId) -> (present: bool)
        requires
            self.wf(),
        ensures
            present == self@.contains_key(job),
            heap_step(
                self@,
                (HeapCall::Contains { job }),
                HeapAnswer::Verdict(present),
                self@,
            ),
    {
        self.slot_of(job).is_some()
    }

    /// Heap position of `job`, verifying the stored id matches (guards stale handles).
    fn slot_of(&self, job: JobId) -> (position: Option<usize>)
        requires
            self.indexed(),
        ensures
            position is Some <==> self@.contains_key(job),
            position matches Some(p) ==> p < self.ids@.len() && self.ids@[p as int] == job
                && self.scores@[p as int] == self@[job],
    {
        if job.index() as usize >= self.positions.len() {
            return None;
        }
        let position: u32 = self.positions[job.index() as usize];
        if position == ABSENT {
            return None;
        }
        let position: usize = position as usize;
        if self.ids[position] == job {
            Some(position)
        } else {
            None
        }
    }

    /// The comparison key at a heap position.
    fn key_at(&self, position: usize) -> (key: OrderKey)
        requires
            self.indexed(),
            position < self.ids@.len(),
        ensures
            key.rank() == self.keys()[position as int],
    {
        OrderKey::new(self.scores[position], self.ids[position])
    }

    /// Swaps two heap positions and fixes both entries in the position table.
    fn swap(&mut self, a: usize, b: usize)
        requires
            old(self).indexed(),
            a < old(self).ids@.len(),
            b < old(self).ids@.len(),
            a != b,
        ensures
            final(self).indexed(),
            final(self)@ == old(self)@,
            final(self).ids@ == old(self).ids@.update(
                a as int,
                old(self).ids@[b as int],
            ).update(b as int, old(self).ids@[a as int]),
            final(self).keys() == old(self).keys().update(
                a as int,
                old(self).keys()[b as int],
            ).update(b as int, old(self).keys()[a as int]),
    {
        let ghost before = *self;
        let score_a: Score = self.scores[a];
        let score_b: Score = self.scores[b];
        let id_a: JobId = self.ids[a];
        let id_b: JobId = self.ids[b];
        self.scores[a] = score_b;
        self.scores[b] = score_a;
        self.ids[a] = id_b;
        self.ids[b] = id_a;
        let index_b: usize = id_b.index() as usize;
        let index_a: usize = id_a.index() as usize;
        self.positions[index_b] = a as u32;
        self.positions[index_a] = b as u32;
        proof {
            assert(index_a != index_b);
            assert forall|job: JobId| self.holds(job) == before.holds(job) by {}
            assert(self@ =~= before@);
            assert(self.keys() =~= before.keys().update(a as int, before.keys()[b as int]).update(
                b as int,
                before.keys()[a as int],
            ));
        }
    }

    /// Moves an entry toward the root while it outranks its parent.
    fn sift_up(&mut self, start: usize)
        requires
            old(self).indexed(),
            start < old(self).ids@.len(),
            settled_except(old(self).keys(), start as int),
            bridged(old(self).keys(), start as int),
        ensures
            final(self).wf(),
            final(self)@ == old(self)@,
            final(self).ids@.len() == old(self).ids@.len(),
    {
        let mut position: usize = start;
        while position > 0
            invariant_except_break
                self.indexed(),
                position < self.ids@.len(),
                self.ids@.len() == old(self).ids@.len(),
                settled_except(self.keys(), position as int),
                bridged(self.keys(), position as int),
                self@ == old(self)@,
            ensures
                self.wf(),
                self@ == old(self)@,
                self.ids@.len() == old(self).ids@.len(),
            decreases position,
        {
            let above: usize = (position - 1) / 2;
            if self.key_at(position) > self.key_at(above) {
                let ghost was = self.keys();
                self.swap(position, above);
                proof {
                    lemma_step_up(was, self.keys(), position as int);
                }
                position = above;
            } else {
                proof {
                    assert(settled(self.keys(), position as int));
                }
                break;
            }
        }
    }

    /// Moves an entry toward the leaves while a child outranks it.
    fn sift_down(&mut self, start: usize)
        requires
            old(self).indexed(),
            start < old(self).ids@.len(),
            settled_around(old(self).keys(), start as int),
            bridged(old(self).keys(), start as int),
        ensures
            final(self).indexed(),
            final(self)@ == old(self)@,
            final(self).ids@.len() == old(self).ids@.len(),
            settled_except(final(self).keys(), start as int),
            bridged(final(self).keys(), start as int),
            start > 0 && settled(old(self).keys(), start as int) ==> settled(
                final(self).keys(),
                start as int,
            ),
    {
        let len: usize = self.ids.len();
        let mut position: usize = start;
        loop
            invariant_except_break
                self.indexed(),
                len == self.ids@.len() == old(self).ids@.len(),
                start <= position < len,
                self@ == old(self)@,
                sinking(old(self).keys(), self.keys(), start as int, position as int),
            ensures
                self.indexed(),
                len == self.ids@.len() == old(self).ids@.len(),
                self@ == old(self)@,
                sunk(old(self).keys(), self.keys(), start as int),
            decreases len - position,
        {
            let mut largest: usize = position;
            if position < len / 2 {
                let left: usize = position * 2 + 1;
                if self.key_at(left) > self.key_at(largest) {
                    largest = left;
                }
                let right: usize = left + 1;
                if right < len && self.key_at(right) > self.key_at(largest) {
                    largest = right;
                }
            }
            if largest == position {
                proof {
                    lemma_sunk(old(self).keys(), self.keys(), start as int, position as int);
                }
                break;
            }
            let ghost was = self.keys();
            self.swap(position, largest);
            proof {
                lemma_step_down(
                    old(self).keys(),
                    was,
                    self.keys(),
                    start as int,
                    position as int,
                    largest as int,
                );
            }
            position = largest;
        }
    }

    /// Inserts `job` at `score`, or updates it if already present.
    pub fn push(&mut self, job: JobId, score: Score)
        requires
            old(self).wf(),
            index_free_for(old(self)@, job),
            job.idx() < u32::MAX,
        ensures
            final(self).wf(),
            final(self)@ == old(self)@.insert(job, score),
            heap_step(
                old(self)@,
                (HeapCall::Push { job, score }),
                HeapAnswer::Done,
                final(self)@,
            ),
    {
        if self.update(job, score) {
            return;
        }
        let ghost before = *self;
        proof {
            self.lemma_contents();
            lemma_has_room(self@, job);
        }
        self.grow_table(job.index() as usize + 1);
        let ghost grown = *self;
        let position: usize = self.ids.len();
        self.scores.push(score);
        self.ids.push(job);
        let index: usize = job.index() as usize;
        proof {
            assert(grown.positions@[index as int] == ABSENT) by {
                if grown.positions@[index as int] != ABSENT {
                    let there = grown.ids@[grown.positions@[index as int] as int];
                    assert(grown.holds(there));
                    assert(grown@.contains_key(there));
                }
            }
        }
        self.positions[index] = position as u32;
        proof {
            assert(self.indexed());
            let was = grown.keys();
            let now = self.keys();
            assert(was =~= before.keys());
            assert forall|i: int| 0 < i < now.len() && i != position implies #[trigger] settled(
                now,
                i,
            ) by {
                assert(settled(was, i));
            }
            assert forall|other: JobId| self.holds(other) == (other == job || grown.holds(other)) by {}
            assert(self@ =~= grown@.insert(job, score));
        }
        self.sift_up(position);
    }

    /// The top entry without removing it.
    #[must_use]
    pub fn peek_max(&self) -> (top: Option<(JobId, Score)>)
        requires
            self.wf(),
        ensures
            top is None <==> self@ == Map::<JobId, Score>::empty(),
            top matches Some((job, score)) ==> is_top(self@, job) && score == self@[job],
            heap_step(self@, HeapCall::PeekMax, HeapAnswer::Top(top), self@),
    {
        if self.is_empty() {
            return None;
        }
        proof {
            self.lemma_emptiness();
            self.lemma_top();
        }
        Some((self.ids[0], self.scores[0]))
    }

    proof fn lemma_top(&self)
        requires
            self.wf(),
            self.ids@.len() > 0,
        ensures
            is_top(self@, self.ids@[0]),
            self@[self.ids@[0]] == self.scores@[0],
    {
        self.lemma_contents();
        let top = self.ids@[0];
        assert forall|other: JobId| self@.contains_key(other) && other != top implies #[trigger] rank_in(
            self@,
            other,
        ) < rank_in(self@, top) by {
            let p = self.place(other);
            lemma_root_is_greatest(self.keys(), p);
            assert(self.keys()[p] == rank_in(self@, other));
            assert(self.keys()[0] == rank_in(self@, top));
            crate::policy::priority::law_order_is_total(self@[other], other, self@[top], top);
        }
    }

    /// Removes and returns the top entry.
    pub fn pop_max(&mut self) -> (top: Option<(JobId, Score)>)
        requires
            old(self).wf(),
        ensures
            final(self).wf(),
            top is None <==> old(self)@ == Map::<JobId, Score>::empty(),
            match top {
                Some((job, score)) => {
                    &&& is_top(old(self)@, job)
                    &&& score == old(self)@[job]
                    &&& final(self)@ == old(self)@.remove(job)
                },
                None => final(self)@ == old(self)@,
            },
            heap_step(old(self)@, HeapCall::PopMax, HeapAnswer::Top(top), final(self)@),
    {
        if self.is_empty() {
            return None;
        }
        proof {
            self.lemma_emptiness();
            self.lemma_top();
        }
        let job: JobId = self.ids[0];
        let score: Score = self.scores[0];
        self.remove_at(0);
        Some((job, score))
    }

    /// Sets `job`'s score, restoring heap order. False if absent.
    pub fn update(&mut self, job: JobId, score: Score) -> (present: bool)
        requires
            old(self).wf(),
        ensures
            final(self).wf(),
            present == old(self)@.contains_key(job),
            present ==> final(self)@ == old(self)@.insert(job, score),
            !present ==> *final(self) == *old(self),
            heap_step(
                old(self)@,
                (HeapCall::Update { job, score }),
                HeapAnswer::Verdict(present),
                final(self)@,
            ),
    {
        let Some(position) = self.slot_of(job) else {
            return false;
        };
        let ghost before = *self;
        let previous: Score = self.scores[position];
        self.scores[position] = score;
        proof {
            let was = before.keys();
            let now = self.keys();
            let p = position as int;
            assert(now =~= was.update(p, now[p]));
            assert forall|i: int| 0 < i < now.len() && i != p && parent(i) != p implies #[trigger] settled(
                now,
                i,
            ) by {
                assert(settled(was, i));
            }
            assert forall|i: int| 0 < i < now.len() && parent(i) == p && p > 0 implies now[parent(p)]
                >= #[trigger] now[i] by {
                assert(settled(was, i));
                assert(settled(was, p));
            }
            if score > previous {
                assert forall|i: int| 0 < i < now.len() && i != p implies #[trigger] settled(
                    now,
                    i,
                ) by {
                    assert(settled(was, i));
                }
            } else {
                if p > 0 {
                    assert(settled(was, p));
                    assert(settled(now, p));
                }
                if score == previous {
                    assert(now =~= was);
                }
            }
            assert forall|other: JobId| self.holds(other) == before.holds(other) by {}
            assert(self@ =~= before@.insert(job, score)) by {
                before.lemma_contents();
            }
        }
        // Only one direction can be violated, depending on which way the score moved.
        if score > previous {
            self.sift_up(position);
        } else if score < previous {
            self.sift_down(position);
        }
        true
    }

    /// Removes `job`. False if absent.
    pub fn remove(&mut self, job: JobId) -> (present: bool)
        requires
            old(self).wf(),
        ensures
            final(self).wf(),
            present == old(self)@.contains_key(job),
            final(self)@ == old(self)@.remove(job),
            heap_step(
                old(self)@,
                (HeapCall::Remove { job }),
                HeapAnswer::Verdict(present),
                final(self)@,
            ),
    {
        let Some(position) = self.slot_of(job) else {
            assert(self@.remove(job) =~= self@);
            return false;
        };
        self.remove_at(position);
        true
    }

    /// Removes the entry at a heap position by swapping in the last element.
    fn remove_at(&mut self, position: usize)
        requires
            old(self).wf(),
            position < old(self).ids@.len(),
        ensures
            final(self).wf(),
            final(self)@ == old(self)@.remove(old(self).ids@[position as int]),
    {
        let ghost before = *self;
        let ghost gone = self.ids@[position as int];
        let last: usize = self.ids.len() - 1;
        if position != last {
            self.swap(position, last);
        }
        let ghost swapped = *self;
        proof {
            swapped.lemma_contents();
            before.lemma_contents();
        }
        let index: usize = self.ids[last].index() as usize;
        self.positions[index] = ABSENT;
        self.scores.pop();
        self.ids.pop();
        proof {
            assert(swapped.ids@[last as int] == gone);
            assert forall|x: int|
                0 <= x < self.positions@.len() && #[trigger] self.positions@[x] != ABSENT implies {
                &&& self.positions@[x] < self.ids@.len()
                &&& self.ids@[self.positions@[x] as int].idx() == x
            } by {
                assert(swapped.positions@[x] != ABSENT);
            }
            assert(self.indexed());
            assert forall|other: JobId| self.holds(other) == (other != gone && swapped.holds(other)) by {
                if swapped.holds(other) && other != gone {
                    assert(swapped.place(other) != last);
                }
            }
            assert(self@ =~= swapped@.remove(gone));
            let was = before.keys();
            let now = self.keys();
            let p = position as int;
            assert forall|i: int| 0 <= i < now.len() implies now[i] == swapped.keys()[i] by {}
            assert forall|i: int| 0 <= i < now.len() && i != p implies now[i] == was[i] by {}
            assert forall|i: int| 0 < i < now.len() && i != p && parent(i) != p implies #[trigger] settled(
                now,
                i,
            ) by {
                assert(settled(was, i));
            }
            assert forall|i: int| 0 < i < now.len() && parent(i) == p && p > 0 implies now[parent(p)]
                >= #[trigger] now[i] by {
                assert(settled(was, i));
                assert(settled(was, p));
            }
            if position == last {
                assert(heap_ordered(now)) by {
                    assert forall|i: int| 0 < i < now.len() implies #[trigger] settled(now, i) by {
                        assert(settled(was, i));
                    }
                }
            }
        }
        if position == last {
            return;
        }
        // The moved element may need to go either way; only one call will move it.
        self.sift_down(position);
        self.sift_up(position);
    }
}

impl Default for PriorityHeap {
    fn default() -> (heap: Self)
        ensures
            heap.wf(),
            heap@ == Map::<JobId, Score>::empty(),
    {
        PriorityHeap::new()
    }
}

/// Swapping an outranking entry with its parent moves the hole to the parent.
proof fn lemma_step_up(was: Seq<int>, now: Seq<int>, p: int)
    requires
        0 < p < was.len(),
        settled_except(was, p),
        bridged(was, p),
        was[p] > was[parent(p)],
        now == was.update(p, was[parent(p)]).update(parent(p), was[p]),
    ensures
        settled_except(now, parent(p)),
        bridged(now, parent(p)),
{
    let q = parent(p);
    assert forall|i: int| 0 < i < now.len() && i != q implies #[trigger] settled(now, i) by {
        if i != p {
            assert(settled(was, i));
        }
    }
    if q > 0 {
        assert(settled(was, q));
        assert forall|i: int| 0 < i < now.len() && parent(i) == q implies now[parent(q)]
            >= #[trigger] now[i] by {
            if i != p {
                assert(settled(was, i));
            }
        }
    }
}

/// While sinking from `start`, only the edges below `hole` may be violated, and
/// the edge above `start` unless something has already moved.
spec fn sinking(first: Seq<int>, keys: Seq<int>, start: int, hole: int) -> bool {
    &&& keys.len() == first.len()
    &&& bridged(keys, hole)
    &&& bridged(keys, start)
    &&& forall|i: int|
        0 < i < keys.len() && i != start && parent(i) != hole ==> #[trigger] settled(keys, i)
    &&& hole != start && start > 0 ==> settled(keys, start)
    &&& hole == start ==> keys == first
}

spec fn sunk(first: Seq<int>, keys: Seq<int>, start: int) -> bool {
    &&& settled_except(keys, start)
    &&& bridged(keys, start)
    &&& start > 0 && settled(first, start) ==> settled(keys, start)
}

proof fn lemma_sunk(first: Seq<int>, keys: Seq<int>, start: int, hole: int)
    requires
        sinking(first, keys, start, hole),
        0 <= start <= hole < keys.len(),
        forall|i: int| 0 < i < keys.len() && parent(i) == hole ==> keys[hole] >= #[trigger] keys[i],
    ensures
        sunk(first, keys, start),
{
    assert forall|i: int| 0 < i < keys.len() && i != start implies #[trigger] settled(keys, i) by {
        if parent(i) == hole {
            assert(keys[hole] >= keys[i]);
        }
    }
}

proof fn lemma_step_down(
    first: Seq<int>,
    was: Seq<int>,
    now: Seq<int>,
    start: int,
    hole: int,
    child: int,
)
    requires
        sinking(first, was, start, hole),
        0 <= start <= hole < was.len(),
        0 < child < was.len(),
        parent(child) == hole,
        was[child] > was[hole],
        forall|i: int| 0 < i < was.len() && parent(i) == hole ==> was[child] >= #[trigger] was[i],
        now == was.update(hole, was[child]).update(child, was[hole]),
    ensures
        sinking(first, now, start, child),
{
    assert(child > hole);
    assert forall|i: int| 0 < i < now.len() && i != start && parent(i) != child implies #[trigger] settled(
        now,
        i,
    ) by {
        if i == child {
        } else if i == hole {
            // The old hole now holds what was its greatest child.
            assert(was[parent(hole)] >= was[child]);
        } else if parent(i) == hole {
            assert(was[child] >= was[i]);
        } else {
            assert(settled(was, i));
        }
    }
    if start > 0 {
        if hole == start {
            assert(was[parent(start)] >= was[child]);
            assert(settled(now, start));
        } else {
            assert(settled(was, start));
            assert(settled(now, start));
        }
        assert forall|i: int| 0 < i < now.len() && parent(i) == start implies now[parent(start)]
            >= #[trigger] now[i] by {
            if i != child && hole != start {
                if i == hole {
                    assert(was[parent(hole)] >= was[child]);
                } else {
                    assert(settled(was, i));
                }
            }
            if hole == start {
                assert(was[child] >= was[i]);
            }
        }
    }
    assert forall|i: int| 0 < i < now.len() && parent(i) == child implies now[parent(child)]
        >= #[trigger] now[i] by {
        assert(settled(was, i));
    }
}

/// What a ready set holds: one queue per class, indexed by class rank.
pub type Queues = Seq<Map<JobId, Score>>;

/// `entry` is the one to consider next: at the top of its class, with nothing
/// queued in any higher class.
pub open spec fn is_next(queues: Queues, entry: ReadyEntry) -> bool {
    let class = entry.class.rank() as int;
    &&& is_top(queues[class], entry.job)
    &&& entry.score == queues[class][entry.job]
    &&& forall|c: int|
        class < c < queues.len() ==> #[trigger] queues[c] == Map::<JobId, Score>::empty()
}

/// The queues once `entry` has left its class.
pub open spec fn without(queues: Queues, entry: ReadyEntry) -> Queues {
    let class = entry.class.rank() as int;
    queues.update(class, queues[class].remove(entry.job))
}

/// The queues once `entry` has been added to its class, or rescored there.
pub open spec fn with_entry(queues: Queues, entry: ReadyEntry) -> Queues {
    let class = entry.class.rank() as int;
    queues.update(class, queues[class].insert(entry.job, entry.score))
}

/// The queues once every entry of `taken` has left, in order.
pub open spec fn after_taking(queues: Queues, taken: Seq<ReadyEntry>) -> Queues
    decreases taken.len(),
{
    if taken.len() == 0 {
        queues
    } else {
        without(after_taking(queues, taken.drop_last()), taken.last())
    }
}

/// `taken` lists entries in the order the set gives them out.
pub open spec fn in_drain_order(queues: Queues, taken: Seq<ReadyEntry>) -> bool {
    forall|k: int|
        0 <= k < taken.len() ==> is_next(after_taking(queues, taken.take(k)), #[trigger] taken[k])
}

/// Nothing is queued in any class.
pub open spec fn nothing_queued(queues: Queues) -> bool {
    forall|c: int| 0 <= c < queues.len() ==> #[trigger] queues[c] == Map::<JobId, Score>::empty()
}

/// How many entries are queued in all classes.
pub open spec fn queued(queues: Queues) -> nat {
    queues[0].dom().len() + queues[1].dom().len() + queues[2].dom().len() + queues[3].dom().len()
}

/// A call on a ready set.
pub enum SetCall {
    Insert { entry: ReadyEntry },
    Remove { class: PriorityClass, job: JobId },
    PopNext,
    PeekNext,
    Drain { limit: usize },
    Len,
    IsEmpty,
    Clear,
    ReserveSlots,
}

/// What a call on a ready set returns.
pub enum SetAnswer {
    Done,
    Verdict(bool),
    Next(Option<ReadyEntry>),
    Taken(Seq<ReadyEntry>),
    Count(nat),
}

/// `call` may be made on a set that holds `queues`.
pub open spec fn set_allows(queues: Queues, call: SetCall) -> bool {
    match call {
        SetCall::Insert { entry } => index_free_for(queues[entry.class.rank() as int], entry.job)
            && entry.job.idx() < u32::MAX,
        SetCall::Len => queued(queues) <= usize::MAX,
        _ => true,
    }
}

/// `next` is the entry to consider next, or nothing when nothing is queued.
pub open spec fn is_next_entry(queues: Queues, next: Option<ReadyEntry>) -> bool {
    match next {
        Some(entry) => is_next(queues, entry),
        None => nothing_queued(queues),
    }
}

/// On a set that holds `before`, `call` returns `answer` and leaves `after`.
pub open spec fn set_step(before: Queues, call: SetCall, answer: SetAnswer, after: Queues) -> bool {
    match call {
        SetCall::Insert { entry } => answer is Done && after == with_entry(before, entry),
        SetCall::Remove { class, job } => {
            let c = class.rank() as int;
            &&& answer == SetAnswer::Verdict(before[c].contains_key(job))
            &&& after == before.update(c, before[c].remove(job))
        },
        SetCall::PopNext => answer matches SetAnswer::Next(next) && is_next_entry(before, next)
            && after == (match next {
            Some(entry) => without(before, entry),
            None => before,
        }),
        SetCall::PeekNext => answer matches SetAnswer::Next(next) && is_next_entry(before, next)
            && after == before,
        SetCall::Drain { limit } => {
            let taken = drained(before, limit as int);
            answer == SetAnswer::Taken(taken) && after == after_taking(before, taken)
        },
        SetCall::Len => answer == SetAnswer::Count(queued(before)) && after == before,
        SetCall::IsEmpty => answer == SetAnswer::Verdict(nothing_queued(before)) && after == before,
        SetCall::Clear => answer is Done && after.len() == PriorityClass::COUNT && nothing_queued(
            after,
        ),
        SetCall::ReserveSlots => answer is Done && after == before,
    }
}

/// A set that holds `states[0]` at first takes every one of `calls` in turn, gives
/// `answers`, and holds `states[k]` after `k` calls.
pub open spec fn set_run(states: Seq<Queues>, calls: Seq<SetCall>, answers: Seq<SetAnswer>) -> bool {
    &&& set_keeps_to(states, calls, answers)
    &&& forall|k: int| 0 <= k < calls.len() ==> set_allows(states[k], #[trigger] calls[k])
}

/// As `set_run`, with nothing said of the calls that may not be made.
pub open spec fn set_keeps_to(
    states: Seq<Queues>,
    calls: Seq<SetCall>,
    answers: Seq<SetAnswer>,
) -> bool {
    &&& states.len() == calls.len() + 1
    &&& answers.len() == calls.len()
    &&& forall|k: int|
        0 <= k < calls.len() && set_allows(states[k], #[trigger] calls[k]) ==> set_step(
            states[k],
            calls[k],
            answers[k],
            states[k + 1],
        )
}

/// A call has one answer and one effect: they depend on what the set holds alone.
/// There is one queue per class afterwards too.
pub proof fn law_set_calls_go_by_the_contents(
    queues: Queues,
    call: SetCall,
    a: SetAnswer,
    after_a: Queues,
    b: SetAnswer,
    after_b: Queues,
)
    requires
        queues.len() == PriorityClass::COUNT,
        set_step(queues, call, a, after_a),
        set_step(queues, call, b, after_b),
    ensures
        a == b,
        after_a == after_b,
        after_a.len() == PriorityClass::COUNT,
{
    match call {
        SetCall::PopNext | SetCall::PeekNext => {
            match (a->Next_0, b->Next_0) {
                (Some(x), Some(y)) => {
                    lemma_next_unique(queues, x, y);
                },
                (Some(x), None) | (None, Some(x)) => {
                    crate::domain::job::law_rank_determines_class(x.class, x.class);
                    assert(queues[x.class.rank() as int] == Map::<JobId, Score>::empty());
                },
                (None, None) => {},
            }
        },
        SetCall::Drain { limit } => {
            lemma_after_taking_len(queues, drained(queues, limit as int));
        },
        SetCall::Clear => {
            assert forall|c: int| 0 <= c < after_a.len() implies after_a[c] == after_b[c] by {
                assert(after_a[c] == Map::<JobId, Score>::empty());
                assert(after_b[c] == Map::<JobId, Score>::empty());
            }
            assert(after_a =~= after_b);
        },
        _ => {},
    }
}

proof fn lemma_set_states_agree(
    a: Seq<Queues>,
    x: Seq<SetAnswer>,
    b: Seq<Queues>,
    y: Seq<SetAnswer>,
    calls: Seq<SetCall>,
    n: int,
)
    requires
        a[0].len() == PriorityClass::COUNT,
        set_run(a, calls, x),
        set_keeps_to(b, calls, y),
        a[0] == b[0],
        0 <= n <= calls.len(),
    ensures
        a[n] == b[n],
        a[n].len() == PriorityClass::COUNT,
        n > 0 ==> x[n - 1] == y[n - 1],
    decreases n,
{
    if n > 0 {
        let k = n - 1;
        lemma_set_states_agree(a, x, b, y, calls, k);
        assert(set_allows(a[k], calls[k]));
        law_set_calls_go_by_the_contents(a[k], calls[k], x[k], a[k + 1], y[k], b[k + 1]);
    }
}

/// Two ready sets that hold the same entries cannot be told apart: calls that one
/// takes the other takes too, with the same answers, and they go on holding the same.
pub proof fn law_sets_with_equal_contents_behave_alike(
    one: ReadySet,
    other: ReadySet,
    calls: Seq<SetCall>,
    a: Seq<Queues>,
    x: Seq<SetAnswer>,
    b: Seq<Queues>,
    y: Seq<SetAnswer>,
)
    requires
        one.wf(),
        one@ == other@,
        a[0] == one@,
        set_run(a, calls, x),
        b[0] == other@,
        set_keeps_to(b, calls, y),
    ensures
        set_run(b, calls, y),
        x == y,
        a == b,
{
    one.lemma_shape();
    assert forall|n: int| 0 <= n < a.len() implies a[n] == b[n] by {
        lemma_set_states_agree(a, x, b, y, calls, n);
    }
    assert forall|k: int| 0 <= k < calls.len() implies x[k] == y[k] by {
        lemma_set_states_agree(a, x, b, y, calls, k + 1);
    }
    assert(a =~= b);
    assert(x =~= y);
}

/// A cleared ready set is as good as a new one: it is empty with nothing to consider
/// next, and from then on any calls that a new set takes it takes too, with the same
/// answers.
pub proof fn law_cleared_set_behaves_as_new(
    used: ReadySet,
    cleared: ReadySet,
    fresh: ReadySet,
    calls: Seq<SetCall>,
    a: Seq<Queues>,
    x: Seq<SetAnswer>,
    b: Seq<Queues>,
    y: Seq<SetAnswer>,
)
    requires
        set_step(used@, SetCall::Clear, SetAnswer::Done, cleared@),
        fresh.wf(),
        nothing_queued(fresh@),
        a[0] == fresh@,
        set_run(a, calls, x),
        b[0] == cleared@,
        set_keeps_to(b, calls, y),
    ensures
        cleared@ == fresh@,
        set_step(cleared@, SetCall::Len, SetAnswer::Count(0), cleared@),
        set_step(cleared@, SetCall::IsEmpty, SetAnswer::Verdict(true), cleared@),
        set_step(cleared@, SetCall::PeekNext, SetAnswer::Next(None), cleared@),
        set_run(b, calls, y),
        x == y,
        a == b,
{
    fresh.lemma_shape();
    assert forall|c: int| 0 <= c < fresh@.len() implies cleared@[c] == fresh@[c] by {
        assert(cleared@[c] == Map::<JobId, Score>::empty());
        assert(fresh@[c] == Map::<JobId, Score>::empty());
    }
    assert(cleared@ =~= fresh@);
    law_sets_with_equal_contents_behave_alike(fresh, cleared, calls, a, x, b, y);
}

/// One `PriorityHeap` per class, drained highest class first. Class strictly
/// dominates score.
#[derive(Debug)]
pub struct ReadySet {
    buckets: [PriorityHeap; 4],
}

impl View for ReadySet {
    type V = Queues;

    closed spec fn view(&self) -> Queues {
        Seq::new(4, |c: int| self.buckets@[c]@)
    }
}

impl ReadySet {
    /// Every bucket is well formed.
    pub closed spec fn wf(&self) -> bool {
        forall|c: int| 0 <= c < 4 ==> (#[trigger] self.buckets@[c]).wf()
    }

    /// How many arena indices each class's bucket covers.
    pub closed spec fn slots(&self) -> Seq<nat> {
        Seq::new(4, |c: int| self.buckets@[c].slots())
    }

    /// How many entries there are in all.
    pub open spec fn total(&self) -> nat {
        queued(self@)
    }

    /// An empty set.
    #[must_use]
    pub fn new() -> (set: Self)
        ensures
            set.wf(),
            set@.len() == 4,
            nothing_queued(set@),
            set.slots() == Seq::new(PriorityClass::COUNT as nat, |c: int| 0nat),
    {
        ReadySet {
            buckets: [
                PriorityHeap::new(),
                PriorityHeap::new(),
                PriorityHeap::new(),
                PriorityHeap::new(),
            ],
        }
    }

    /// Adds or rescores a job in its class bucket.
    pub fn insert(&mut self, class: PriorityClass, job: JobId, score: Score)
        requires
            old(self).wf(),
            index_free_for(old(self)@[class.rank() as int], job),
            job.idx() < u32::MAX,
        ensures
            final(self).wf(),
            final(self)@ == with_entry(old(self)@, ReadyEntry { class, job, score }),
            set_step(
                old(self)@,
                (SetCall::Insert { entry: ReadyEntry { class, job, score } }),
                SetAnswer::Done,
                final(self)@,
            ),
    {
        self.buckets[class.ordinal() as usize].push(job, score);
        assert(self@ =~= with_entry(old(self)@, ReadyEntry { class, job, score }));
    }

    /// There is one queue per class; each is finite, smaller than the sentinel,
    /// and holds an arena index at most once.
    pub proof fn lemma_shape(&self)
        requires
            self.wf(),
        ensures
            self@.len() == PriorityClass::COUNT,
            forall|c: int|
                0 <= c < self@.len() ==> (#[trigger] self@[c]).dom().finite()
                    && self@[c].dom().len() <= u32::MAX && one_per_index(self@[c]),
            forall|c: int, job: JobId|
                0 <= c < self@.len() && #[trigger] self@[c].contains_key(job) ==> job.idx()
                    < u32::MAX,
    {
        assert forall|c: int, job: JobId|
            0 <= c < self@.len() && #[trigger] self@[c].contains_key(job) implies job.idx()
            < u32::MAX by {
            assert(self.buckets@[c].wf());
            self.buckets@[c].lemma_shape();
        }
        assert forall|c: int| 0 <= c < self@.len() implies (#[trigger] self@[c]).dom().finite()
            && self@[c].dom().len() <= u32::MAX && one_per_index(self@[c]) by {
            assert(self.buckets@[c].wf());
            self.buckets@[c].lemma_shape();
        }
    }

    /// An empty set preallocated for `slots` arena indices.
    #[must_use]
    pub fn with_slots(slots: usize) -> (set: Self)
        ensures
            set.wf(),
            set@.len() == PriorityClass::COUNT,
            nothing_queued(set@),
            set.slots() == Seq::new(PriorityClass::COUNT as nat, |c: int| slots as nat),
    {
        let mut set = ReadySet::new();
        set.reserve_slots(slots);
        set
    }

    /// Preallocates every bucket.
    pub fn reserve_slots(&mut self, slots: usize)
        requires
            old(self).wf(),
        ensures
            final(self).wf(),
            final(self)@ == old(self)@,
            final(self).slots() == old(self).slots().map_values(|before: nat| grown(before, slots)),
            set_step(old(self)@, SetCall::ReserveSlots, SetAnswer::Done, final(self)@),
    {
        let mut c: usize = 0;
        while c < 4
            invariant
                c <= 4,
                self.wf(),
                self@ == old(self)@,
                forall|b: int|
                    0 <= b < 4 ==> #[trigger] self.slots()[b] == (if b < c {
                        grown(old(self).slots()[b], slots)
                    } else {
                        old(self).slots()[b]
                    }),
            decreases 4 - c,
        {
            let ghost before = *self;
            self.buckets[c].reserve_slots(slots);
            proof {
                assert(self@ =~= old(self)@);
                assert(self.slots() =~= before.slots().update(
                    c as int,
                    grown(before.slots()[c as int], slots),
                ));
            }
            c += 1;
        }
    }

    /// Removes a job from its class bucket. False if absent.
    pub fn remove(&mut self, class: PriorityClass, job: JobId) -> (present: bool)
        requires
            old(self).wf(),
        ensures
            final(self).wf(),
            present == old(self)@[class.rank() as int].contains_key(job),
            final(self)@ == old(self)@.update(
                class.rank() as int,
                old(self)@[class.rank() as int].remove(job),
            ),
            set_step(
                old(self)@,
                (SetCall::Remove { class, job }),
                SetAnswer::Verdict(present),
                final(self)@,
            ),
    {
        let present: bool = self.buckets[class.ordinal() as usize].remove(job);
        proof {
            let c = class.rank() as int;
            assert(self@ =~= old(self)@.update(c, old(self)@[c].remove(job)));
        }
        present
    }

    /// Total entries across all classes.
    #[must_use]
    pub fn len(&self) -> (len: usize)
        requires
            self.wf(),
            self.total() <= usize::MAX,
        ensures
            len == self.total(),
            set_step(self@, SetCall::Len, SetAnswer::Count(len as nat), self@),
    {
        proof {
            assert(self@[0] == self.buckets@[0]@ && self@[1] == self.buckets@[1]@);
            assert(self@[2] == self.buckets@[2]@ && self@[3] == self.buckets@[3]@);
        }
        self.buckets[0].len() + self.buckets[1].len() + self.buckets[2].len()
            + self.buckets[3].len()
    }

    /// True when every bucket is empty.
    #[must_use]
    pub fn is_empty(&self) -> (empty: bool)
        requires
            self.wf(),
        ensures
            empty == nothing_queued(self@),
            set_step(self@, SetCall::IsEmpty, SetAnswer::Verdict(empty), self@),
    {
        let mut c: usize = 0;
        while c < 4
            invariant
                c <= 4,
                self.wf(),
                forall|d: int| 0 <= d < c ==> #[trigger] self@[d] == Map::<JobId, Score>::empty(),
            decreases 4 - c,
        {
            if !self.buckets[c].is_empty() {
                assert(self@[c as int] == self.buckets@[c as int]@);
                return false;
            }
            c += 1;
        }
        true
    }

    /// Empties every bucket, keeping allocations.
    pub fn clear(&mut self)
        requires
            old(self).wf(),
        ensures
            final(self).wf(),
            final(self)@.len() == PriorityClass::COUNT,
            nothing_queued(final(self)@),
            final(self).slots() == old(self).slots(),
            set_step(old(self)@, SetCall::Clear, SetAnswer::Done, final(self)@),
    {
        let mut c: usize = 0;
        while c < 4
            invariant
                c <= 4,
                self.wf(),
                self.slots() == old(self).slots(),
                forall|d: int| 0 <= d < c ==> #[trigger] self@[d] == Map::<JobId, Score>::empty(),
            decreases 4 - c,
        {
            let ghost before = self@;
            self.buckets[c].clear();
            proof {
                assert(self.slots() =~= old(self).slots());
                assert forall|d: int| 0 <= d < c + 1 implies #[trigger] self@[d] == Map::<
                    JobId,
                    Score,
                >::empty() by {
                    if d < c {
                        assert(self@[d] == before[d]);
                    }
                }
            }
            c += 1;
        }
    }

    /// The next entry to consider, without removing it.
    #[must_use]
    pub fn peek_next(&self) -> (next: Option<ReadyEntry>)
        requires
            self.wf(),
        ensures
            next is None <==> nothing_queued(self@),
            next matches Some(entry) ==> is_next(self@, entry),
            set_step(self@, SetCall::PeekNext, SetAnswer::Next(next), self@),
    {
        let classes = PriorityClass::all();
        let mut c: usize = 4;
        while c > 0
            invariant
                c <= 4,
                self.wf(),
                forall|i: int| 0 <= i < 4 ==> (#[trigger] classes@[i]).rank() == i,
                forall|d: int| c <= d < 4 ==> #[trigger] self@[d] == Map::<JobId, Score>::empty(),
            decreases c,
        {
            c -= 1;
            assert(self@[c as int] == self.buckets@[c as int]@);
            if let Some((job, score)) = self.buckets[c].peek_max() {
                return Some(ReadyEntry { class: classes[c], job, score });
            }
        }
        None
    }

    /// Removes and returns the next entry.
    pub fn pop_next(&mut self) -> (next: Option<ReadyEntry>)
        requires
            old(self).wf(),
        ensures
            final(self).wf(),
            next is None <==> nothing_queued(old(self)@),
            match next {
                Some(entry) => is_next(old(self)@, entry) && final(self)@ == without(
                    old(self)@,
                    entry,
                ),
                None => final(self)@ == old(self)@,
            },
            set_step(old(self)@, SetCall::PopNext, SetAnswer::Next(next), final(self)@),
    {
        let classes = PriorityClass::all();
        let mut c: usize = 4;
        while c > 0
            invariant
                c <= 4,
                self.wf(),
                self@ == old(self)@,
                forall|i: int| 0 <= i < 4 ==> (#[trigger] classes@[i]).rank() == i,
                forall|d: int| c <= d < 4 ==> #[trigger] self@[d] == Map::<JobId, Score>::empty(),
            decreases c,
        {
            c -= 1;
            let ghost before = self@;
            assert(self@[c as int] == self.buckets@[c as int]@);
            let top = self.buckets[c].pop_max();
            if let Some((job, score)) = top {
                let entry = ReadyEntry { class: classes[c], job, score };
                proof {
                    assert(self@ =~= without(before, entry));
                }
                return Some(entry);
            }
            proof {
                assert(self@ =~= before);
            }
        }
        None
    }

    /// Moves up to `limit` entries, in priority order, into `out` (cleared first).
    pub fn drain_ordered_into(&mut self, out: &mut Vec<ReadyEntry>, limit: usize)
        requires
            old(self).wf(),
        ensures
            final(self).wf(),
            is_drain(old(self)@, final(out)@, limit as int),
            final(out)@ == drained(old(self)@, limit as int),
            final(self)@ == after_taking(old(self)@, final(out)@),
            set_step(
                old(self)@,
                (SetCall::Drain { limit }),
                SetAnswer::Taken(final(out)@),
                final(self)@,
            ),
    {
        out.clear();
        while out.len() < limit
            invariant_except_break
                self.wf(),
                in_drain_order(old(self)@, out@),
                self@ == after_taking(old(self)@, out@),
                out@.len() <= limit,
            ensures
                self.wf(),
                in_drain_order(old(self)@, out@),
                self@ == after_taking(old(self)@, out@),
                out@.len() <= limit,
                out@.len() < limit ==> nothing_queued(self@),
            decreases limit - out@.len(),
        {
            let ghost taken = out@;
            match self.pop_next() {
                Some(entry) => {
                    out.push(entry);
                    proof {
                        assert(out@.drop_last() =~= taken);
                        assert forall|k: int| 0 <= k < out@.len() implies is_next(
                            after_taking(old(self)@, out@.take(k)),
                            #[trigger] out@[k],
                        ) by {
                            if k < taken.len() {
                                assert(out@.take(k) =~= taken.take(k));
                                assert(out@[k] == taken[k]);
                            } else {
                                assert(out@.take(k) =~= taken);
                            }
                        }
                    }
                },
                None => {
                    break;
                },
            }
        }
        proof {
            old(self).lemma_shape();
            lemma_drain_unique(old(self)@, out@, limit as int);
        }
    }

    /// Returns a drained entry to its bucket.
    pub fn reinsert(&mut self, entry: ReadyEntry)
        requires
            old(self).wf(),
            index_free_for(old(self)@[entry.class.rank() as int], entry.job),
            entry.job.idx() < u32::MAX,
        ensures
            final(self).wf(),
            final(self)@ == with_entry(old(self)@, entry),
            set_step(old(self)@, (SetCall::Insert { entry }), SetAnswer::Done, final(self)@),
    {
        self.insert(entry.class, entry.job, entry.score);
    }
}

impl Default for ReadySet {
    fn default() -> (set: Self)
        ensures
            set.wf(),
            set@.len() == PriorityClass::COUNT,
            nothing_queued(set@),
    {
        ReadySet::new()
    }
}

/// `taken` is what draining up to `limit` entries takes.
pub open spec fn is_drain(queues: Queues, taken: Seq<ReadyEntry>, limit: int) -> bool {
    &&& in_drain_order(queues, taken)
    &&& taken.len() <= limit
    &&& taken.len() < limit ==> nothing_queued(after_taking(queues, taken))
}

/// What draining up to `limit` entries takes.
pub open spec fn drained(queues: Queues, limit: int) -> Seq<ReadyEntry> {
    choose|taken: Seq<ReadyEntry>| is_drain(queues, taken, limit)
}

/// Only one entry can be the next.
proof fn lemma_next_unique(queues: Queues, a: ReadyEntry, b: ReadyEntry)
    requires
        queues.len() == PriorityClass::COUNT,
        is_next(queues, a),
        is_next(queues, b),
    ensures
        a == b,
{
    let (ca, cb) = (a.class.rank() as int, b.class.rank() as int);
    if ca > cb {
        assert(queues[ca] == Map::<JobId, Score>::empty());
    } else if cb > ca {
        assert(queues[cb] == Map::<JobId, Score>::empty());
    }
    crate::domain::job::law_rank_determines_class(a.class, b.class);
    if a.job != b.job {
        assert(rank_in(queues[ca], a.job) < rank_in(queues[ca], b.job));
        assert(rank_in(queues[ca], b.job) < rank_in(queues[ca], a.job));
    }
}

proof fn lemma_after_taking_len(queues: Queues, taken: Seq<ReadyEntry>)
    requires
        queues.len() == PriorityClass::COUNT,
    ensures
        after_taking(queues, taken).len() == queues.len(),
    decreases taken.len(),
{
    if taken.len() > 0 {
        lemma_after_taking_len(queues, taken.drop_last());
        crate::domain::job::law_rank_determines_class(taken.last().class, taken.last().class);
    }
}

/// Two drains agree as far as both go.
proof fn lemma_drains_agree(queues: Queues, a: Seq<ReadyEntry>, b: Seq<ReadyEntry>, n: int)
    requires
        queues.len() == PriorityClass::COUNT,
        in_drain_order(queues, a),
        in_drain_order(queues, b),
        0 <= n <= a.len(),
        n <= b.len(),
    ensures
        a.take(n) == b.take(n),
    decreases n,
{
    if n > 0 {
        lemma_drains_agree(queues, a, b, n - 1);
        let left = after_taking(queues, a.take(n - 1));
        lemma_after_taking_len(queues, a.take(n - 1));
        assert(is_next(left, a[n - 1]));
        assert(is_next(left, b[n - 1]));
        lemma_next_unique(left, a[n - 1], b[n - 1]);
        assert(a.take(n) =~= a.take(n - 1).push(a[n - 1]));
        assert(b.take(n) =~= b.take(n - 1).push(b[n - 1]));
    } else {
        assert(a.take(0) =~= b.take(0));
    }
}

/// There is only one drain.
pub(crate) proof fn lemma_drain_unique(queues: Queues, taken: Seq<ReadyEntry>, limit: int)
    requires
        queues.len() == PriorityClass::COUNT,
        is_drain(queues, taken, limit),
    ensures
        drained(queues, limit) == taken,
{
    let other = drained(queues, limit);
    assert(is_drain(queues, other, limit));
    if taken.len() < other.len() {
        lemma_drain_longer(queues, taken, other);
    } else if other.len() < taken.len() {
        lemma_drain_longer(queues, other, taken);
    }
    lemma_drains_agree(queues, taken, other, taken.len() as int);
    assert(taken.take(taken.len() as int) =~= taken);
    assert(other.take(other.len() as int) =~= other);
}

/// A drain that goes on past another shows that something was left to take.
proof fn lemma_drain_longer(queues: Queues, short: Seq<ReadyEntry>, long: Seq<ReadyEntry>)
    requires
        queues.len() == PriorityClass::COUNT,
        in_drain_order(queues, short),
        in_drain_order(queues, long),
        short.len() < long.len(),
    ensures
        !nothing_queued(after_taking(queues, short)),
{
    let n = short.len() as int;
    lemma_drains_agree(queues, short, long, n);
    assert(short.take(n) =~= short);
    let left = after_taking(queues, short);
    lemma_after_taking_len(queues, short);
    assert(is_next(left, long[n]));
    let c = long[n].class.rank() as int;
    crate::domain::job::law_rank_determines_class(long[n].class, long[n].class);
    assert(left[c].contains_key(long[n].job));
}

/// `entry` is among `taken`, as far as class and job go.
pub open spec fn takes(taken: Seq<ReadyEntry>, class: int, job: JobId) -> bool {
    exists|k: int|
        0 <= k < taken.len() && (#[trigger] taken[k]).class.rank() == class && taken[k].job == job
}

proof fn lemma_takes_last(taken: Seq<ReadyEntry>, class: int, job: JobId)
    requires
        taken.len() > 0,
    ensures
        takes(taken, class, job) <==> takes(taken.drop_last(), class, job) || (
        taken.last().class.rank() == class && taken.last().job == job),
{
    let rest = taken.drop_last();
    let n = taken.len() - 1;
    if takes(rest, class, job) {
        let k = choose|k: int|
            0 <= k < rest.len() && (#[trigger] rest[k]).class.rank() == class && rest[k].job == job;
        assert(taken[k].class.rank() == class && taken[k].job == job);
    }
    if taken.last().class.rank() == class && taken.last().job == job {
        assert(taken[n].class.rank() == class && taken[n].job == job);
    }
    if takes(taken, class, job) {
        let k = choose|k: int|
            0 <= k < taken.len() && (#[trigger] taken[k]).class.rank() == class && taken[k].job
                == job;
        if k < n {
            assert(rest[k].class.rank() == class && rest[k].job == job);
        }
    }
}

/// Each queue holds what it held before, without what was taken.
proof fn lemma_left_after_taking(queues: Queues, taken: Seq<ReadyEntry>, c: int, job: JobId)
    requires
        queues.len() == PriorityClass::COUNT,
        0 <= c < queues.len(),
    ensures
        after_taking(queues, taken)[c].contains_key(job) <==> queues[c].contains_key(job) && !takes(
            taken,
            c,
            job,
        ),
        after_taking(queues, taken)[c].contains_key(job) ==> after_taking(queues, taken)[c][job]
            == queues[c][job],
    decreases taken.len(),
{
    if taken.len() > 0 {
        lemma_left_after_taking(queues, taken.drop_last(), c, job);
        lemma_after_taking_len(queues, taken.drop_last());
        lemma_takes_last(taken, c, job);
        crate::domain::job::law_rank_determines_class(taken.last().class, taken.last().class);
    }
}

/// After a drain each queue holds what it held before, without what was taken.
/// Everything taken was queued at its score, and nothing is taken twice.
pub proof fn law_drain_takes_each_entry_once(queues: Queues, taken: Seq<ReadyEntry>)
    requires
        queues.len() == PriorityClass::COUNT,
        in_drain_order(queues, taken),
    ensures
        forall|k: int|
            0 <= k < taken.len() ==> {
                let entry = #[trigger] taken[k];
                &&& queues[entry.class.rank() as int].contains_key(entry.job)
                &&& queues[entry.class.rank() as int][entry.job] == entry.score
            },
        forall|i: int, j: int|
            0 <= i < j < taken.len() ==> !((#[trigger] taken[i]).class == (#[trigger] taken[j]).class
                && taken[i].job == taken[j].job),
        after_taking(queues, taken).len() == queues.len(),
        forall|c: int, job: JobId|
            0 <= c < queues.len() ==> (#[trigger] after_taking(queues, taken)[c].contains_key(job)
                <==> queues[c].contains_key(job) && !takes(taken, c, job)),
        forall|c: int, job: JobId|
            0 <= c < queues.len() && #[trigger] after_taking(queues, taken)[c].contains_key(job)
                ==> after_taking(queues, taken)[c][job] == queues[c][job],
{
    lemma_after_taking_len(queues, taken);
    assert forall|c: int, job: JobId| 0 <= c < queues.len() implies (
    #[trigger] after_taking(queues, taken)[c].contains_key(job) <==> queues[c].contains_key(job)
        && !takes(taken, c, job)) by {
        lemma_left_after_taking(queues, taken, c, job);
    }
    assert forall|c: int, job: JobId|
        0 <= c < queues.len() && #[trigger] after_taking(queues, taken)[c].contains_key(
            job,
        ) implies after_taking(queues, taken)[c][job] == queues[c][job] by {
        lemma_left_after_taking(queues, taken, c, job);
    }
    assert forall|k: int| 0 <= k < taken.len() implies {
        let entry = #[trigger] taken[k];
        &&& queues[entry.class.rank() as int].contains_key(entry.job)
        &&& queues[entry.class.rank() as int][entry.job] == entry.score
    } by {
        lemma_taken_was_queued(queues, taken, k);
    }
    assert forall|i: int, j: int| 0 <= i < j < taken.len() implies !((#[trigger] taken[i]).class == (
    #[trigger] taken[j]).class && taken[i].job == taken[j].job) by {
        lemma_taken_was_queued(queues, taken, j);
        if taken[i].class == taken[j].class && taken[i].job == taken[j].job {
            assert(taken.take(j)[i] == taken[i]);
            assert(takes(taken.take(j), taken[j].class.rank() as int, taken[j].job));
        }
    }
}

/// What is taken was queued, and had not been taken before.
proof fn lemma_taken_was_queued(queues: Queues, taken: Seq<ReadyEntry>, k: int)
    requires
        queues.len() == PriorityClass::COUNT,
        in_drain_order(queues, taken),
        0 <= k < taken.len(),
    ensures
        queues[taken[k].class.rank() as int].contains_key(taken[k].job),
        queues[taken[k].class.rank() as int][taken[k].job] == taken[k].score,
        !takes(taken.take(k), taken[k].class.rank() as int, taken[k].job),
{
    let c = taken[k].class.rank() as int;
    crate::domain::job::law_rank_determines_class(taken[k].class, taken[k].class);
    assert(is_next(after_taking(queues, taken.take(k)), taken[k]));
    lemma_left_after_taking(queues, taken.take(k), c, taken[k].job);
}

/// `a` goes before `b`: a higher class, or the same class and a higher rank.
pub open spec fn outranks(a: ReadyEntry, b: ReadyEntry) -> bool {
    ||| a.class.rank() > b.class.rank()
    ||| a.class == b.class && crate::policy::priority::order_rank(a.score, a.job)
        > crate::policy::priority::order_rank(b.score, b.job)
}

/// A drain gives entries out strictly from the highest down, class before score,
/// and everything given out goes before everything left behind.
pub proof fn law_drain_goes_from_the_top(queues: Queues, taken: Seq<ReadyEntry>)
    requires
        queues.len() == PriorityClass::COUNT,
        in_drain_order(queues, taken),
    ensures
        forall|i: int, j: int|
            0 <= i < j < taken.len() ==> outranks(#[trigger] taken[i], #[trigger] taken[j]),
        forall|i: int, left: ReadyEntry|
            0 <= i < taken.len() && after_taking(queues, taken)[left.class.rank() as int].contains_key(
                left.job,
            ) && after_taking(queues, taken)[left.class.rank() as int][left.job] == left.score
                ==> #[trigger] outranks(taken[i], left),
{
    law_drain_takes_each_entry_once(queues, taken);
    assert forall|i: int, j: int| 0 <= i < j < taken.len() implies outranks(
        #[trigger] taken[i],
        #[trigger] taken[j],
    ) by {
        if takes(taken.take(i + 1), taken[j].class.rank() as int, taken[j].job) {
            let k = choose|k: int|
                0 <= k < taken.take(i + 1).len() && (#[trigger] taken.take(i + 1)[k]).class.rank()
                    == taken[j].class.rank() && taken.take(i + 1)[k].job == taken[j].job;
            crate::domain::job::law_rank_determines_class(taken[k].class, taken[j].class);
            assert(taken.take(i + 1)[k] == taken[k]);
        }
        lemma_taken_outranks(queues, taken, i, taken[j]);
    }
    assert forall|i: int, left: ReadyEntry|
        0 <= i < taken.len() && after_taking(queues, taken)[left.class.rank() as int].contains_key(
            left.job,
        ) && after_taking(queues, taken)[left.class.rank() as int][left.job]
            == left.score implies #[trigger] outranks(taken[i], left) by {
        crate::domain::job::law_rank_determines_class(left.class, left.class);
        let c = left.class.rank() as int;
        assert(queues[c].contains_key(left.job) && !takes(taken, c, left.job));
        if takes(taken.take(i + 1), c, left.job) {
            let k = choose|k: int|
                0 <= k < taken.take(i + 1).len() && (#[trigger] taken.take(i + 1)[k]).class.rank()
                    == c && taken.take(i + 1)[k].job == left.job;
            assert(taken[k].class.rank() == c && taken[k].job == left.job);
        }
        lemma_taken_outranks(queues, taken, i, left);
    }
}

/// What is taken goes before everything that was queued and not taken earlier.
proof fn lemma_taken_outranks(queues: Queues, taken: Seq<ReadyEntry>, i: int, other: ReadyEntry)
    requires
        queues.len() == PriorityClass::COUNT,
        in_drain_order(queues, taken),
        0 <= i < taken.len(),
        queues[other.class.rank() as int].contains_key(other.job),
        queues[other.class.rank() as int][other.job] == other.score,
        !takes(taken.take(i + 1), other.class.rank() as int, other.job),
    ensures
        outranks(taken[i], other),
{
    let before = taken.take(i);
    let left = after_taking(queues, before);
    let c = other.class.rank() as int;
    crate::domain::job::law_rank_determines_class(other.class, taken[i].class);
    lemma_left_after_taking(queues, before, c, other.job);
    lemma_after_taking_len(queues, before);
    if takes(before, c, other.job) {
        let k = choose|k: int|
            0 <= k < before.len() && (#[trigger] before[k]).class.rank() == c && before[k].job
                == other.job;
        assert(taken.take(i + 1)[k] == before[k]);
    }
    assert(is_next(left, taken[i]));
    let ci = taken[i].class.rank() as int;
    if c > ci {
        assert(left[c] == Map::<JobId, Score>::empty());
    } else if c == ci {
        if other.job == taken[i].job {
            assert(taken.take(i + 1)[i] == taken[i]);
        } else {
            assert(rank_in(left[c], other.job) < rank_in(left[c], taken[i].job));
        }
    }
}

/// Returning what was just taken restores the queues.
pub proof fn law_reinsert_restores(queues: Queues, entry: ReadyEntry)
    requires
        queues.len() == PriorityClass::COUNT,
        is_next(queues, entry),
    ensures
        with_entry(without(queues, entry), entry) == queues,
{
    let c = entry.class.rank() as int;
    crate::domain::job::law_rank_determines_class(entry.class, entry.class);
    assert(queues[c].remove(entry.job).insert(entry.job, entry.score) =~= queues[c]);
    assert(with_entry(without(queues, entry), entry) =~= queues);
}

/// A queue that holds anything has a top.
proof fn lemma_top_exists(queue: Map<JobId, Score>) -> (top: JobId)
    requires
        queue.dom().finite(),
        queue.dom().len() > 0,
    ensures
        is_top(queue, top),
    decreases queue.dom().len(),
{
    broadcast use crate::domain::arena::group_job_id;

    let job = queue.dom().choose();
    let rest = queue.remove(job);
    assert(rest.dom() =~= queue.dom().remove(job));
    if rest.dom().len() == 0 {
        assert forall|other: JobId|
            queue.contains_key(other) && other != job implies #[trigger] rank_in(queue, other)
            < rank_in(queue, job) by {
            assert(rest.dom().contains(other));
        }
        job
    } else {
        let top = lemma_top_exists(rest);
        crate::policy::priority::law_order_is_total(queue[job], job, queue[top], top);
        let winner = if rank_in(queue, top) < rank_in(queue, job) {
            job
        } else {
            top
        };
        assert forall|other: JobId|
            queue.contains_key(other) && other != winner implies #[trigger] rank_in(queue, other)
            < rank_in(queue, winner) by {
            if other != job && other != top {
                assert(rest.contains_key(other));
                assert(rank_in(rest, other) < rank_in(rest, top));
            }
        }
        winner
    }
}

/// Queues that are finite can always be drained, in one way only: up to any limit
/// there is exactly one list of entries to take.
pub proof fn law_drain_is_determined(queues: Queues, limit: int)
    requires
        queues.len() == PriorityClass::COUNT,
        forall|c: int| 0 <= c < queues.len() ==> (#[trigger] queues[c]).dom().finite(),
        limit >= 0,
    ensures
        is_drain(queues, drained(queues, limit), limit),
        forall|taken: Seq<ReadyEntry>| #[trigger]
            is_drain(queues, taken, limit) ==> taken == drained(queues, limit),
{
    let taken = lemma_drain_exists(queues, limit);
    assert forall|other: Seq<ReadyEntry>| #[trigger] is_drain(
        queues,
        other,
        limit,
    ) implies other == drained(queues, limit) by {
        lemma_drain_unique(queues, other, limit);
    }
}

proof fn lemma_drain_exists(queues: Queues, limit: int) -> (taken: Seq<ReadyEntry>)
    requires
        queues.len() == PriorityClass::COUNT,
        forall|c: int| 0 <= c < queues.len() ==> (#[trigger] queues[c]).dom().finite(),
        limit >= 0,
    ensures
        is_drain(queues, taken, limit),
    decreases limit,
{
    if limit == 0 {
        let none = Seq::<ReadyEntry>::empty();
        assert(in_drain_order(queues, none));
        none
    } else {
        let before = lemma_drain_exists(queues, limit - 1);
        let left = after_taking(queues, before);
        law_drain_takes_each_entry_once(queues, before);
        if nothing_queued(left) {
            before
        } else {
            let next = lemma_next_exists(queues, left);
            let taken = before.push(next);
            assert(taken.drop_last() =~= before);
            assert forall|k: int| 0 <= k < taken.len() implies is_next(
                after_taking(queues, taken.take(k)),
                #[trigger] taken[k],
            ) by {
                if k < before.len() {
                    assert(taken.take(k) =~= before.take(k));
                    assert(is_next(after_taking(queues, before.take(k)), before[k]));
                } else {
                    assert(taken.take(k) =~= before);
                }
            }
            taken
        }
    }
}

/// Queues that are not all empty have a next entry.
proof fn lemma_next_exists(queues: Queues, left: Queues) -> (next: ReadyEntry)
    requires
        queues.len() == PriorityClass::COUNT,
        forall|c: int| 0 <= c < queues.len() ==> (#[trigger] queues[c]).dom().finite(),
        left.len() == queues.len(),
        forall|c: int, job: JobId|
            0 <= c < queues.len() && #[trigger] left[c].contains_key(job)
                ==> queues[c].contains_key(job),
        !nothing_queued(left),
    ensures
        is_next(left, next),
{
    let empty = Map::<JobId, Score>::empty();
    let class = if left[3] != empty {
        PriorityClass::Urgent
    } else if left[2] != empty {
        PriorityClass::High
    } else if left[1] != empty {
        PriorityClass::Normal
    } else {
        PriorityClass::Low
    };
    let c = class.rank() as int;
    assert(left[c] != empty);
    assert(left[c].dom().subset_of(queues[c].dom())) by {
        assert forall|job: JobId| left[c].dom().contains(job) implies queues[c].dom().contains(
            job,
        ) by {
            assert(left[c].contains_key(job));
        }
    }
    assert(queues[c].dom().finite());
    vstd::set_lib::lemma_set_subset_finite(queues[c].dom(), left[c].dom());
    assert(left[c].dom().len() > 0) by {
        if left[c].dom().len() == 0 {
            assert(left[c] =~= empty);
        }
    }
    let top = lemma_top_exists(left[c]);
    ReadyEntry { class, job: top, score: left[c][top] }
}

impl Clone for PriorityHeap {
    fn clone(&self) -> (copy: Self)
        ensures
            copy@ == self@,
            self.wf() ==> copy.wf(),
    {
        let scores: Vec<Score> = self.scores.clone();
        let ids: Vec<JobId> = self.ids.clone();
        let positions: Vec<u32> = self.positions.clone();
        proof {
            assert forall|i: int| 0 <= i < scores@.len() implies scores@[i] == self.scores@[i] by {
                assert(cloned::<Score>(self.scores@[i], scores@[i]));
            }
            assert forall|i: int| 0 <= i < ids@.len() implies ids@[i] == self.ids@[i] by {
                assert(cloned::<JobId>(self.ids@[i], ids@[i]));
            }
            assert forall|i: int| 0 <= i < positions@.len() implies positions@[i]
                == self.positions@[i] by {
                assert(cloned::<u32>(self.positions@[i], positions@[i]));
            }
            assert(scores@ =~= self.scores@);
            assert(ids@ =~= self.ids@);
            assert(positions@ =~= self.positions@);
        }
        let copy = PriorityHeap { scores, ids, positions };
        assert(copy@ =~= self@);
        copy
    }
}

impl Clone for ReadySet {
    fn clone(&self) -> (copy: Self)
        ensures
            copy@ == self@,
            self.wf() ==> copy.wf(),
    {
        let copy = ReadySet {
            buckets: [
                self.buckets[0].clone(),
                self.buckets[1].clone(),
                self.buckets[2].clone(),
                self.buckets[3].clone(),
            ],
        };
        assert(copy@ =~= self@);
        copy
    }
}

/// A queue that holds one handle per index has room for one more at a free index.
proof fn lemma_has_room(queue: Map<JobId, Score>, id: JobId)
    requires
        queue.dom().finite(),
        one_per_index(queue),
        index_free_for(queue, id),
        forall|j: JobId| #[trigger] queue.contains_key(j) ==> j.idx() < ABSENT,
        id.idx() < ABSENT,
    ensures
        queue.contains_key(id) || queue.dom().len() < ABSENT,
{
    if !queue.contains_key(id) {
        let f = |j: JobId| j.idx() as int;
        let all = vstd::set_lib::set_int_range(0, ABSENT as int).remove(id.idx() as int);
        vstd::set_lib::lemma_int_range(0, ABSENT as int);
        let image = queue.dom().map(f);
        assert(image.subset_of(all)) by {
            assert forall|x: int| image.contains(x) implies all.contains(x) by {
                let j = choose|j: JobId| queue.dom().contains(j) && f(j) == x;
                assert(queue.contains_key(j));
            }
        }
        vstd::set_lib::lemma_len_subset(image, all);
        assert(vstd::relations::injective_on(f, queue.dom())) by {
            assert forall|a: JobId, b: JobId|
                queue.dom().contains(a) && queue.dom().contains(b) && f(a) == f(b) implies a == b by {
                assert(queue.contains_key(a) && queue.contains_key(b));
            }
        }
        vstd::set_lib::lemma_map_size(queue.dom(), image, f);
    }
}

/// The top of a queue is the job with the highest score, the smallest handle among
/// equals.
pub proof fn law_top_is_the_highest_score_then_the_smallest_handle(
    queue: Map<JobId, Score>,
    job: JobId,
)
    ensures
        is_top(queue, job) <==> queue.contains_key(job) && forall|other: JobId| #[trigger]
            queue.contains_key(other) && other != job ==> queue[other] < queue[job] || (queue[other]
                == queue[job] && job@ < other@),
{
    if is_top(queue, job) {
        assert forall|other: JobId| #[trigger] queue.contains_key(other) && other != job implies (
        queue[other] < queue[job] || (queue[other] == queue[job] && job@ < other@)) by {
            assert(rank_in(queue, other) < rank_in(queue, job));
            crate::policy::priority::law_order_is_total(queue[other], other, queue[job], job);
        }
    }
    if queue.contains_key(job) && forall|other: JobId| #[trigger]
        queue.contains_key(other) && other != job ==> queue[other] < queue[job] || (queue[other]
            == queue[job] && job@ < other@) {
        assert forall|other: JobId|
            queue.contains_key(other) && other != job implies #[trigger] rank_in(queue, other)
            < rank_in(queue, job) by {
            crate::policy::priority::law_order_is_total(queue[other], other, queue[job], job);
        }
    }
}

/// The next entry of a ready set is of the highest class with anything queued, with the
/// highest score there, the smallest handle among equals.
pub proof fn law_next_is_the_highest_class_then_score(queues: Queues, entry: ReadyEntry)
    requires
        queues.len() == PriorityClass::COUNT,
    ensures
        is_next(queues, entry) <==> {
            let c = entry.class.rank() as int;
            &&& queues[c].contains_key(entry.job) && queues[c][entry.job] == entry.score
            &&& forall|d: int, other: JobId|
                c < d < queues.len() ==> !#[trigger] queues[d].contains_key(other)
            &&& forall|other: JobId| #[trigger]
                queues[c].contains_key(other) && other != entry.job ==> queues[c][other]
                    < entry.score || (queues[c][other] == entry.score && entry.job@ < other@)
        },
{
    let c = entry.class.rank() as int;
    law_top_is_the_highest_score_then_the_smallest_handle(queues[c], entry.job);
    if is_next(queues, entry) {
        assert forall|d: int, other: JobId| c < d < queues.len() implies !#[trigger] queues[d].contains_key(
            other,
        ) by {
            assert(queues[d] == Map::<JobId, Score>::empty());
        }
    }
    if forall|d: int, other: JobId|
        c < d < queues.len() ==> !#[trigger] queues[d].contains_key(other) {
        assert forall|d: int| c < d < queues.len() implies #[trigger] queues[d] == Map::<
            JobId,
            Score,
        >::empty() by {
            assert(queues[d] =~= Map::<JobId, Score>::empty());
        }
    }
}

/// Adding an entry sets its score in its class and changes nothing else; taking it
/// removes it from there and changes nothing else.
pub proof fn law_entries_come_and_go_alone(queues: Queues, entry: ReadyEntry, c: int, job: JobId)
    requires
        queues.len() == PriorityClass::COUNT,
        0 <= c < queues.len(),
    ensures
        ({
            let (up, down) = (with_entry(queues, entry), without(queues, entry));
            let here = c == entry.class.rank() && job == entry.job;
            &&& up.len() == queues.len() && down.len() == queues.len()
            &&& here ==> up[c].contains_key(job) && up[c][job] == entry.score
                && !down[c].contains_key(job)
            &&& !here ==> up[c].contains_key(job) == queues[c].contains_key(job)
                && down[c].contains_key(job) == queues[c].contains_key(job)
            &&& !here && queues[c].contains_key(job) ==> up[c][job] == queues[c][job]
                && down[c][job] == queues[c][job]
        }),
{
    crate::domain::job::law_rank_determines_class(entry.class, entry.class);
}

/// How many wait is the sum over the four classes, and nothing waits only if no class
/// holds anything.
pub proof fn law_waiting_adds_up_over_classes(queues: Queues)
    requires
        queues.len() == PriorityClass::COUNT,
    ensures
        queued(queues) == queues[0].dom().len() + queues[1].dom().len() + queues[2].dom().len()
            + queues[3].dom().len(),
        nothing_queued(queues) <==> forall|c: int, job: JobId|
            0 <= c < queues.len() ==> !#[trigger] queues[c].contains_key(job),
{
    if nothing_queued(queues) {
        assert forall|c: int, job: JobId| 0 <= c < queues.len() implies !#[trigger] queues[c].contains_key(
            job,
        ) by {
            assert(queues[c] == Map::<JobId, Score>::empty());
        }
    }
    if forall|c: int, job: JobId|
        0 <= c < queues.len() ==> !#[trigger] queues[c].contains_key(job) {
        assert forall|c: int| 0 <= c < queues.len() implies #[trigger] queues[c] == Map::<
            JobId,
            Score,
        >::empty() by {
            assert(queues[c] =~= Map::<JobId, Score>::empty());
        }
    }
}

} // verus!

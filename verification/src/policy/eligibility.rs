//! Dependency eligibility: a reverse index so completing a job wakes its
//! dependents in O(dependents) rather than a scan of every blocked job.
use crate::domain::arena;
use crate::domain::{Arena, Deps, Job, JobId, JobState};
use vstd::prelude::*;

verus! {

/// What `register` decided for a freshly submitted job.
#[derive(Clone, Copy, PartialEq, Eq, Debug, Structural)]
pub enum Readiness {
    Ready,
    Blocked,
    /// A dependency is already `Failed` or `Cancelled`; the job can never run.
    Cancelled,
}

/// A dependency handle did not resolve to a live job.
#[derive(Clone, Copy, PartialEq, Eq, Debug, Structural)]
pub struct DependencyError {
    pub job: JobId,
    pub dependency: JobId,
}

/// What the tracker keeps of one live job: how many of its dependencies are still
/// open, and which jobs wait for it.
pub struct Tracking {
    pub owner: JobId,
    pub unsatisfied: u32,
    pub dependents: Seq<JobId>,
}

/// What the tracker keeps, by arena index.
pub type Watch = Map<u32, Tracking>;

/// `id` is the live occupant of its index.
pub open spec fn watched(watch: Watch, id: JobId) -> bool {
    watch.contains_key(id.idx()) && watch[id.idx()].owner == id
}

/// A job that has just started to be tracked.
pub open spec fn fresh(id: JobId) -> Tracking {
    Tracking { owner: id, unsatisfied: 0, dependents: Seq::empty() }
}

/// `dep` is live and has not ended.
pub open spec fn pending(jobs: Map<JobId, Job>, dep: JobId) -> bool {
    jobs.contains_key(dep) && !jobs[dep].state.terminal()
}

/// How many of the first `n` dependencies are pending.
pub open spec fn pending_count(jobs: Map<JobId, Job>, deps: Seq<JobId>, n: int) -> nat
    decreases n,
{
    if n <= 0 {
        0
    } else {
        pending_count(jobs, deps, n - 1) + if pending(jobs, deps[n - 1]) {
            1nat
        } else {
            0nat
        }
    }
}

/// What becomes of a job with these dependencies, looking from the `i`-th on: the
/// first that names the job itself or no live job is an error, the first that
/// failed or was cancelled dooms the job, and otherwise it waits for the pending.
pub open spec fn classification(
    id: JobId,
    jobs: Map<JobId, Job>,
    deps: Seq<JobId>,
    i: int,
) -> Result<Readiness, DependencyError>
    decreases deps.len() - i,
{
    if i < 0 || i >= deps.len() {
        if pending_count(jobs, deps, deps.len() as int) == 0 {
            Ok(Readiness::Ready)
        } else {
            Ok(Readiness::Blocked)
        }
    } else if deps[i] == id || !jobs.contains_key(deps[i]) {
        Err(DependencyError { job: id, dependency: deps[i] })
    } else if jobs[deps[i]].state is Failed || jobs[deps[i]].state is Cancelled {
        Ok(Readiness::Cancelled)
    } else {
        classification(id, jobs, deps, i + 1)
    }
}

/// The tracker once `id` waits for `dep`. A dependency that was never registered
/// (seeded as already running, say) is adopted so its completion still fires.
pub open spec fn linked(watch: Watch, dep: JobId, id: JobId) -> Watch {
    let entry = if watched(watch, dep) {
        watch[dep.idx()]
    } else {
        fresh(dep)
    };
    watch.insert(dep.idx(), Tracking { dependents: entry.dependents.push(id), ..entry })
}

/// The tracker once `id` waits for the pending among the first `n` dependencies.
pub open spec fn linked_all(
    watch: Watch,
    id: JobId,
    jobs: Map<JobId, Job>,
    deps: Seq<JobId>,
    n: int,
) -> Watch
    decreases n,
{
    if n <= 0 {
        watch
    } else {
        let before = linked_all(watch, id, jobs, deps, n - 1);
        if pending(jobs, deps[n - 1]) {
            linked(before, deps[n - 1], id)
        } else {
            before
        }
    }
}

/// The tracker once `id` has been registered with these dependencies.
pub open spec fn registered(
    watch: Watch,
    id: JobId,
    jobs: Map<JobId, Job>,
    deps: Seq<JobId>,
) -> Watch {
    let waiting = linked_all(
        watch.insert(id.idx(), fresh(id)),
        id,
        jobs,
        deps,
        deps.len() as int,
    );
    waiting.insert(
        id.idx(),
        Tracking {
            unsatisfied: pending_count(jobs, deps, deps.len() as int) as u32,
            ..waiting[id.idx()]
        },
    )
}

/// A tracker, and the jobs that have just lost their last open dependency.
pub struct Settled {
    pub watch: Watch,
    pub promoted: Seq<JobId>,
}

/// One open dependency less for each of `dependents` in turn; those left with
/// none are promoted.
pub open spec fn settle(watch: Watch, dependents: Seq<JobId>) -> Settled
    decreases dependents.len(),
{
    if dependents.len() == 0 {
        Settled { watch, promoted: Seq::empty() }
    } else {
        let before = settle(watch, dependents.drop_last());
        let d = dependents.last();
        if watched(before.watch, d) && before.watch[d.idx()].unsatisfied > 0 {
            let left = (before.watch[d.idx()].unsatisfied - 1) as u32;
            Settled {
                watch: before.watch.insert(
                    d.idx(),
                    Tracking { unsatisfied: left, ..before.watch[d.idx()] },
                ),
                promoted: if left == 0 {
                    before.promoted.push(d)
                } else {
                    before.promoted
                },
            }
        } else {
            before
        }
    }
}

/// The tracker and the promotions once `id` has completed.
pub open spec fn completion(watch: Watch, id: JobId) -> Settled {
    if watched(watch, id) {
        let settled = settle(watch, watch[id.idx()].dependents);
        Settled { watch: settled.watch.remove(id.idx()), promoted: settled.promoted }
    } else {
        Settled { watch, promoted: Seq::empty() }
    }
}

/// The jobs met by following dependents from the top of `stack`, each once, in the
/// order they are met: a job is forgotten as soon as it is met.
pub open spec fn cascade_from(watch: Watch, stack: Seq<JobId>) -> Seq<JobId>
    decreases watch.dom().len(), stack.len(),
    when watch.dom().finite()
{
    if stack.len() == 0 {
        Seq::empty()
    } else {
        let current = stack.last();
        let rest = stack.drop_last();
        if watched(watch, current) {
            seq![current] + cascade_from(
                watch.remove(current.idx()),
                rest + watch[current.idx()].dependents,
            )
        } else {
            cascade_from(watch, rest)
        }
    }
}

/// Every job but `id`.
pub open spec fn other_than(id: JobId) -> spec_fn(JobId) -> bool {
    |j: JobId| j != id
}

/// The jobs that go down with `id`, in the order they are met.
pub open spec fn cascade_of(watch: Watch, id: JobId) -> Seq<JobId> {
    cascade_from(watch, seq![id]).filter(other_than(id))
}

/// The tracker once `id` and everything that goes down with it is forgotten.
pub open spec fn without_cascade(watch: Watch, id: JobId) -> Watch {
    forgotten(watch, cascade_from(watch, seq![id]))
}

/// The tracker once every job of `gone` has been forgotten.
pub open spec fn forgotten(watch: Watch, gone: Seq<JobId>) -> Watch {
    watch.remove_keys(gone.map_values(|id: JobId| id.idx()).to_set())
}

/// Sentinel: no live job occupies this index. Its own index lies past every table.
spec fn nobody() -> JobId {
    JobId::of_bits(u64::MAX)
}

fn no_owner() -> (id: JobId)
    ensures
        id == nobody(),
        id.idx() == u32::MAX,
{
    broadcast use arena::group_job_id;

    JobId::from_bits(u64::MAX)
}

proof fn lemma_nobody()
    ensures
        nobody().idx() == u32::MAX,
{
    broadcast use arena::group_job_id;

}

/// Side tables keyed by `JobId::index()`. `owner` guards every access so a
/// stale handle sharing an index with a live job is never mistaken for it.
#[derive(Debug)]
pub struct DependencyTracker {
    owner: Vec<JobId>,
    unsatisfied: Vec<u32>,
    dependents: Vec<Deps>,
    /// Work stack for the cascade; reused so cascading allocates nothing.
    stack: Vec<JobId>,
}

impl View for DependencyTracker {
    type V = Watch;

    closed spec fn view(&self) -> Watch {
        Map::new(
            |i: u32| i < self.owner@.len() && self.owner@[i as int] != nobody(),
            |i: u32|
                Tracking {
                    owner: self.owner@[i as int],
                    unsatisfied: self.unsatisfied@[i as int],
                    dependents: self.dependents@[i as int]@,
                },
        )
    }
}

impl DependencyTracker {
    /// The tables have one length, an owner sits at its own index, and every
    /// dependent has an index the tables cover.
    pub closed spec fn wf(&self) -> bool {
        &&& self.owner@.len() == self.unsatisfied@.len()
        &&& self.owner@.len() == self.dependents@.len()
        &&& self.owner@.len() <= u32::MAX
        &&& forall|i: int|
            0 <= i < self.owner@.len() && #[trigger] self.owner@[i] != nobody()
                ==> self.owner@[i].idx() == i
        &&& forall|i: int, k: int|
            0 <= i < self.dependents@.len() && 0 <= k < self.dependents@[i]@.len()
                ==> (#[trigger] self.dependents@[i]@[k]).idx() < self.owner@.len()
    }

    /// Every watched job is filed under its own arena index.
    pub proof fn lemma_filed_by_index(&self)
        requires
            self.wf(),
        ensures
            forall|i: u32| #[trigger] self@.contains_key(i) ==> self@[i].owner.idx() == i,
    {
    }

    /// How many arena indices the tables cover.
    pub closed spec fn slots(&self) -> nat {
        self.owner@.len()
    }

    /// An empty tracker.
    #[must_use]
    pub fn new() -> (tracker: Self)
        ensures
            tracker.wf(),
            tracker@ == Watch::empty(),
            tracker.slots() == 0,
    {
        let tracker = DependencyTracker {
            owner: Vec::new(),
            unsatisfied: Vec::new(),
            dependents: Vec::new(),
            stack: Vec::new(),
        };
        assert(tracker@ =~= Watch::empty());
        tracker
    }

    /// An empty tracker preallocated for `slots` arena indices.
    #[must_use]
    pub fn with_slots(slots: usize) -> (tracker: Self)
        requires
            slots <= u32::MAX,
        ensures
            tracker.wf(),
            tracker@ == Watch::empty(),
            tracker.slots() == slots,
    {
        let mut tracker = DependencyTracker::new();
        tracker.reserve_slots(slots);
        tracker
    }

    /// Grows every table to cover `slots` indices. Idempotent.
    pub fn reserve_slots(&mut self, slots: usize)
        requires
            old(self).wf(),
            slots <= u32::MAX,
        ensures
            final(self).wf(),
            final(self)@ == old(self)@,
            final(self).slots() == (if slots > old(self).slots() {
                slots as nat
            } else {
                old(self).slots()
            }),
    {
        while self.owner.len() < slots
            invariant
                self.wf(),
                slots <= u32::MAX,
                self@ == old(self)@,
                self.owner@.len() >= old(self).owner@.len(),
                self.owner@.len() > old(self).owner@.len() ==> self.owner@.len() <= slots,
            decreases slots - self.owner@.len(),
        {
            let ghost before = *self;
            self.owner.push(no_owner());
            self.unsatisfied.push(0);
            self.dependents.push(Deps::new());
            proof {
                assert forall|i: int, k: int|
                    0 <= i < self.dependents@.len() && 0 <= k
                        < self.dependents@[i]@.len() implies (#[trigger] self.dependents@[i]@[k]).idx()
                    < self.owner@.len() by {
                    if i < before.dependents@.len() {
                        assert(self.dependents@[i] == before.dependents@[i]);
                        assert(before.dependents@[i]@[k].idx() < before.owner@.len());
                    }
                }
                assert(self@ =~= before@);
            }
        }
    }

    /// True when `id` is the live occupant of its index.
    #[must_use]
    pub fn is_tracked(&self, id: JobId) -> (live: bool)
        requires
            self.wf(),
        ensures
            live == watched(self@, id),
    {
        proof {
            lemma_nobody();
        }
        let index: usize = id.index() as usize;
        index < self.owner.len() && self.owner[index] == id
    }

    /// Unsatisfied-dependency count, or `None` if `id` is not tracked.
    #[must_use]
    pub fn unsatisfied(&self, id: JobId) -> (count: Option<u32>)
        requires
            self.wf(),
        ensures
            count == (if watched(self@, id) {
                Some(self@[id.idx()].unsatisfied)
            } else {
                None
            }),
    {
        if self.is_tracked(id) {
            Some(self.unsatisfied[id.index() as usize])
        } else {
            None
        }
    }

    fn clear_index(&mut self, index: usize)
        requires
            old(self).wf(),
            index < old(self).slots(),
        ensures
            final(self).wf(),
            final(self)@ == old(self)@.remove(index as u32),
            final(self).slots() == old(self).slots(),
            final(self).dependents@[index as int]@ == Seq::<JobId>::empty(),
            final(self).unsatisfied@[index as int] == 0,
            final(self).stack@ == old(self).stack@,
    {
        let ghost before = *self;
        self.owner[index] = no_owner();
        self.unsatisfied[index] = 0;
        self.dependents[index].clear();
        proof {
            assert forall|i: int, k: int|
                0 <= i < self.dependents@.len() && 0 <= k
                    < self.dependents@[i]@.len() implies (#[trigger] self.dependents@[i]@[k]).idx()
                < self.owner@.len() by {
                if i != index {
                    assert(self.dependents@[i] == before.dependents@[i]);
                    assert(before.dependents@[i]@[k].idx() < before.owner@.len());
                }
            }
            assert(self@ =~= before@.remove(index as u32));
        }
    }

    /// Makes `id` the occupant of its index, with nothing kept of it yet.
    fn claim(&mut self, id: JobId)
        requires
            old(self).wf(),
            id.idx() < old(self).slots(),
        ensures
            final(self).wf(),
            final(self)@ == old(self)@.insert(id.idx(), fresh(id)),
            final(self).slots() == old(self).slots(),
    {
        let index: usize = id.index() as usize;
        proof {
            lemma_nobody();
        }
        self.clear_index(index);
        let ghost before = *self;
        self.owner[index] = id;
        proof {
            assert forall|i: int, k: int|
                0 <= i < self.dependents@.len() && 0 <= k
                    < self.dependents@[i]@.len() implies (#[trigger] self.dependents@[i]@[k]).idx()
                < self.owner@.len() by {
                assert(before.dependents@[i]@[k].idx() < before.owner@.len());
            }
            assert(self@ =~= before@.insert(id.idx(), fresh(id)));
        }
    }

    /// Records that `id` waits for `dep`.
    fn link(&mut self, dep: JobId, id: JobId)
        requires
            old(self).wf(),
            dep.idx() < old(self).slots(),
            id.idx() < old(self).slots(),
        ensures
            final(self).wf(),
            final(self)@ == linked(old(self)@, dep, id),
            final(self).slots() == old(self).slots(),
    {
        if !self.is_tracked(dep) {
            self.claim(dep);
        }
        let ghost before = *self;
        let index: usize = dep.index() as usize;
        self.dependents[index].push(id);
        proof {
            assert forall|i: int, k: int|
                0 <= i < self.dependents@.len() && 0 <= k
                    < self.dependents@[i]@.len() implies (#[trigger] self.dependents@[i]@[k]).idx()
                < self.owner@.len() by {
                if k < before.dependents@[i]@.len() {
                    assert(before.dependents@[i]@[k].idx() < before.owner@.len());
                }
            }
            lemma_nobody();
            let entry = before@[dep.idx()];
            assert(self@ =~= before@.insert(
                dep.idx(),
                Tracking { dependents: entry.dependents.push(id), ..entry },
            ));
            assert(self@ =~= linked(old(self)@, dep, id));
        }
    }

    /// Validates and classifies a job without mutating, so a caller can reject it
    /// before it enters the arena.
    ///
    /// # Errors
    /// `DependencyError` for the first dependency that does not resolve.
    pub fn classify(&self, id: JobId, job: &Job, jobs: &Arena<Job>) -> (verdict: Result<
        Readiness,
        DependencyError,
    >)
        ensures
            verdict == classification(id, jobs@, job.deps@, 0),
    {
        let mut waiting: bool = false;
        let mut i: usize = 0;
        let count: usize = job.deps.len();
        while i < count
            invariant
                i <= count == job.deps@.len(),
                waiting == (pending_count(jobs@, job.deps@, i as int) > 0),
                classification(id, jobs@, job.deps@, 0) == classification(
                    id,
                    jobs@,
                    job.deps@,
                    i as int,
                ),
            decreases count - i,
        {
            let dep: JobId = job.deps.at(i);
            // A job could name the id it is about to receive: a cycle of length one.
            if dep == id {
                return Err(DependencyError { job: id, dependency: dep });
            }
            let Some(target) = jobs.get(dep) else {
                return Err(DependencyError { job: id, dependency: dep });
            };
            match target.state {
                JobState::Completed => {},
                JobState::Failed | JobState::Cancelled => {
                    return Ok(Readiness::Cancelled);
                },
                _ => {
                    waiting = true;
                },
            }
            i += 1;
        }
        if waiting {
            Ok(Readiness::Blocked)
        } else {
            Ok(Readiness::Ready)
        }
    }

    /// Records `job`'s dependencies and classifies it. Every dependency must be
    /// a live job other than itself. Leaves no reverse edges behind when the
    /// result is `Cancelled` or an error.
    ///
    /// # Errors
    /// `DependencyError` for the first dependency that does not resolve.
    pub fn register(&mut self, id: JobId, job: &Job, jobs: &Arena<Job>) -> (verdict: Result<
        Readiness,
        DependencyError,
    >)
        requires
            old(self).wf(),
            id.idx() < u32::MAX,
            jobs.states().len() <= u32::MAX,
            job.deps@.len() <= u32::MAX,
        ensures
            final(self).wf(),
            verdict == classification(id, jobs@, job.deps@, 0),
            final(self)@ == (if verdict matches Ok(readiness) && !(readiness is Cancelled) {
                registered(old(self)@, id, jobs@, job.deps@)
            } else {
                old(self)@
            }),
    {
        let readiness = match self.classify(id, job, jobs) {
            Ok(readiness) => readiness,
            Err(error) => {
                return Err(error);
            },
        };
        // A doomed job leaves no reverse edges behind.
        if matches!(readiness, Readiness::Cancelled) {
            return Ok(readiness);
        }
        self.reserve_slots(id.index() as usize + 1);
        self.claim(id);
        let ghost start = self@;
        let mut count: u32 = 0;
        let mut i: usize = 0;
        let deps: usize = job.deps.len();
        while i < deps
            invariant
                i <= deps == job.deps@.len() <= u32::MAX,
                self.wf(),
                id.idx() < self.slots(),
                jobs.states().len() <= u32::MAX,
                count <= i,
                count == pending_count(jobs@, job.deps@, i as int),
                self@ == linked_all(start, id, jobs@, job.deps@, i as int),
            decreases deps - i,
        {
            let dep: JobId = job.deps.at(i);
            // Only live, non-terminal deps get a reverse edge; completed ones never fire.
            let open: bool = match jobs.get(dep) {
                Some(target) => !target.state.is_terminal(),
                None => false,
            };
            if open {
                count += 1;
                self.reserve_slots(dep.index() as usize + 1);
                self.link(dep, id);
            }
            i += 1;
        }
        let ghost before = *self;
        let index: usize = id.index() as usize;
        self.unsatisfied[index] = count;
        proof {
            lemma_linked_all_keeps(start, id, jobs@, job.deps@, deps as int);
            assert(self@ =~= registered(old(self)@, id, jobs@, job.deps@));
        }
        Ok(readiness)
    }

    /// Decrements each dependent's count; those reaching zero are appended to
    /// `promoted`. Retires `id` afterwards.
    pub fn on_completed(&mut self, id: JobId, promoted: &mut Vec<JobId>)
        requires
            old(self).wf(),
        ensures
            final(self).wf(),
            final(self)@ == completion(old(self)@, id).watch,
            final(promoted)@ == old(promoted)@ + completion(old(self)@, id).promoted,
    {
        let index: usize = id.index() as usize;
        if !self.is_tracked(id) {
            assert(promoted@ =~= old(promoted)@ + Seq::<JobId>::empty());
            return;
        }
        let ghost waiting = self@[id.idx()].dependents;
        let count: usize = self.dependents[index].len();
        let mut k: usize = 0;
        proof {
            assert(waiting.take(0) =~= Seq::<JobId>::empty());
            assert(promoted@ =~= old(promoted)@ + Seq::<JobId>::empty());
        }
        while k < count
            invariant
                self.wf(),
                index == id.idx(),
                index < self.slots(),
                k <= count == waiting.len(),
                self.dependents@ == old(self).dependents@,
                self.dependents@[index as int]@ == waiting,
                self@ == settle(old(self)@, waiting.take(k as int)).watch,
                promoted@ == old(promoted)@ + settle(
                    old(self)@,
                    waiting.take(k as int),
                ).promoted,
            decreases count - k,
        {
            let dependent: JobId = self.dependents[index].at(k);
            let d: usize = dependent.index() as usize;
            let ghost before = *self;
            proof {
                lemma_nobody();
                assert(waiting.take(k + 1).drop_last() =~= waiting.take(k as int));
            }
            // A mismatch means the dependent has been retired or its handle is stale.
            if self.owner[d] == dependent {
                let open: u32 = self.unsatisfied[d];
                if open > 0 {
                    self.unsatisfied[d] = open - 1;
                    proof {
                        assert(self@ =~= before@.insert(
                            dependent.idx(),
                            Tracking {
                                unsatisfied: (open - 1) as u32,
                                ..before@[dependent.idx()]
                            },
                        ));
                    }
                    if open == 1 {
                        promoted.push(dependent);
                    }
                }
            }
            proof {
                assert(promoted@ =~= old(promoted)@ + settle(
                    old(self)@,
                    waiting.take(k + 1),
                ).promoted);
            }
            k += 1;
        }
        proof {
            assert(waiting.take(count as int) =~= waiting);
        }
        self.clear_index(index);
    }

    /// Appends every transitive dependent of `id` to `cascade`, each at most
    /// once, and retires all of them plus `id`. Iterative; no recursion.
    pub fn on_terminated(&mut self, id: JobId, cascade: &mut Vec<JobId>)
        requires
            old(self).wf(),
        ensures
            final(self).wf(),
            final(self)@ == without_cascade(old(self)@, id),
            final(cascade)@ == old(cascade)@ + cascade_of(old(self)@, id),
    {
        self.stack.clear();
        self.stack.push(id);
        let ghost whole = cascade_from(old(self)@, seq![id]);
        let ghost others = other_than(id);
        let ghost mut met = Seq::<JobId>::empty();
        proof {
            lemma_watch_finite(self@);
            assert(self.stack@ =~= seq![id]);
            assert(met + whole =~= whole);
            reveal_with_fuel(Seq::filter, 1);
            assert(met.filter(others) =~= Seq::<JobId>::empty());
            assert(cascade@ =~= old(cascade)@ + met.filter(others));
            assert(self@ =~= forgotten(old(self)@, met));
        }
        while self.stack.len() > 0
            invariant
                self.wf(),
                self@.dom().finite(),
                old(self)@.dom().finite(),
                others == other_than(id),
                whole == met + cascade_from(self@, self.stack@),
                self@ == forgotten(old(self)@, met),
                cascade@ == old(cascade)@ + met.filter(others),
            decreases self@.dom().len(), self.stack@.len(),
        {
            let ghost waiting = self.stack@;
            let ghost before = *self;
            let current: JobId = match self.stack.pop() {
                Some(current) => current,
                None => id,
            };
            proof {
                assert(self.stack@ =~= waiting.drop_last());
                assert(self@ =~= before@);
            }
            // A mismatch means the job was already visited, or the handle is stale.
            if self.is_tracked(current) {
                if current != id {
                    cascade.push(current);
                }
                let index: usize = current.index() as usize;
                let ghost next = self@[current.idx()].dependents;
                let count: usize = self.dependents[index].len();
                let mut k: usize = 0;
                proof {
                    assert(waiting.drop_last() + next.take(0) =~= waiting.drop_last());
                }
                while k < count
                    invariant
                        self.wf(),
                        index == current.idx(),
                        index < self.slots(),
                        k <= count == next.len(),
                        self@ == before@,
                        self.dependents@ == before.dependents@,
                        self.dependents@[index as int]@ == next,
                        self.stack@ == waiting.drop_last() + next.take(k as int),
                    decreases count - k,
                {
                    let dependent: JobId = self.dependents[index].at(k);
                    self.stack.push(dependent);
                    proof {
                        assert(next.take(k + 1) =~= next.take(k as int).push(dependent));
                        assert(self.stack@ =~= waiting.drop_last() + next.take(k + 1));
                        assert(self@ =~= before@);
                    }
                    k += 1;
                }
                // Marks visited: a second path to this job is skipped.
                self.clear_index(index);
                proof {
                    assert(next.take(count as int) =~= next);
                    let more = met.push(current);
                    met.lemma_filter_push(current, others);
                    assert(met + cascade_from(before@, waiting) =~= more + cascade_from(
                        self@,
                        self.stack@,
                    ));
                    assert(cascade@ =~= old(cascade)@ + more.filter(others));
                    lemma_forget_one_more(old(self)@, met, current);
                    met = more;
                }
            }
        }
        proof {
            assert(met + Seq::<JobId>::empty() =~= met);
        }
    }

    /// Forgets `id`. Safe to call for untracked handles.
    pub fn retire(&mut self, id: JobId)
        requires
            old(self).wf(),
        ensures
            final(self).wf(),
            final(self)@ == (if watched(old(self)@, id) {
                old(self)@.remove(id.idx())
            } else {
                old(self)@
            }),
    {
        if self.is_tracked(id) {
            self.clear_index(id.index() as usize);
        }
    }
}

impl Default for DependencyTracker {
    fn default() -> (tracker: Self)
        ensures
            tracker.wf(),
            tracker@ == Watch::empty(),
    {
        DependencyTracker::new()
    }
}

/// There are finitely many arena indices.
pub(crate) proof fn lemma_watch_finite(watch: Watch)
    ensures
        watch.dom().finite(),
{
    broadcast use vstd::set_lib::full_set_properties;

    assert(watch.dom().subset_of(Set::<u32>::full()));
    vstd::set_lib::lemma_set_subset_finite(Set::<u32>::full(), watch.dom());
}

/// Linking never removes an index, and keeps the occupant and count of `id`'s
/// index unless a dependency takes that index over.
proof fn lemma_linked_all_keeps(
    watch: Watch,
    id: JobId,
    jobs: Map<JobId, Job>,
    deps: Seq<JobId>,
    n: int,
)
    ensures
        watch.dom().subset_of(linked_all(watch, id, jobs, deps, n).dom()),
    decreases n,
{
    if n > 0 {
        lemma_linked_all_keeps(watch, id, jobs, deps, n - 1);
    }
}

proof fn lemma_forget_one_more(watch: Watch, gone: Seq<JobId>, id: JobId)
    ensures
        forgotten(watch, gone.push(id)) == forgotten(watch, gone).remove(id.idx()),
{
    let f = |j: JobId| j.idx();
    let a = gone.map_values(f);
    let b = gone.push(id).map_values(f);
    assert(b =~= a.push(id.idx()));
    assert(b.to_set() =~= a.to_set().insert(id.idx())) by {
        a.lemma_push_to_set_commute(id.idx());
    }
    assert(forgotten(watch, gone.push(id)) =~= forgotten(watch, gone).remove(id.idx()));
}

impl Clone for DependencyTracker {
    fn clone(&self) -> (copy: Self)
        ensures
            copy.slots() == self.slots(),
            self.wf() ==> copy@ == self@ && copy.wf(),
    {
        let owner: Vec<JobId> = self.owner.clone();
        let unsatisfied: Vec<u32> = self.unsatisfied.clone();
        let dependents: Vec<Deps> = self.dependents.clone();
        proof {
            assert forall|i: int| 0 <= i < owner@.len() implies owner@[i] == self.owner@[i] by {
                assert(cloned::<JobId>(self.owner@[i], owner@[i]));
            }
            assert forall|i: int| 0 <= i < unsatisfied@.len() implies unsatisfied@[i]
                == self.unsatisfied@[i] by {
                assert(cloned::<u32>(self.unsatisfied@[i], unsatisfied@[i]));
            }
            assert forall|i: int| 0 <= i < dependents@.len() implies (#[trigger] dependents@[i])@
                == self.dependents@[i]@ by {
                assert(cloned::<Deps>(self.dependents@[i], dependents@[i]));
            }
            assert(owner@ =~= self.owner@);
            assert(unsatisfied@ =~= self.unsatisfied@);
        }
        let copy = DependencyTracker { owner, unsatisfied, dependents, stack: self.stack.clone() };
        proof {
            if self.wf() {
                assert forall|i: u32| #[trigger] copy@.contains_key(i) implies copy@[i]
                    == self@[i] by {}
                assert(copy@ =~= self@);
            }
        }
        copy
    }
}

/// A dependency that neither decides the matter nor stands in the way: another live
/// job that has neither failed nor been cancelled.
pub open spec fn hopeful(id: JobId, jobs: Map<JobId, Job>, dep: JobId) -> bool {
    &&& dep != id
    &&& jobs.contains_key(dep)
    &&& jobs[dep].state != JobState::Failed
    &&& jobs[dep].state != JobState::Cancelled
}

proof fn lemma_classification(id: JobId, jobs: Map<JobId, Job>, deps: Seq<JobId>, i: int)
    requires
        0 <= i <= deps.len(),
        forall|j: int| 0 <= j < i ==> hopeful(id, jobs, #[trigger] deps[j]),
    ensures
        match classification(id, jobs, deps, i) {
            Ok(Readiness::Ready) => forall|j: int|
                0 <= j < deps.len() ==> (#[trigger] deps[j]) != id && jobs.contains_key(deps[j])
                    && jobs[deps[j]].state == JobState::Completed,
            Ok(Readiness::Blocked) => {
                &&& forall|j: int| 0 <= j < deps.len() ==> hopeful(id, jobs, #[trigger] deps[j])
                &&& exists|j: int|
                    0 <= j < deps.len() && jobs[#[trigger] deps[j]].state != JobState::Completed
            },
            Ok(Readiness::Cancelled) => exists|k: int|
                {
                    &&& 0 <= k < deps.len()
                    &&& (#[trigger] deps[k]) != id && jobs.contains_key(deps[k])
                    &&& jobs[deps[k]].state == JobState::Failed || jobs[deps[k]].state
                        == JobState::Cancelled
                    &&& forall|j: int| 0 <= j < k ==> hopeful(id, jobs, #[trigger] deps[j])
                },
            Err(error) => exists|k: int|
                {
                    &&& 0 <= k < deps.len()
                    &&& (#[trigger] deps[k]) == id || !jobs.contains_key(deps[k])
                    &&& error.job == id && error.dependency == deps[k]
                    &&& forall|j: int| 0 <= j < k ==> hopeful(id, jobs, #[trigger] deps[j])
                },
        },
    decreases deps.len() - i,
{
    if i < deps.len() {
        if hopeful(id, jobs, deps[i]) {
            lemma_classification(id, jobs, deps, i + 1);
        } else {
            assert(deps[i] == deps[i]);
        }
    } else {
        lemma_pending_count(jobs, deps, deps.len() as int);
        if pending_count(jobs, deps, deps.len() as int) == 0 {
            assert forall|j: int| 0 <= j < deps.len() implies (#[trigger] deps[j]) != id
                && jobs.contains_key(deps[j]) && jobs[deps[j]].state == JobState::Completed by {
                assert(hopeful(id, jobs, deps[j]));
                assert(!pending(jobs, deps[j]));
            }
        } else {
            let j = choose|j: int| 0 <= j < deps.len() && pending(jobs, #[trigger] deps[j]);
            assert(jobs[deps[j]].state != JobState::Completed);
        }
    }
}

/// Nothing is counted exactly when nothing is open.
pub(crate) proof fn lemma_pending_count(jobs: Map<JobId, Job>, deps: Seq<JobId>, n: int)
    requires
        0 <= n <= deps.len(),
    ensures
        pending_count(jobs, deps, n) == 0 <==> forall|j: int|
            0 <= j < n ==> !pending(jobs, #[trigger] deps[j]),
        pending_count(jobs, deps, n) <= n,
    decreases n,
{
    if n > 0 {
        lemma_pending_count(jobs, deps, n - 1);
        assert(deps[n - 1] == deps[n - 1]);
    }
}

/// What becomes of a job goes by its dependencies in order. The first that is the job
/// itself or no live job is reported; the first that failed or was cancelled dooms the
/// job; whichever of these comes first decides. Without one, the job is ready when all
/// its dependencies have completed, and waits while one has not.
pub proof fn law_classification_goes_by_the_first_bad_dependency(
    id: JobId,
    jobs: Map<JobId, Job>,
    deps: Seq<JobId>,
)
    ensures
        match classification(id, jobs, deps, 0) {
            Ok(Readiness::Ready) => forall|j: int|
                0 <= j < deps.len() ==> (#[trigger] deps[j]) != id && jobs.contains_key(deps[j])
                    && jobs[deps[j]].state == JobState::Completed,
            Ok(Readiness::Blocked) => {
                &&& forall|j: int| 0 <= j < deps.len() ==> hopeful(id, jobs, #[trigger] deps[j])
                &&& exists|j: int|
                    0 <= j < deps.len() && jobs[#[trigger] deps[j]].state != JobState::Completed
            },
            Ok(Readiness::Cancelled) => exists|k: int|
                {
                    &&& 0 <= k < deps.len()
                    &&& (#[trigger] deps[k]) != id && jobs.contains_key(deps[k])
                    &&& jobs[deps[k]].state == JobState::Failed || jobs[deps[k]].state
                        == JobState::Cancelled
                    &&& forall|j: int| 0 <= j < k ==> hopeful(id, jobs, #[trigger] deps[j])
                },
            Err(error) => exists|k: int|
                {
                    &&& 0 <= k < deps.len()
                    &&& (#[trigger] deps[k]) == id || !jobs.contains_key(deps[k])
                    &&& error.job == id && error.dependency == deps[k]
                    &&& forall|j: int| 0 <= j < k ==> hopeful(id, jobs, #[trigger] deps[j])
                },
        },
{
    lemma_classification(id, jobs, deps, 0);
}

/// A dependency is open while it is live and has not ended; the open ones are counted
/// once for every time they are named.
pub proof fn law_open_dependencies_are_counted(jobs: Map<JobId, Job>, deps: Seq<JobId>, n: int)
    requires
        0 <= n < deps.len(),
    ensures
        pending(jobs, deps[n]) <==> jobs.contains_key(deps[n]) && jobs[deps[n]].state
            != JobState::Completed && jobs[deps[n]].state != JobState::Failed
            && jobs[deps[n]].state != JobState::Cancelled,
        pending_count(jobs, deps, 0) == 0,
        pending_count(jobs, deps, n + 1) == pending_count(jobs, deps, n) + (if pending(
            jobs,
            deps[n],
        ) {
            1nat
        } else {
            0nat
        }),
        pending_count(jobs, deps, n) == 0 <==> forall|j: int|
            0 <= j < n ==> !pending(jobs, #[trigger] deps[j]),
{
    lemma_pending_count(jobs, deps, n);
}

} // verus!

//! What the dependency tracker promises as a whole: a cascade reaches exactly the
//! transitive dependents, and completions wake exactly the jobs that a scan of
//! every blocked job would wake.
use crate::domain::{Job, JobId, JobState};
use crate::policy::eligibility;
use crate::policy::eligibility::Watch;
use vstd::prelude::*;

verus! {

/// Every entry sits at its owner's index.
pub open spec fn well_keyed(watch: Watch) -> bool {
    forall|i: u32| #[trigger] watch.contains_key(i) ==> watch[i].owner.idx() == i
}

/// `b` waits for `a`.
pub open spec fn waits_for(watch: Watch, a: JobId, b: JobId) -> bool {
    watch[a.idx()].dependents.contains(b)
}

/// A chain of watched jobs, each waiting for the one before it.
pub open spec fn is_chain(watch: Watch, chain: Seq<JobId>) -> bool {
    &&& chain.len() > 0
    &&& forall|i: int| 0 <= i < chain.len() ==> eligibility::watched(watch, #[trigger] chain[i])
    &&& forall|i: int|
        0 <= i < chain.len() - 1 ==> #[trigger] waits_for(watch, chain[i], chain[i + 1])
}

/// `to` is `from` itself or waits for it, directly or through others.
pub open spec fn depends_on(watch: Watch, to: JobId, from: JobId) -> bool {
    exists|chain: Seq<JobId>| #[trigger]
        is_chain(watch, chain) && chain[0] == from && chain.last() == to
}

/// `to` depends on some job of the stack.
spec fn depends_on_any(watch: Watch, to: JobId, stack: Seq<JobId>) -> bool {
    exists|s: int| 0 <= s < stack.len() && depends_on(watch, to, #[trigger] stack[s])
}

/// Only watched jobs are met, each once.
proof fn lemma_cascade_is_watched(watch: Watch, stack: Seq<JobId>)
    ensures
        forall|j: JobId| #[trigger]
            eligibility::cascade_from(watch, stack).contains(j) ==> eligibility::watched(watch, j),
        eligibility::cascade_from(watch, stack).no_duplicates(),
    decreases watch.dom().len(), stack.len(),
{
    eligibility::lemma_watch_finite(watch);
    let met = eligibility::cascade_from(watch, stack);
    if stack.len() > 0 {
        let current = stack.last();
        let rest = stack.drop_last();
        if eligibility::watched(watch, current) {
            let smaller = watch.remove(current.idx());
            let more = rest + watch[current.idx()].dependents;
            lemma_cascade_is_watched(smaller, more);
            let tail = eligibility::cascade_from(smaller, more);
            assert(met =~= seq![current] + tail);
            assert forall|j: JobId| #[trigger] met.contains(j) implies eligibility::watched(watch, j) by {
                let i = choose|i: int| 0 <= i < met.len() && met[i] == j;
                if i > 0 {
                    assert(tail[i - 1] == j);
                    assert(tail.contains(j));
                }
            }
            assert forall|a: int, b: int| 0 <= a < met.len() && 0 <= b < met.len() && a != b implies met[a]
                != met[b] by {
                if a == 0 {
                    assert(tail.contains(tail[b - 1]));
                    assert(eligibility::watched(smaller, tail[b - 1]));
                } else if b == 0 {
                    assert(tail.contains(tail[a - 1]));
                    assert(eligibility::watched(smaller, tail[a - 1]));
                } else {
                    assert(tail[a - 1] != tail[b - 1]);
                }
            }
        } else {
            lemma_cascade_is_watched(watch, rest);
        }
    }
}

/// What is met depends on something on the stack.
proof fn lemma_cascade_sound(watch: Watch, stack: Seq<JobId>, j: JobId)
    requires
        eligibility::cascade_from(watch, stack).contains(j),
    ensures
        depends_on_any(watch, j, stack),
    decreases watch.dom().len(), stack.len(),
{
    eligibility::lemma_watch_finite(watch);
    if stack.len() > 0 {
        let current = stack.last();
        let rest = stack.drop_last();
        let top = stack.len() - 1;
        if eligibility::watched(watch, current) {
            let smaller = watch.remove(current.idx());
            let waiting = watch[current.idx()].dependents;
            let more = rest + waiting;
            let tail = eligibility::cascade_from(smaller, more);
            let met = eligibility::cascade_from(watch, stack);
            assert(met =~= seq![current] + tail);
            let i = choose|i: int| 0 <= i < met.len() && met[i] == j;
            if i == 0 {
                let chain = seq![current];
                assert(is_chain(watch, chain));
                assert(depends_on(watch, j, stack[top]));
            } else {
                assert(tail[i - 1] == j);
                assert(tail.contains(j));
                lemma_cascade_sound(smaller, more, j);
                let s = choose|s: int|
                    0 <= s < more.len() && depends_on(smaller, j, #[trigger] more[s]);
                let chain = choose|chain: Seq<JobId>| #[trigger]
                    is_chain(smaller, chain) && chain[0] == more[s] && chain.last() == j;
                lemma_chain_widens(watch, current, chain);
                if s < rest.len() {
                    assert(stack[s] == more[s]);
                    assert(depends_on(watch, j, stack[s]));
                } else {
                    let longer = seq![current] + chain;
                    assert(waiting[s - rest.len()] == chain[0]);
                    assert(waits_for(watch, current, chain[0]));
                    assert forall|i: int| 0 <= i < longer.len() - 1 implies #[trigger] waits_for(
                        watch,
                        longer[i],
                        longer[i + 1],
                    ) by {
                        if i > 0 {
                            let p = i - 1;
                            assert(waits_for(watch, chain[p], chain[p + 1]));
                        }
                    }
                    assert(is_chain(watch, longer));
                    assert(longer[0] == stack[top] && longer.last() == j);
                    assert(depends_on(watch, j, stack[top]));
                }
            }
        } else {
            lemma_cascade_sound(watch, rest, j);
            let s = choose|s: int| 0 <= s < rest.len() && depends_on(watch, j, #[trigger] rest[s]);
            assert(stack[s] == rest[s]);
        }
    }
}

/// A chain in a watch without one job is a chain in the watch.
proof fn lemma_chain_widens(watch: Watch, gone: JobId, chain: Seq<JobId>)
    requires
        is_chain(watch.remove(gone.idx()), chain),
    ensures
        is_chain(watch, chain),
{
    let smaller = watch.remove(gone.idx());
    assert forall|i: int| 0 <= i < chain.len() implies eligibility::watched(watch, #[trigger] chain[i]) by {
        assert(eligibility::watched(smaller, chain[i]));
    }
    assert forall|i: int| 0 <= i < chain.len() - 1 implies #[trigger] waits_for(
        watch,
        chain[i],
        chain[i + 1],
    ) by {
        assert(eligibility::watched(smaller, chain[i]));
        assert(waits_for(smaller, chain[i], chain[i + 1]));
    }
}

/// A chain that avoids a watched job is a chain without that job.
proof fn lemma_chain_narrows(watch: Watch, gone: JobId, chain: Seq<JobId>)
    requires
        is_chain(watch, chain),
        eligibility::watched(watch, gone),
        forall|i: int| 0 <= i < chain.len() ==> #[trigger] chain[i] != gone,
    ensures
        is_chain(watch.remove(gone.idx()), chain),
{
    let smaller = watch.remove(gone.idx());
    assert forall|i: int| 0 <= i < chain.len() implies eligibility::watched(smaller, #[trigger] chain[i]) by {
        assert(eligibility::watched(watch, chain[i]));
    }
    assert forall|i: int| 0 <= i < chain.len() - 1 implies #[trigger] waits_for(
        smaller,
        chain[i],
        chain[i + 1],
    ) by {
        assert(waits_for(watch, chain[i], chain[i + 1]));
        assert(eligibility::watched(smaller, chain[i]));
    }
}

/// Where a job occurs last in a chain, below `n`.
proof fn lemma_last_occurrence(chain: Seq<JobId>, job: JobId, n: int) -> (at: Option<int>)
    requires
        0 <= n <= chain.len(),
    ensures
        match at {
            Some(i) => 0 <= i < n && chain[i] == job && forall|k: int|
                i < k < n ==> #[trigger] chain[k] != job,
            None => forall|k: int| 0 <= k < n ==> #[trigger] chain[k] != job,
        },
    decreases n,
{
    if n == 0 {
        None
    } else if chain[n - 1] == job {
        Some(n - 1)
    } else {
        lemma_last_occurrence(chain, job, n - 1)
    }
}

/// Whatever depends on something on the stack is met.
proof fn lemma_cascade_complete(watch: Watch, stack: Seq<JobId>, s: int, chain: Seq<JobId>)
    requires
        0 <= s < stack.len(),
        is_chain(watch, chain),
        chain[0] == stack[s],
    ensures
        eligibility::cascade_from(watch, stack).contains(chain.last()),
    decreases watch.dom().len(), stack.len(),
{
    eligibility::lemma_watch_finite(watch);
    let current = stack.last();
    let rest = stack.drop_last();
    let j = chain.last();
    let met = eligibility::cascade_from(watch, stack);
    if eligibility::watched(watch, current) {
        let smaller = watch.remove(current.idx());
        let waiting = watch[current.idx()].dependents;
        let more = rest + waiting;
        let tail = eligibility::cascade_from(smaller, more);
        assert(met =~= seq![current] + tail);
        let n = chain.len() as int;
        let at = lemma_last_occurrence(chain, current, n);
        match at {
            Some(i) => {
                if i == n - 1 {
                    assert(met[0] == j);
                } else {
                    let suffix = chain.subrange(i + 1, n);
                    assert(waits_for(watch, chain[i], chain[i + 1]));
                    assert(waiting.contains(suffix[0]));
                    let k = choose|k: int| 0 <= k < waiting.len() && waiting[k] == suffix[0];
                    assert(is_chain(watch, suffix)) by {
                        assert forall|m: int| 0 <= m < suffix.len() implies eligibility::watched(
                            watch,
                            #[trigger] suffix[m],
                        ) by {
                            assert(eligibility::watched(watch, chain[i + 1 + m]));
                        }
                        assert forall|m: int| 0 <= m < suffix.len() - 1 implies #[trigger] waits_for(
                            watch,
                            suffix[m],
                            suffix[m + 1],
                        ) by {
                            assert(waits_for(watch, chain[i + 1 + m], chain[i + 1 + m + 1]));
                        }
                    }
                    assert forall|m: int| 0 <= m < suffix.len() implies #[trigger] suffix[m]
                        != current by {
                        assert(chain[i + 1 + m] != current);
                    }
                    lemma_chain_narrows(watch, current, suffix);
                    assert(more[rest.len() + k] == suffix[0]);
                    lemma_cascade_complete(smaller, more, rest.len() + k, suffix);
                    let m = choose|m: int| 0 <= m < tail.len() && tail[m] == j;
                    assert(met[m + 1] == j);
                }
            },
            None => {
                lemma_chain_narrows(watch, current, chain);
                assert(chain[0] != current);
                assert(s < rest.len());
                assert(more[s] == chain[0]);
                lemma_cascade_complete(smaller, more, s, chain);
                let m = choose|m: int| 0 <= m < tail.len() && tail[m] == j;
                assert(met[m + 1] == j);
            },
        }
    } else {
        assert(eligibility::watched(watch, chain[0]));
        assert(s < rest.len());
        lemma_cascade_complete(watch, rest, s, chain);
    }
}

/// A cascade from `id` visits exactly the jobs that depend on it, directly or
/// through others, each once and without `id` itself.
pub proof fn law_cascade_is_the_transitive_dependents(watch: Watch, id: JobId)
    ensures
        forall|j: JobId| #[trigger]
            eligibility::cascade_of(watch, id).contains(j) <==> j != id && depends_on(watch, j, id),
        eligibility::cascade_of(watch, id).no_duplicates(),
{
    broadcast use vstd::seq_lib::group_filter_ensures;

    let stack = seq![id];
    let met = eligibility::cascade_from(watch, stack);
    let gone = eligibility::cascade_of(watch, id);
    let keep = eligibility::other_than(id);
    lemma_cascade_is_watched(watch, stack);
    lemma_filter_keeps_distinct(met, keep);
    assert forall|j: JobId| #[trigger] gone.contains(j) <==> j != id && depends_on(watch, j, id) by {
        lemma_met_iff_depends(watch, id, j);
        if gone.contains(j) {
            met.lemma_filter_contains_rev(keep, j);
            let i = choose|i: int| 0 <= i < gone.len() && gone[i] == j;
            assert(keep(gone[i]));
        }
        if j != id && met.contains(j) {
            let i = choose|i: int| 0 <= i < met.len() && met[i] == j;
            assert(keep(met[i]));
            assert(gone.contains(met[i]));
        }
    }
}

proof fn lemma_met_iff_depends(watch: Watch, id: JobId, j: JobId)
    ensures
        eligibility::cascade_from(watch, seq![id]).contains(j) <==> depends_on(watch, j, id),
{
    let stack = seq![id];
    if eligibility::cascade_from(watch, stack).contains(j) {
        lemma_cascade_sound(watch, stack, j);
        let s = choose|s: int| 0 <= s < stack.len() && depends_on(watch, j, #[trigger] stack[s]);
    }
    if depends_on(watch, j, id) {
        let chain = choose|chain: Seq<JobId>| #[trigger]
            is_chain(watch, chain) && chain[0] == id && chain.last() == j;
        lemma_cascade_complete(watch, stack, 0, chain);
    }
}

proof fn lemma_filter_keeps_distinct(s: Seq<JobId>, keep: spec_fn(JobId) -> bool)
    requires
        s.no_duplicates(),
    ensures
        s.filter(keep).no_duplicates(),
    decreases s.len(),
{
    broadcast use vstd::seq_lib::group_filter_ensures;

    reveal(Seq::filter);
    if s.len() > 0 {
        let rest = s.drop_last();
        lemma_filter_keeps_distinct(rest, keep);
        let kept = rest.filter(keep);
        assert forall|i: int| 0 <= i < kept.len() implies kept[i] != s.last() by {
            assert(kept.contains(kept[i]));
            rest.lemma_filter_contains_rev(keep, kept[i]);
            let k = choose|k: int| 0 <= k < rest.len() && rest[k] == kept[i];
            assert(s[k] == kept[i]);
        }
    }
}

/// After a cascade exactly the jobs are still watched that neither are `id` nor
/// depend on it.
pub proof fn law_cascade_forgets_whom_it_visits(watch: Watch, id: JobId)
    requires
        well_keyed(watch),
    ensures
        ({
            let after = eligibility::without_cascade(watch, id);
            &&& well_keyed(after)
            &&& forall|j: JobId| #[trigger]
                eligibility::watched(after, j) <==> eligibility::watched(watch, j) && !depends_on(
                    watch,
                    j,
                    id,
                )
            &&& forall|j: JobId| #[trigger]
                eligibility::watched(after, j) ==> after[j.idx()] == watch[j.idx()]
        }),
{
    let met = eligibility::cascade_from(watch, seq![id]);
    let after = eligibility::without_cascade(watch, id);
    let f = |j: JobId| j.idx();
    let gone = met.map_values(f);
    lemma_cascade_is_watched(watch, seq![id]);
    assert forall|j: JobId| #[trigger] eligibility::watched(after, j) <==> eligibility::watched(
        watch,
        j,
    ) && !depends_on(watch, j, id) by {
        lemma_met_iff_depends(watch, id, j);
        if eligibility::watched(watch, j) {
            if met.contains(j) {
                let i = choose|i: int| 0 <= i < met.len() && met[i] == j;
                assert(gone[i] == j.idx());
                assert(gone.to_set().contains(j.idx()));
            }
            if gone.to_set().contains(j.idx()) {
                let i = choose|i: int| 0 <= i < gone.len() && gone[i] == j.idx();
                assert(met.contains(met[i]));
                assert(eligibility::watched(watch, met[i]));
                assert(met[i] == j);
            }
        }
    }
}

/// How often `j` occurs in a list.
pub open spec fn occurrences(ids: Seq<JobId>, j: JobId) -> nat
    decreases ids.len(),
{
    if ids.len() == 0 {
        0
    } else {
        occurrences(ids.drop_last(), j) + if ids.last() == j {
            1nat
        } else {
            0nat
        }
    }
}

/// The jobs that wait for `d`, once for every time they name it.
pub open spec fn waiting_on(watch: Watch, d: JobId) -> Seq<JobId> {
    if eligibility::watched(watch, d) {
        watch[d.idx()].dependents
    } else {
        Seq::empty()
    }
}

/// How many of a job's dependencies are still open.
pub open spec fn open_count(jobs: Map<JobId, Job>, j: JobId) -> nat {
    eligibility::pending_count(jobs, jobs[j].deps@, jobs[j].deps@.len() as int)
}

/// A scan of every blocked job would wake `j`: it is blocked and nothing it
/// depends on is open any more.
pub open spec fn scan_wakes(jobs: Map<JobId, Job>, j: JobId) -> bool {
    jobs.contains_key(j) && jobs[j].state is Blocked && open_count(jobs, j) == 0
}

/// The tracker counts a blocked job right: as many open dependencies as it has,
/// one at least, and a reverse edge for each time it names an open one.
pub open spec fn counted_right(watch: Watch, jobs: Map<JobId, Job>, j: JobId) -> bool {
    &&& eligibility::watched(watch, j)
    &&& watch[j.idx()].unsatisfied == open_count(jobs, j)
    &&& watch[j.idx()].unsatisfied > 0
    &&& forall|d: JobId| #[trigger]
        eligibility::pending(jobs, d) ==> occurrences(jobs[j].deps@, d) == occurrences(
            waiting_on(watch, d),
            j,
        )
}

/// The tracker and the jobs agree: blocked jobs are counted right, everything
/// watched is live and open, only blocked jobs have anything open, and nobody
/// waits who was not submitted.
pub open spec fn in_sync(watch: Watch, jobs: Map<JobId, Job>) -> bool {
    &&& well_keyed(watch)
    &&& forall|j: JobId| #[trigger]
        jobs.contains_key(j) && jobs[j].state is Blocked ==> counted_right(watch, jobs, j)
    &&& forall|j: JobId| #[trigger]
        eligibility::watched(watch, j) ==> eligibility::pending(jobs, j) && (jobs[j].state is Blocked
            || watch[j.idx()].unsatisfied == 0)
    &&& forall|d: JobId, j: JobId| #[trigger]
        occurrences(waiting_on(watch, d), j) > 0 && jobs.contains_key(j) ==> !(
        jobs[j].state is Submitted)
}

/// No two live jobs share an arena index, as in any arena.
pub open spec fn one_live_per_index(jobs: Map<JobId, Job>) -> bool {
    forall|a: JobId, b: JobId|
        #[trigger] jobs.contains_key(a) && #[trigger] jobs.contains_key(b) && a.idx() == b.idx()
            ==> a == b
}

pub(crate) proof fn lemma_occurs_iff_contained(ids: Seq<JobId>, j: JobId)
    ensures
        occurrences(ids, j) > 0 <==> ids.contains(j),
    decreases ids.len(),
{
    if ids.len() > 0 {
        let rest = ids.drop_last();
        lemma_occurs_iff_contained(rest, j);
        if rest.contains(j) {
            let i = choose|i: int| 0 <= i < rest.len() && rest[i] == j;
            assert(ids[i] == j);
        }
        if ids.contains(j) {
            let i = choose|i: int| 0 <= i < ids.len() && ids[i] == j;
            if i < rest.len() {
                assert(rest[i] == j);
            } else {
                assert(ids.last() == j);
            }
        }
        if ids.last() == j {
            assert(ids[ids.len() - 1] == j);
        }
    }
}

/// What settling does to one job: it loses an open dependency for each time it
/// occurs, and is promoted if that leaves none.
proof fn lemma_settle(watch: Watch, dependents: Seq<JobId>, j: JobId)
    requires
        well_keyed(watch),
    ensures
        ({
            let end = eligibility::settle(watch, dependents);
            let c = occurrences(dependents, j);
            let u = watch[j.idx()].unsatisfied;
            &&& well_keyed(end.watch)
            &&& eligibility::watched(end.watch, j) == eligibility::watched(watch, j)
            &&& eligibility::watched(watch, j) ==> end.watch[j.idx()] == (eligibility::Tracking {
                unsatisfied: if c >= u {
                    0
                } else {
                    (u - c) as u32
                },
                ..watch[j.idx()]
            })
            &&& end.promoted.contains(j) <==> eligibility::watched(watch, j) && u > 0 && c >= u
        }),
    decreases dependents.len(),
{
    if dependents.len() > 0 {
        let rest = dependents.drop_last();
        let d = dependents.last();
        let before = eligibility::settle(watch, rest);
        let end = eligibility::settle(watch, dependents);
        lemma_settle(watch, rest, j);
        lemma_settle(watch, rest, d);
        if before.promoted.contains(j) {
            let i = choose|i: int| 0 <= i < before.promoted.len() && before.promoted[i] == j;
            assert(end.promoted[i] == j);
        }
        if end.promoted.contains(j) {
            let i = choose|i: int| 0 <= i < end.promoted.len() && end.promoted[i] == j;
            if i < before.promoted.len() {
                assert(before.promoted[i] == j);
            }
        }
        if end.promoted.len() > before.promoted.len() {
            assert(end.promoted[before.promoted.len() as int] == d);
        }
    }
}

/// Nobody is promoted twice.
proof fn lemma_settle_promotes_once(watch: Watch, dependents: Seq<JobId>)
    requires
        well_keyed(watch),
    ensures
        eligibility::settle(watch, dependents).promoted.no_duplicates(),
    decreases dependents.len(),
{
    if dependents.len() > 0 {
        let rest = dependents.drop_last();
        let d = dependents.last();
        lemma_settle_promotes_once(watch, rest);
        lemma_settle(watch, rest, d);
        let before = eligibility::settle(watch, rest);
        let end = eligibility::settle(watch, dependents);
        if end.promoted.len() > before.promoted.len() {
            assert forall|i: int| 0 <= i < before.promoted.len() implies before.promoted[i] != d by {
                if before.promoted[i] == d {
                    assert(before.promoted.contains(d));
                }
            }
        }
    }
}

/// When one open job ends and all others stay as open as they were, a list of
/// dependencies has as many fewer open ones as it names that job.
proof fn lemma_one_ended(
    before: Map<JobId, Job>,
    after: Map<JobId, Job>,
    id: JobId,
    deps: Seq<JobId>,
    n: int,
)
    requires
        0 <= n <= deps.len(),
        eligibility::pending(before, id),
        !eligibility::pending(after, id),
        forall|d: JobId|
            d != id ==> #[trigger] eligibility::pending(after, d) == eligibility::pending(before, d),
    ensures
        eligibility::pending_count(before, deps, n) == eligibility::pending_count(after, deps, n)
            + occurrences(deps.take(n), id),
    decreases n,
{
    if n > 0 {
        lemma_one_ended(before, after, id, deps, n - 1);
        assert(deps.take(n).drop_last() =~= deps.take(n - 1));
        let d = deps[n - 1];
        assert(eligibility::pending(after, d) == (eligibility::pending(before, d) && d != id));
    }
}

/// A list of dependencies has as many open ones as long as each of them stays as
/// open as it was.
pub(crate) proof fn lemma_same_open(
    before: Map<JobId, Job>,
    after: Map<JobId, Job>,
    deps: Seq<JobId>,
    n: int,
)
    requires
        0 <= n <= deps.len(),
        forall|k: int|
            0 <= k < n ==> eligibility::pending(after, #[trigger] deps[k]) == eligibility::pending(
                before,
                deps[k],
            ),
    ensures
        eligibility::pending_count(before, deps, n) == eligibility::pending_count(after, deps, n),
    decreases n,
{
    if n > 0 {
        lemma_same_open(before, after, deps, n - 1);
    }
}

/// `after` is `before` with `id` completed and everyone in `woken` ready.
pub open spec fn completed_and_woken(
    before: Map<JobId, Job>,
    id: JobId,
    woken: Seq<JobId>,
    after: Map<JobId, Job>,
) -> bool {
    &&& after.dom() == before.dom()
    &&& forall|j: JobId| #[trigger]
        after.contains_key(j) ==> after[j] == if j == id {
            before[j].in_state(JobState::Completed)
        } else if woken.contains(j) {
            before[j].in_state(JobState::Ready)
        } else {
            before[j]
        }
}

/// Completing a job wakes exactly the jobs that a scan of every blocked job would
/// wake, each once.
pub proof fn law_completion_wakes_what_a_scan_would(
    watch: Watch,
    jobs: Map<JobId, Job>,
    id: JobId,
)
    requires
        in_sync(watch, jobs),
        jobs.contains_key(id),
        jobs[id].state.has_edge(JobState::Completed),
    ensures
        ({
            let woken = eligibility::completion(watch, id).promoted;
            let after = jobs.insert(id, jobs[id].in_state(JobState::Completed));
            &&& forall|j: JobId| #[trigger] woken.contains(j) <==> scan_wakes(after, j)
            &&& woken.no_duplicates()
        }),
{
    let woken = eligibility::completion(watch, id).promoted;
    let after = jobs.insert(id, jobs[id].in_state(JobState::Completed));
    let dependents = waiting_on(watch, id);
    if eligibility::watched(watch, id) {
        lemma_settle_promotes_once(watch, dependents);
    }
    assert forall|j: JobId| #[trigger] woken.contains(j) <==> scan_wakes(after, j) by {
        lemma_woken(watch, jobs, id, j);
    }
}

proof fn lemma_woken(watch: Watch, jobs: Map<JobId, Job>, id: JobId, j: JobId)
    requires
        in_sync(watch, jobs),
        jobs.contains_key(id),
        jobs[id].state.has_edge(JobState::Completed),
    ensures
        ({
            let end = eligibility::completion(watch, id);
            let after = jobs.insert(id, jobs[id].in_state(JobState::Completed));
            &&& end.promoted.contains(j) <==> scan_wakes(after, j)
            &&& jobs.contains_key(j) && jobs[j].state is Blocked ==> {
                &&& eligibility::watched(end.watch, j)
                &&& end.watch[j.idx()].unsatisfied == open_count(after, j)
            }
        }),
{
    let end = eligibility::completion(watch, id);
    let after = jobs.insert(id, jobs[id].in_state(JobState::Completed));
    let dependents = waiting_on(watch, id);
    assert(eligibility::pending(jobs, id) && !eligibility::pending(after, id));
    assert forall|d: JobId| d != id implies #[trigger] eligibility::pending(after, d)
        == eligibility::pending(jobs, d) by {}
    if jobs.contains_key(j) && jobs[j].state is Blocked {
        assert(counted_right(watch, jobs, j));
        let deps = jobs[j].deps@;
        lemma_one_ended(jobs, after, id, deps, deps.len() as int);
        assert(deps.take(deps.len() as int) =~= deps);
        assert(occurrences(deps, id) == occurrences(dependents, j));
        assert(j != id);
    }
    if eligibility::watched(watch, id) {
        lemma_settle(watch, dependents, j);
        assert(j != id && eligibility::watched(watch, j) ==> j.idx() != id.idx());
    }
}

/// Completing a job and readying those it wakes keeps tracker and jobs in sync.
pub proof fn law_completion_keeps_sync(
    watch: Watch,
    jobs: Map<JobId, Job>,
    id: JobId,
    after: Map<JobId, Job>,
)
    requires
        in_sync(watch, jobs),
        jobs.contains_key(id),
        jobs[id].state.has_edge(JobState::Completed),
        completed_and_woken(jobs, id, eligibility::completion(watch, id).promoted, after),
    ensures
        in_sync(eligibility::completion(watch, id).watch, after),
{
    let end = eligibility::completion(watch, id);
    let woken = end.promoted;
    let mid = jobs.insert(id, jobs[id].in_state(JobState::Completed));
    let dependents = waiting_on(watch, id);
    assert forall|j: JobId| #[trigger] after.contains_key(j) == jobs.contains_key(j) by {
        assert(after.dom().contains(j) == jobs.dom().contains(j));
    }
    assert forall|j: JobId| woken.contains(j) implies j != id && jobs.contains_key(j)
        && jobs[j].state is Blocked by {
        lemma_woken(watch, jobs, id, j);
    }
    assert forall|d: JobId| #[trigger] eligibility::pending(after, d) == eligibility::pending(mid, d) by {
        if after.contains_key(d) {
        }
    }
    assert forall|d: JobId| #[trigger] eligibility::pending(after, d) == (eligibility::pending(
        jobs,
        d,
    ) && d != id) by {
        if after.contains_key(d) {
        }
    }
    // The reverse edges of every job still watched are untouched.
    assert forall|d: JobId| d != id implies #[trigger] waiting_on(end.watch, d) == waiting_on(
        watch,
        d,
    ) && eligibility::watched(end.watch, d) == eligibility::watched(watch, d) by {
        if eligibility::watched(watch, id) {
            lemma_settle(watch, dependents, d);
        }
    }
    assert(!eligibility::watched(end.watch, id));
    assert(well_keyed(end.watch)) by {
        if eligibility::watched(watch, id) {
            lemma_settle(watch, dependents, id);
        }
    }
    assert forall|j: JobId| #[trigger]
        after.contains_key(j) && after[j].state is Blocked implies counted_right(
        end.watch,
        after,
        j,
    ) by {
        lemma_woken(watch, jobs, id, j);
        assert(j != id && !woken.contains(j));
        assert(counted_right(watch, jobs, j));
        let deps = jobs[j].deps@;
        lemma_same_open(mid, after, deps, deps.len() as int);
        assert forall|d: JobId| #[trigger] eligibility::pending(after, d) implies occurrences(
            after[j].deps@,
            d,
        ) == occurrences(waiting_on(end.watch, d), j) by {
            assert(eligibility::pending(jobs, d));
            assert(waiting_on(end.watch, d) == waiting_on(watch, d));
        }
    }
    assert forall|j: JobId| #[trigger] eligibility::watched(end.watch, j) implies eligibility::pending(
        after,
        j,
    ) && (after[j].state is Blocked || end.watch[j.idx()].unsatisfied == 0) by {
        assert(j != id);
        assert(waiting_on(end.watch, j) == waiting_on(watch, j));
        assert(eligibility::watched(watch, j));
        lemma_woken(watch, jobs, id, j);
        if eligibility::watched(watch, id) {
            lemma_settle(watch, dependents, j);
        }
    }
    assert forall|d: JobId, j: JobId| #[trigger]
        occurrences(waiting_on(end.watch, d), j) > 0 && after.contains_key(j) implies !(
    after[j].state is Submitted) by {
        if d != id {
            assert(waiting_on(end.watch, d) == waiting_on(watch, d));
            assert(occurrences(waiting_on(watch, d), j) > 0);
        }
    }
}

/// `after` is `before` with `id` ended and everyone in `gone` cancelled.
pub open spec fn ended_and_cancelled(
    before: Map<JobId, Job>,
    id: JobId,
    gone: Seq<JobId>,
    after: Map<JobId, Job>,
) -> bool {
    &&& after.dom() == before.dom()
    &&& before.contains_key(id)
    &&& after[id].state.terminal()
    &&& forall|j: JobId| #[trigger]
        after.contains_key(j) && j != id ==> after[j] == if gone.contains(j) {
            before[j].in_state(JobState::Cancelled)
        } else {
            before[j]
        }
}

/// A job that waits for one that depends on `id` depends on `id`.
proof fn lemma_depends_on_extends(watch: Watch, id: JobId, d: JobId, j: JobId)
    requires
        depends_on(watch, d, id),
        eligibility::watched(watch, j),
        waits_for(watch, d, j),
    ensures
        depends_on(watch, j, id),
{
    let chain = choose|chain: Seq<JobId>| #[trigger]
        is_chain(watch, chain) && chain[0] == id && chain.last() == d;
    let longer = chain.push(j);
    assert forall|i: int| 0 <= i < longer.len() implies eligibility::watched(
        watch,
        #[trigger] longer[i],
    ) by {
        if i < chain.len() {
            assert(longer[i] == chain[i]);
        }
    }
    assert forall|i: int| 0 <= i < longer.len() - 1 implies #[trigger] waits_for(
        watch,
        longer[i],
        longer[i + 1],
    ) by {
        if i < chain.len() - 1 {
            assert(waits_for(watch, chain[i], chain[i + 1]));
        }
    }
    assert(is_chain(watch, longer));
    assert(longer[0] == id && longer.last() == j);
}

/// Ending a job and cancelling everyone who depends on it keeps tracker and jobs
/// in sync: whoever is left still has every open dependency it had.
pub proof fn law_cascade_keeps_sync(
    watch: Watch,
    jobs: Map<JobId, Job>,
    id: JobId,
    after: Map<JobId, Job>,
)
    requires
        in_sync(watch, jobs),
        ended_and_cancelled(jobs, id, eligibility::cascade_of(watch, id), after),
    ensures
        in_sync(eligibility::without_cascade(watch, id), after),
{
    let gone = eligibility::cascade_of(watch, id);
    let end = eligibility::without_cascade(watch, id);
    law_cascade_is_the_transitive_dependents(watch, id);
    law_cascade_forgets_whom_it_visits(watch, id);
    assert forall|j: JobId| #[trigger] after.contains_key(j) == jobs.contains_key(j) by {
        assert(after.dom().contains(j) == jobs.dom().contains(j));
    }
    assert forall|j: JobId| #[trigger] depends_on(watch, j, id) implies eligibility::watched(
        watch,
        j,
    ) by {
        let chain = choose|chain: Seq<JobId>| #[trigger]
            is_chain(watch, chain) && chain[0] == id && chain.last() == j;
        assert(eligibility::watched(watch, chain[chain.len() - 1]));
    }
    if eligibility::watched(watch, id) {
        let chain = seq![id];
        assert(is_chain(watch, chain) && chain[0] == id && chain.last() == id);
        assert(depends_on(watch, id, id));
    }
    assert forall|d: JobId| #[trigger] eligibility::pending(after, d) implies eligibility::pending(
        jobs,
        d,
    ) && d != id && !gone.contains(d) && waiting_on(end, d) == waiting_on(watch, d) by {
        assert(after.contains_key(d));
        assert(!depends_on(watch, d, id));
        assert(eligibility::watched(end, d) == eligibility::watched(watch, d));
    }
    assert forall|j: JobId| #[trigger]
        after.contains_key(j) && after[j].state is Blocked implies counted_right(end, after, j) by {
        assert(j != id && !gone.contains(j));
        assert(jobs.contains_key(j) && jobs[j].state is Blocked);
        assert(counted_right(watch, jobs, j));
        assert(!depends_on(watch, j, id));
        assert(eligibility::watched(end, j));
        let deps = jobs[j].deps@;
        assert forall|k: int| 0 <= k < deps.len() implies eligibility::pending(
            after,
            #[trigger] deps[k],
        ) == eligibility::pending(jobs, deps[k]) by {
            let d = deps[k];
            if eligibility::pending(jobs, d) && !eligibility::pending(after, d) {
                assert(deps.contains(d));
                lemma_occurs_iff_contained(deps, d);
                lemma_occurs_iff_contained(waiting_on(watch, d), j);
                assert(eligibility::watched(watch, d));
                assert(waits_for(watch, d, j));
                if d == id || gone.contains(d) {
                    assert(depends_on(watch, d, id));
                    lemma_depends_on_extends(watch, id, d, j);
                } else {
                    assert(after.contains_key(d));
                }
            }
        }
        lemma_same_open(jobs, after, deps, deps.len() as int);
    }
    assert forall|j: JobId| #[trigger] eligibility::watched(end, j) implies eligibility::pending(
        after,
        j,
    ) && (after[j].state is Blocked || end[j.idx()].unsatisfied == 0) by {
        assert(eligibility::watched(watch, j) && !depends_on(watch, j, id));
        assert(j != id && !gone.contains(j));
        assert(after.contains_key(j));
    }
    assert forall|d: JobId, j: JobId| #[trigger]
        occurrences(waiting_on(end, d), j) > 0 && after.contains_key(j) implies !(
    after[j].state is Submitted) by {
        if eligibility::watched(end, d) {
            assert(waiting_on(end, d) == waiting_on(watch, d));
            assert(occurrences(waiting_on(watch, d), j) > 0);
        }
    }
}

/// What linking the pending among the first `n` dependencies does to the entry
/// of `x`.
proof fn lemma_linked_all(
    watch: Watch,
    id: JobId,
    jobs: Map<JobId, Job>,
    deps: Seq<JobId>,
    n: int,
    x: JobId,
)
    requires
        well_keyed(watch),
        one_live_per_index(jobs),
        0 <= n <= deps.len(),
        forall|i: u32| #[trigger] watch.contains_key(i) ==> jobs.contains_key(watch[i].owner),
        jobs.contains_key(x),
    ensures
        ({
            let end = eligibility::linked_all(watch, id, jobs, deps, n);
            let named = occurrences(deps.take(n), x);
            &&& well_keyed(end)
            &&& forall|i: u32| #[trigger] end.contains_key(i) ==> jobs.contains_key(end[i].owner)
            &&& eligibility::watched(end, x) <==> eligibility::watched(watch, x) || (
            eligibility::pending(jobs, x) && named > 0)
            &&& eligibility::watched(end, x) ==> end[x.idx()].unsatisfied == (
            if eligibility::watched(watch, x) {
                watch[x.idx()].unsatisfied
            } else {
                0
            })
            &&& forall|j: JobId| #[trigger]
                occurrences(waiting_on(end, x), j) == occurrences(waiting_on(watch, x), j) + (if j
                    == id && eligibility::pending(jobs, x) {
                    named
                } else {
                    0
                })
        }),
    decreases n,
{
    if n > 0 {
        lemma_linked_all(watch, id, jobs, deps, n - 1, x);
        let before = eligibility::linked_all(watch, id, jobs, deps, n - 1);
        let end = eligibility::linked_all(watch, id, jobs, deps, n);
        let d = deps[n - 1];
        assert(deps.take(n).drop_last() =~= deps.take(n - 1));
        assert(deps.take(n).last() == d);
        if eligibility::pending(jobs, d) {
            // Whoever sits at the index of a live job is that job.
            if before.contains_key(d.idx()) {
                assert(jobs.contains_key(before[d.idx()].owner) && jobs.contains_key(d));
                assert(before[d.idx()].owner == d);
            }
            if x == d {
                let was = waiting_on(before, x);
                assert(waiting_on(end, x) =~= was.push(id));
                assert(was.push(id).drop_last() =~= was);
                assert forall|j: JobId| #[trigger]
                    occurrences(waiting_on(end, x), j) == occurrences(was, j) + (if j == id {
                        1nat
                    } else {
                        0nat
                    }) by {
                    assert(was.push(id).last() == id);
                }
            } else {
                assert(jobs.contains_key(x) && jobs.contains_key(d));
                assert(x.idx() != d.idx());
                assert(waiting_on(end, x) == waiting_on(before, x));
            }
        }
    } else {
        assert(deps.take(0) =~= Seq::<JobId>::empty());
    }
}

/// A job that a verdict of ready or blocked was given names no dead, unknown or
/// own handle.
proof fn lemma_classified(id: JobId, jobs: Map<JobId, Job>, deps: Seq<JobId>, i: int)
    requires
        0 <= i <= deps.len(),
        eligibility::classification(id, jobs, deps, i) matches Ok(r) && !(r is Cancelled),
    ensures
        forall|k: int| i <= k < deps.len() ==> #[trigger] deps[k] != id,
        eligibility::classification(id, jobs, deps, i)->Ok_0 is Ready
            <==> eligibility::pending_count(jobs, deps, deps.len() as int) == 0,
    decreases deps.len() - i,
{
    if i < deps.len() {
        lemma_classified(id, jobs, deps, i + 1);
    }
}

/// Registering a freshly submitted job that nobody waits for yet keeps tracker
/// and jobs in sync, with the job in the state that the verdict gives it.
pub proof fn law_registration_keeps_sync(watch: Watch, jobs: Map<JobId, Job>, id: JobId)
    requires
        in_sync(watch, jobs),
        one_live_per_index(jobs),
        jobs.contains_key(id),
        jobs[id].state is Submitted,
        jobs[id].deps@.len() <= u32::MAX,
        !eligibility::watched(watch, id),
        eligibility::classification(id, jobs, jobs[id].deps@, 0) matches Ok(r) && !(r is Cancelled),
    ensures
        ({
            let ready = eligibility::classification(id, jobs, jobs[id].deps@, 0)->Ok_0 is Ready;
            in_sync(
                eligibility::registered(watch, id, jobs, jobs[id].deps@),
                jobs.insert(
                    id,
                    jobs[id].in_state(
                        if ready {
                            JobState::Ready
                        } else {
                            JobState::Blocked
                        },
                    ),
                ),
            )
        }),
{
    let deps = jobs[id].deps@;
    let n = deps.len() as int;
    let ready = eligibility::classification(id, jobs, deps, 0)->Ok_0 is Ready;
    let after = jobs.insert(
        id,
        jobs[id].in_state(
            if ready {
                JobState::Ready
            } else {
                JobState::Blocked
            },
        ),
    );
    let start = watch.insert(id.idx(), eligibility::fresh(id));
    let linked = eligibility::linked_all(start, id, jobs, deps, n);
    let end = eligibility::registered(watch, id, jobs, deps);
    lemma_classified(id, jobs, deps, 0);
    lemma_count_bound(jobs, deps, n);
    assert(deps.take(n) =~= deps);
    assert forall|i: u32| #[trigger] start.contains_key(i) implies jobs.contains_key(
        start[i].owner,
    ) by {
        if i != id.idx() {
            assert(watch.contains_key(i));
            assert(eligibility::watched(watch, watch[i].owner));
        }
    }
    assert(!watch.contains_key(id.idx())) by {
        if watch.contains_key(id.idx()) {
            let o = watch[id.idx()].owner;
            assert(eligibility::watched(watch, o));
            assert(jobs.contains_key(o) && jobs.contains_key(id));
        }
    }
    lemma_occurs_iff_contained(deps, id);
    assert(occurrences(deps, id) == 0);
    assert forall|d: JobId| #[trigger] eligibility::pending(after, d) == eligibility::pending(
        jobs,
        d,
    ) by {}
    lemma_linked_all(start, id, jobs, deps, n, id);
    // What holds of every live job's entry afterwards.
    assert forall|x: JobId| #[trigger] jobs.contains_key(x) implies {
        &&& eligibility::watched(end, x) <==> x == id || eligibility::watched(watch, x) || (
        eligibility::pending(jobs, x) && occurrences(deps, x) > 0)
        &&& x != id && eligibility::watched(end, x) ==> end[x.idx()].unsatisfied == (
        if eligibility::watched(watch, x) {
            watch[x.idx()].unsatisfied
        } else {
            0
        })
        &&& forall|j: JobId| #[trigger]
            occurrences(waiting_on(end, x), j) == occurrences(waiting_on(watch, x), j) + (if j == id
                && eligibility::pending(jobs, x) {
                occurrences(deps, x)
            } else {
                0
            })
    } by {
        lemma_linked_all(start, id, jobs, deps, n, x);
        if x != id {
            assert(jobs.contains_key(id));
            assert(x.idx() != id.idx());
            assert(waiting_on(start, x) == waiting_on(watch, x));
            assert(waiting_on(end, x) == waiting_on(linked, x));
        } else {
            assert(waiting_on(start, x) =~= Seq::<JobId>::empty());
            assert(waiting_on(watch, x) =~= Seq::<JobId>::empty());
            assert(waiting_on(end, x) == waiting_on(linked, x));
        }
    }
    assert(well_keyed(end));
    assert(end[id.idx()].unsatisfied == eligibility::pending_count(jobs, deps, n));
    assert forall|i: u32| #[trigger] end.contains_key(i) implies jobs.contains_key(end[i].owner) by {
        if i != id.idx() {
            assert(linked.contains_key(i));
        } else {
            assert(linked.contains_key(i));
        }
    }
    assert forall|j: JobId| #[trigger]
        after.contains_key(j) && after[j].state is Blocked implies counted_right(end, after, j) by {
        assert(jobs.contains_key(j));
        if j == id {
            lemma_same_open(jobs, after, deps, n);
            assert forall|d: JobId| #[trigger] eligibility::pending(after, d) implies occurrences(
                deps,
                d,
            ) == occurrences(waiting_on(end, d), id) by {
                assert(jobs.contains_key(d));
                assert(occurrences(waiting_on(watch, d), id) == 0);
            }
        } else {
            assert(counted_right(watch, jobs, j));
            let theirs = jobs[j].deps@;
            lemma_same_open(jobs, after, theirs, theirs.len() as int);
            assert forall|d: JobId| #[trigger] eligibility::pending(after, d) implies occurrences(
                theirs,
                d,
            ) == occurrences(waiting_on(end, d), j) by {
                assert(eligibility::pending(jobs, d));
                assert(jobs.contains_key(d));
            }
        }
    }
    assert forall|j: JobId| #[trigger] eligibility::watched(end, j) implies eligibility::pending(
        after,
        j,
    ) && (after[j].state is Blocked || end[j.idx()].unsatisfied == 0) by {
        assert(end.contains_key(j.idx()));
        assert(jobs.contains_key(j));
        if j != id && eligibility::watched(watch, j) {
            assert(eligibility::pending(jobs, j));
        }
    }
    assert forall|d: JobId, j: JobId| #[trigger]
        occurrences(waiting_on(end, d), j) > 0 && after.contains_key(j) implies !(
    after[j].state is Submitted) by {
        if eligibility::watched(end, d) {
            assert(end.contains_key(d.idx()));
            assert(jobs.contains_key(d));
            if j != id {
                assert(occurrences(waiting_on(watch, d), j) > 0);
                assert(jobs.contains_key(j));
            }
        }
    }
}

proof fn lemma_count_bound(jobs: Map<JobId, Job>, deps: Seq<JobId>, n: int)
    requires
        0 <= n,
    ensures
        eligibility::pending_count(jobs, deps, n) <= n,
    decreases n,
{
    if n > 0 {
        lemma_count_bound(jobs, deps, n - 1);
    }
}

/// Moving jobs among the states that neither wait nor have ended changes nothing
/// the tracker is about.
pub proof fn law_running_keeps_sync(
    watch: Watch,
    jobs: Map<JobId, Job>,
    id: JobId,
    next: JobState,
)
    requires
        in_sync(watch, jobs),
        jobs.contains_key(id),
        jobs[id].state.has_edge(next),
        jobs[id].state is Ready || jobs[id].state is Running || jobs[id].state is Preempted,
        next is Ready || next is Running || next is Preempted,
    ensures
        in_sync(watch, jobs.insert(id, jobs[id].in_state(next))),
{
    let after = jobs.insert(id, jobs[id].in_state(next));
    assert forall|d: JobId| #[trigger] eligibility::pending(after, d) == eligibility::pending(
        jobs,
        d,
    ) by {}
    assert forall|j: JobId| #[trigger]
        after.contains_key(j) && after[j].state is Blocked implies counted_right(watch, after, j) by {
        assert(jobs.contains_key(j) && counted_right(watch, jobs, j));
        let deps = jobs[j].deps@;
        lemma_same_open(jobs, after, deps, deps.len() as int);
    }
    assert forall|d: JobId, j: JobId| #[trigger]
        occurrences(waiting_on(watch, d), j) > 0 && after.contains_key(j) implies !(
    after[j].state is Submitted) by {
        assert(jobs.contains_key(j));
    }
}

/// An empty tracker is in sync with jobs of which none is blocked.
pub proof fn law_empty_tracker_is_in_sync(jobs: Map<JobId, Job>)
    requires
        forall|j: JobId| #[trigger] jobs.contains_key(j) ==> !(jobs[j].state is Blocked),
    ensures
        in_sync(Watch::empty(), jobs),
{
}

/// A scan wakes a blocked job exactly when none of its dependencies is live and still
/// to end.
pub proof fn law_scan_wakes_when_nothing_is_open(jobs: Map<JobId, Job>, j: JobId)
    requires
        jobs.contains_key(j),
    ensures
        scan_wakes(jobs, j) <==> jobs[j].state == JobState::Blocked && forall|k: int|
            0 <= k < jobs[j].deps@.len() && jobs.contains_key(#[trigger] jobs[j].deps@[k])
                ==> jobs[jobs[j].deps@[k]].state == JobState::Completed
                || jobs[jobs[j].deps@[k]].state == JobState::Failed || jobs[jobs[j].deps@[k]].state
                == JobState::Cancelled,
{
    let deps = jobs[j].deps@;
    eligibility::lemma_pending_count(jobs, deps, deps.len() as int);
    if scan_wakes(jobs, j) {
        assert forall|k: int|
            0 <= k < deps.len() && jobs.contains_key(#[trigger] deps[k]) implies jobs[deps[k]].state
            == JobState::Completed || jobs[deps[k]].state == JobState::Failed || jobs[deps[k]].state
            == JobState::Cancelled by {
            assert(!eligibility::pending(jobs, deps[k]));
        }
    }
}

/// Where a promoted job stands among the dependents that were settled.
proof fn lemma_promoted_position(watch: Watch, dependents: Seq<JobId>, i: int) -> (at: int)
    requires
        0 <= i < eligibility::settle(watch, dependents).promoted.len(),
    ensures
        0 <= at < dependents.len(),
        dependents[at] == eligibility::settle(watch, dependents).promoted[i],
    decreases dependents.len(),
{
    let before = eligibility::settle(watch, dependents.drop_last()).promoted;
    if i < before.len() {
        lemma_promoted_position(watch, dependents.drop_last(), i)
    } else {
        dependents.len() - 1
    }
}

proof fn lemma_promoted_in_order(watch: Watch, dependents: Seq<JobId>, i: int, j: int) -> (at: (
    int,
    int,
))
    requires
        0 <= i < j < eligibility::settle(watch, dependents).promoted.len(),
    ensures
        0 <= at.0 < at.1 < dependents.len(),
        dependents[at.0] == eligibility::settle(watch, dependents).promoted[i],
        dependents[at.1] == eligibility::settle(watch, dependents).promoted[j],
    decreases dependents.len(),
{
    let rest = dependents.drop_last();
    let before = eligibility::settle(watch, rest).promoted;
    if j < before.len() {
        lemma_promoted_in_order(watch, rest, i, j)
    } else {
        let first = lemma_promoted_position(watch, rest, i);
        (first, dependents.len() - 1)
    }
}

/// A completion wakes jobs in the order in which they came to wait: of two that it
/// wakes, the one listed first stands at `at.0` of those that waited for the completed
/// job, before the other at `at.1`.
pub proof fn law_jobs_wake_in_the_order_they_waited(watch: Watch, id: JobId, i: int, j: int) -> (at:
    (int, int))
    requires
        0 <= i < j < eligibility::completion(watch, id).promoted.len(),
    ensures
        eligibility::watched(watch, id),
        ({
            let waited = watch[id.idx()].dependents;
            let woken = eligibility::completion(watch, id).promoted;
            &&& 0 <= at.0 < at.1 < waited.len()
            &&& waited[at.0] == woken[i]
            &&& waited[at.1] == woken[j]
        }),
{
    lemma_promoted_in_order(watch, watch[id.idx()].dependents, i, j)
}

/// Ruin spreads along dependencies: a blocked job goes down with `id` exactly when it
/// names `id` or a job that goes down as a dependency; and only live jobs that have not
/// ended go down.
pub proof fn law_ruin_spreads_along_dependencies(
    watch: Watch,
    jobs: Map<JobId, Job>,
    id: JobId,
    j: JobId,
)
    requires
        in_sync(watch, jobs),
        jobs.contains_key(id),
        !jobs[id].state.terminal(),
        j != id,
    ensures
        ({
            let gone = eligibility::cascade_of(watch, id);
            &&& gone.contains(j) ==> jobs.contains_key(j) && !jobs[j].state.terminal()
            &&& jobs.contains_key(j) && jobs[j].state is Blocked ==> (gone.contains(j)
                <==> exists|k: int|
                0 <= k < jobs[j].deps@.len() && (#[trigger] jobs[j].deps@[k] == id || gone.contains(
                    jobs[j].deps@[k],
                )))
        }),
{
    let gone = eligibility::cascade_of(watch, id);
    law_cascade_is_the_transitive_dependents(watch, id);
    if gone.contains(j) {
        let chain = choose|chain: Seq<JobId>| #[trigger]
            is_chain(watch, chain) && chain[0] == id && chain.last() == j;
        let n = chain.len() as int;
        assert(eligibility::watched(watch, chain[n - 1]));
        assert(n > 1);
        if jobs[j].state is Blocked {
            let p = chain[n - 2];
            assert(waits_for(watch, chain[n - 2], chain[n - 2 + 1]));
            assert(eligibility::watched(watch, p));
            lemma_occurs_iff_contained(waiting_on(watch, p), j);
            lemma_occurs_iff_contained(jobs[j].deps@, p);
            assert(eligibility::pending(jobs, p));
            assert(counted_right(watch, jobs, j));
            let k = choose|k: int| 0 <= k < jobs[j].deps@.len() && jobs[j].deps@[k] == p;
            let shorter = chain.drop_last();
            assert(is_chain(watch, shorter)) by {
                assert forall|i: int| 0 <= i < shorter.len() implies eligibility::watched(
                    watch,
                    #[trigger] shorter[i],
                ) by {
                    assert(shorter[i] == chain[i]);
                }
                assert forall|i: int| 0 <= i < shorter.len() - 1 implies #[trigger] waits_for(
                    watch,
                    shorter[i],
                    shorter[i + 1],
                ) by {
                    assert(waits_for(watch, chain[i], chain[i + 1]));
                }
            }
            assert(depends_on(watch, p, id));
            assert(jobs[j].deps@[k] == id || gone.contains(jobs[j].deps@[k]));
        }
    }
    if jobs.contains_key(j) && jobs[j].state is Blocked && exists|k: int|
        0 <= k < jobs[j].deps@.len() && (#[trigger] jobs[j].deps@[k] == id || gone.contains(
            jobs[j].deps@[k],
        )) {
        let k = choose|k: int|
            0 <= k < jobs[j].deps@.len() && (#[trigger] jobs[j].deps@[k] == id || gone.contains(
                jobs[j].deps@[k],
            ));
        let d = jobs[j].deps@[k];
        assert(eligibility::pending(jobs, d)) by {
            if d != id {
                assert(depends_on(watch, d, id));
                let chain = choose|chain: Seq<JobId>| #[trigger]
                    is_chain(watch, chain) && chain[0] == id && chain.last() == d;
                assert(eligibility::watched(watch, chain[chain.len() - 1]));
            }
        }
        assert(counted_right(watch, jobs, j));
        lemma_occurs_iff_contained(jobs[j].deps@, d);
        lemma_occurs_iff_contained(waiting_on(watch, d), j);
        assert(jobs[j].deps@.contains(d));
        assert(waits_for(watch, d, j));
        if d == id {
            let own = seq![id];
            assert(is_chain(watch, own));
            assert(own.last() == id);
            assert(depends_on(watch, id, id));
        }
        lemma_depends_on_extends(watch, id, d, j);
    }
}

} // verus!

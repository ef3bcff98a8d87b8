//! The job record and its state machine.
use crate::domain::arena::JobId;
use crate::domain::deps::{bytes_new, Deps};
use crate::domain::resource::ResourceRequest;
use crate::domain::time::{VirtualDuration, VirtualTime};
use bytes::Bytes;
use std::cmp::Ordering;
use vstd::prelude::*;

verus! {

/// The account a job is charged to.
#[derive(Clone, Copy, PartialEq, Eq, PartialOrd, Ord, Hash, Debug, Default, Structural)]
pub struct AccountId(u32);

impl View for AccountId {
    type V = u32;

    closed spec fn view(&self) -> u32 {
        self.0
    }
}

impl AccountId {
    /// Wraps a raw account number.
    #[must_use]
    pub fn new(id: u32) -> (account: Self)
        ensures
            account@ == id,
    {
        AccountId(id)
    }

    /// The raw account number.
    #[must_use]
    pub fn get(self) -> (id: u32)
        ensures
            id == self@,
    {
        self.0
    }
}

/// Two accounts are the same when their raw numbers are.
pub proof fn law_number_determines_account(a: AccountId, b: AccountId)
    ensures
        a@ == b@ ==> a == b,
{
}

/// Quality-of-service tier. Higher variants outrank lower ones outright.
#[derive(Clone, Copy, PartialEq, Eq, Ord, Hash, Debug, Structural)]
pub enum PriorityClass {
    Low,
    Normal,
    High,
    Urgent,
}

impl PriorityClass {
    /// Number of classes; sizes the ready set's bucket array.
    pub const COUNT: usize = 4;

    /// Dense index in `0..COUNT`, lowest class first.
    pub open spec fn rank(self) -> u8 {
        match self {
            PriorityClass::Low => 0,
            PriorityClass::Normal => 1,
            PriorityClass::High => 2,
            PriorityClass::Urgent => 3,
        }
    }

    /// Every class, lowest first.
    #[must_use]
    pub fn all() -> (classes: [PriorityClass; 4])
        ensures
            forall|i: int| 0 <= i < 4 ==> (#[trigger] classes@[i]).rank() == i,
    {
        [PriorityClass::Low, PriorityClass::Normal, PriorityClass::High, PriorityClass::Urgent]
    }

    /// Dense index in `0..COUNT`.
    #[must_use]
    pub fn ordinal(self) -> (index: u8)
        ensures
            index == self.rank(),
    {
        match self {
            PriorityClass::Low => 0,
            PriorityClass::Normal => 1,
            PriorityClass::High => 2,
            PriorityClass::Urgent => 3,
        }
    }
}

impl Default for PriorityClass {
    fn default() -> (class: Self)
        ensures
            class == PriorityClass::Normal,
    {
        PriorityClass::Normal
    }
}

impl PartialOrd for PriorityClass {
    fn partial_cmp(&self, other: &Self) -> (order: Option<Ordering>) {
        if self.ordinal() < other.ordinal() {
            Some(Ordering::Less)
        } else if self.ordinal() == other.ordinal() {
            Some(Ordering::Equal)
        } else {
            Some(Ordering::Greater)
        }
    }
}

impl vstd::std_specs::cmp::PartialOrdSpecImpl for PriorityClass {
    open spec fn obeys_partial_cmp_spec() -> bool {
        true
    }

    open spec fn partial_cmp_spec(&self, other: &Self) -> Option<Ordering> {
        if self.rank() < other.rank() {
            Some(Ordering::Less)
        } else if self.rank() == other.rank() {
            Some(Ordering::Equal)
        } else {
            Some(Ordering::Greater)
        }
    }
}

/// Classes with the same rank are the same class, and ranks stay below `COUNT`.
pub proof fn law_rank_determines_class(a: PriorityClass, b: PriorityClass)
    ensures
        a.rank() < PriorityClass::COUNT,
        a.rank() == b.rank() ==> a == b,
{
}

/// Where a job is in its lifecycle.
#[derive(Clone, Copy, PartialEq, Eq, Hash, Debug, Structural)]
pub enum JobState {
    Submitted,
    Blocked,
    Ready,
    Running,
    Completed,
    Failed,
    Preempted,
    Cancelled,
}

impl JobState {
    /// True of the states that no edge of the diagram leaves.
    pub open spec fn terminal(self) -> bool {
        self is Completed || self is Failed || self is Cancelled
    }

    /// The state diagram: true when it has the edge `self -> next`.
    pub open spec fn has_edge(self, next: JobState) -> bool {
        match self {
            JobState::Submitted => next is Blocked || next is Ready || next is Cancelled,
            JobState::Blocked => next is Ready || next is Cancelled,
            JobState::Ready => next is Running || next is Cancelled,
            JobState::Running => next is Completed || next is Failed || next is Preempted
                || next is Cancelled,
            JobState::Preempted => next is Ready || next is Completed || next is Failed
                || next is Cancelled,
            JobState::Completed | JobState::Failed | JobState::Cancelled => false,
        }
    }

    /// Every state, in declaration order.
    #[must_use]
    pub fn all() -> (states: [JobState; 8])
        ensures
            states@ =~= seq![
                JobState::Submitted,
                JobState::Blocked,
                JobState::Ready,
                JobState::Running,
                JobState::Completed,
                JobState::Failed,
                JobState::Preempted,
                JobState::Cancelled,
            ],
    {
        [
            JobState::Submitted,
            JobState::Blocked,
            JobState::Ready,
            JobState::Running,
            JobState::Completed,
            JobState::Failed,
            JobState::Preempted,
            JobState::Cancelled,
        ]
    }

    /// True when no transition leaves this state.
    #[must_use]
    pub fn is_terminal(self) -> (terminal: bool)
        ensures
            terminal == self.terminal(),
    {
        matches!(self, JobState::Completed | JobState::Failed | JobState::Cancelled)
    }

    /// True when `self -> next` is a legal transition. The whole state diagram
    /// lives in this one pattern. A preempted job may be requeued, but it may
    /// also end during its grace period, or be cancelled.
    #[must_use]
    pub fn can_transition_to(self, next: JobState) -> (legal: bool)
        ensures
            legal == self.has_edge(next),
    {
        matches!(
            (self, next),
            (JobState::Submitted, JobState::Blocked | JobState::Ready | JobState::Cancelled)
                | (JobState::Blocked, JobState::Ready | JobState::Cancelled)
                | (JobState::Ready, JobState::Running | JobState::Cancelled)
                | (
                    JobState::Running,
                    JobState::Completed | JobState::Failed | JobState::Preempted
                        | JobState::Cancelled,
                )
                | (
                    JobState::Preempted,
                    JobState::Ready | JobState::Completed | JobState::Failed
                        | JobState::Cancelled,
                )
        )
    }
}

/// A state is terminal exactly when no edge leaves it.
pub proof fn law_terminal_iff_no_edge_leaves(state: JobState)
    ensures
        state.terminal() <==> forall|next: JobState| !state.has_edge(next),
{
    if !state.terminal() {
        assert(state.has_edge(JobState::Cancelled));
    }
}

/// No state has an edge to itself.
pub proof fn law_no_self_edges(state: JobState)
    ensures
        !state.has_edge(state),
{
}

/// An illegal state transition was attempted.
#[derive(Clone, Copy, PartialEq, Eq, Debug, Structural)]
pub struct TransitionError {
    pub from: JobState,
    pub to: JobState,
}

/// A unit of work.
#[derive(Debug)]
pub struct Job {
    pub account: AccountId,
    pub priority_class: PriorityClass,
    pub submit_time: VirtualTime,
    pub request: ResourceRequest,
    /// Required: backfill needs an upper bound on how long a job can occupy capacity.
    pub walltime_limit: VirtualDuration,
    /// Jobs that must complete before this one may start.
    pub deps: Deps,
    /// Opaque bytes for the worker. Cloning is a refcount bump.
    pub payload: Bytes,
    pub state: JobState,
    /// How often this job has been evicted.
    pub preemptions: u8,
}

impl Clone for Job {
    fn clone(&self) -> (copy: Self)
        ensures
            copy.account == self.account,
            copy.priority_class == self.priority_class,
            copy.submit_time == self.submit_time,
            copy.request == self.request,
            copy.walltime_limit == self.walltime_limit,
            copy.deps@ == self.deps@,
            crate::domain::deps::bytes_of(copy.payload) == crate::domain::deps::bytes_of(
                self.payload,
            ),
            copy.state == self.state,
            copy.preemptions == self.preemptions,
    {
        Job {
            account: self.account,
            priority_class: self.priority_class,
            submit_time: self.submit_time,
            request: self.request,
            walltime_limit: self.walltime_limit,
            deps: self.deps.clone(),
            payload: self.payload.clone(),
            state: self.state,
            preemptions: self.preemptions,
        }
    }
}

impl Job {
    /// A `Submitted` job with no dependencies and no payload.
    #[must_use]
    pub fn new(
        account: AccountId,
        priority_class: PriorityClass,
        submit_time: VirtualTime,
        request: ResourceRequest,
        walltime_limit: VirtualDuration,
    ) -> (job: Self)
        ensures
            job.account == account,
            job.priority_class == priority_class,
            job.submit_time == submit_time,
            job.request == request,
            job.walltime_limit == walltime_limit,
            job.deps@ == Seq::<JobId>::empty(),
            crate::domain::deps::bytes_of(job.payload) == Seq::<u8>::empty(),
            job.state == JobState::Submitted,
            job.preemptions == 0,
    {
        Job {
            account,
            priority_class,
            submit_time,
            request,
            walltime_limit,
            deps: Deps::new(),
            payload: bytes_new(),
            state: JobState::Submitted,
            preemptions: 0,
        }
    }

    /// This job in another state.
    pub open spec fn in_state(self, state: JobState) -> Job {
        Job { state, ..self }
    }

    /// Moves to `next` if legal; otherwise returns the error and changes nothing.
    ///
    /// # Errors
    /// `TransitionError` when the state diagram has no such edge.
    pub fn try_transition(&mut self, next: JobState) -> (moved: Result<(), TransitionError>)
        ensures
            old(self).state.has_edge(next) ==> moved is Ok && *final(self) == old(self).in_state(
                next,
            ),
            !old(self).state.has_edge(next) ==> moved == Err::<(), _>(
                TransitionError { from: old(self).state, to: next },
            ) && *final(self) == *old(self),
    {
        if self.state.can_transition_to(next) {
            self.state = next;
            Ok(())
        } else {
            Err(TransitionError { from: self.state, to: next })
        }
    }
}

/// The life of a job, told by where each state can be entered from: nothing becomes
/// `Submitted` again; only a new job becomes `Blocked`; a job becomes `Ready` when it
/// is new, unblocked or evicted; only a ready one runs; only a running one is evicted;
/// only one that runs or is being evicted completes or fails; and any that has not
/// ended can be cancelled.
pub proof fn law_where_states_are_entered_from(from: JobState)
    ensures
        !from.has_edge(JobState::Submitted),
        from.has_edge(JobState::Blocked) <==> from == JobState::Submitted,
        from.has_edge(JobState::Ready) <==> from == JobState::Submitted || from
            == JobState::Blocked || from == JobState::Preempted,
        from.has_edge(JobState::Running) <==> from == JobState::Ready,
        from.has_edge(JobState::Preempted) <==> from == JobState::Running,
        from.has_edge(JobState::Completed) <==> from == JobState::Running || from
            == JobState::Preempted,
        from.has_edge(JobState::Failed) <==> from == JobState::Running || from
            == JobState::Preempted,
        from.has_edge(JobState::Cancelled) <==> from != JobState::Completed && from
            != JobState::Failed && from != JobState::Cancelled,
        from.terminal() <==> from == JobState::Completed || from == JobState::Failed || from
            == JobState::Cancelled,
{
}

/// Moving a job to another state changes nothing else of it.
pub proof fn law_moving_changes_the_state_alone(job: Job, state: JobState)
    ensures
        ({
            let after = job.in_state(state);
            &&& after.state == state
            &&& after.account == job.account
            &&& after.priority_class == job.priority_class
            &&& after.submit_time == job.submit_time
            &&& after.request == job.request
            &&& after.walltime_limit == job.walltime_limit
            &&& after.deps == job.deps
            &&& after.payload == job.payload
            &&& after.preemptions == job.preemptions
        }),
{
}

/// The classes from the lowest up: `Low`, `Normal`, `High`, `Urgent`.
pub proof fn law_classes_rank_in_order()
    ensures
        PriorityClass::Low.rank() == 0,
        PriorityClass::Normal.rank() == 1,
        PriorityClass::High.rank() == 2,
        PriorityClass::Urgent.rank() == 3,
{
}

} // verus!

//! The containers from outside crates, through the library that wraps them.
use bytes::Bytes;
use tasker::{
    AccountId, Deps, Job, JobId, JobState, PriorityClass, ResourceRequest, VirtualDuration,
    VirtualTime,
};

fn id(bits: u64) -> JobId {
    JobId::from_bits(bits)
}

fn held(deps: &Deps) -> Vec<JobId> {
    (0..deps.len()).map(|i| deps.get(i).unwrap()).collect()
}

#[test]
fn a_new_dependency_list_is_empty() {
    let deps = Deps::new();
    assert_eq!(deps.len(), 0);
    assert!(deps.is_empty());
    assert_eq!(deps.get(0), None);
    assert_eq!(Deps::default().len(), 0);
}

#[test]
fn pushed_ids_keep_their_order_past_the_inline_ones() {
    let mut deps = Deps::new();
    for n in 0..9 {
        deps.push(id(100 - n));
        assert_eq!(deps.len() as u64, n + 1);
    }
    let want: Vec<JobId> = (0..9).map(|n| id(100 - n)).collect();
    assert_eq!(held(&deps), want);
    assert_eq!(deps.get(9), None);
}

#[test]
fn extending_appends_every_id_in_order() {
    let mut deps = Deps::new();
    deps.push(id(1));
    deps.extend_from_slice(&[id(5), id(3), id(5)]);
    assert_eq!(held(&deps), vec![id(1), id(5), id(3), id(5)]);
}

#[test]
fn clearing_leaves_nothing() {
    let mut deps = Deps::new();
    deps.extend_from_slice(&[id(1), id(2), id(3), id(4), id(5)]);
    deps.clear();
    assert!(deps.is_empty());
    deps.push(id(7));
    assert_eq!(held(&deps), vec![id(7)]);
}

#[test]
fn a_cloned_list_is_equal_and_separate() {
    let mut deps = Deps::new();
    deps.extend_from_slice(&[id(4), id(2)]);
    let copy = deps.clone();
    deps.push(id(9));
    assert_eq!(held(&copy), vec![id(4), id(2)]);
    assert_eq!(held(&deps), vec![id(4), id(2), id(9)]);
}

#[test]
fn a_cloned_job_keeps_every_field() {
    let mut job = Job::new(
        AccountId::new(3),
        PriorityClass::High,
        VirtualTime::from_nanos(11),
        ResourceRequest::new(250, 1 << 20, 1),
        VirtualDuration::from_secs(9),
    );
    assert!(job.payload.is_empty());
    job.payload = Bytes::from(vec![1, 2, 3]);
    job.deps.push(id(77));
    job.state = JobState::Blocked;
    job.preemptions = 2;
    let copy = job.clone();
    assert_eq!(copy.account, AccountId::new(3));
    assert_eq!(copy.priority_class, PriorityClass::High);
    assert_eq!(copy.submit_time, VirtualTime::from_nanos(11));
    assert_eq!(copy.request, ResourceRequest::new(250, 1 << 20, 1));
    assert_eq!(copy.walltime_limit, VirtualDuration::from_secs(9));
    assert_eq!(held(&copy.deps), vec![id(77)]);
    assert_eq!(copy.payload.to_vec(), vec![1, 2, 3]);
    assert_eq!(copy.state, JobState::Blocked);
    assert_eq!(copy.preemptions, 2);
}

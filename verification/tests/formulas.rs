//! Exact values of the arithmetic.
use tasker::{
    build_decay_table, decay_factor, score, AccountId, FairShare, FairShareConfig, Job, Ledger,
    PriorityClass, PriorityConfig, PriorityWeights, ResourceRequest, Resources, VirtualDuration,
    VirtualTime, DECAY_ONE, DECAY_STEPS, FACTOR_SCALE, USAGE_PER_CORE_SECOND,
};

#[test]
fn a_score_is_the_weighted_sum_of_its_factors() {
    let config = PriorityConfig::new(
        PriorityWeights { age: 3, qos: 5, fairshare: 7, size: 11 },
        VirtualDuration::from_nanos(1_000),
        ResourceRequest::new(4_000, 0, 0),
    );
    let job = Job::new(
        AccountId::new(0),
        PriorityClass::High,
        VirtualTime::from_nanos(100),
        ResourceRequest::new(1_000, 0, 0),
        VirtualDuration::from_secs(60),
    );
    // Age 250 of 1 000, class 2 of 3, size 1 000 of 4 000.
    let now = VirtualTime::from_nanos(350);
    assert_eq!(
        score(&job, now, &config, 400_000),
        3 * 250_000 + 5 * 666_666 + 7 * 400_000 + 11 * 250_000
    );
    // A factor past the scale counts as the scale.
    assert_eq!(
        score(&job, now, &config, u64::MAX),
        3 * 250_000 + 5 * 666_666 + 7 * FACTOR_SCALE + 11 * 250_000
    );
}

#[test]
fn a_score_of_the_greatest_age_does_not_wrap() {
    let config = PriorityConfig::new(
        PriorityWeights { age: 1, qos: 0, fairshare: 0, size: 0 },
        VirtualDuration::from_nanos(u64::MAX),
        ResourceRequest::new(0, 0, 0),
    );
    let job = Job::new(
        AccountId::new(0),
        PriorityClass::Low,
        VirtualTime::zero(),
        ResourceRequest::new(8_000, 0, 0),
        VirtualDuration::from_secs(60),
    );
    assert_eq!(score(&job, VirtualTime::from_nanos(u64::MAX), &config, 0), FACTOR_SCALE);
    assert_eq!(score(&job, VirtualTime::from_nanos(u64::MAX / 2), &config, 0), FACTOR_SCALE / 2 - 1);
}

#[test]
fn decay_factors_have_their_fixed_point_values() {
    assert_eq!(decay_factor(0), DECAY_ONE);
    assert_eq!(decay_factor(1), 281_284_510_335_224);
    assert_eq!(decay_factor(2), 281_094_172_843_149);
    assert_eq!(decay_factor(512), 199_032_864_766_194);
    assert_eq!(decay_factor(1_023), 140_832_786_028_024);
    assert_eq!(decay_factor(DECAY_STEPS), DECAY_ONE / 2);
    assert_eq!(decay_factor(1_536), 99_516_432_383_097);
    assert_eq!(decay_factor(47 * DECAY_STEPS), 2);
    assert_eq!(decay_factor(48 * DECAY_STEPS), 0);
    assert_eq!(decay_factor(u64::MAX), 0);
}

#[test]
fn the_searched_table_agrees_with_the_factors() {
    let table = build_decay_table();
    assert_eq!(table.len() as u64, DECAY_STEPS);
    for (k, entry) in table.iter().enumerate() {
        assert_eq!(*entry, decay_factor(k as u64));
    }
}

#[test]
fn factors_follow_the_share_of_usage() {
    let cfg = FairShareConfig::new(VirtualDuration::from_nanos(u64::MAX));
    let mut fs = FairShare::new();
    fs.set_shares(AccountId::new(0), 1).unwrap();
    fs.set_shares(AccountId::new(1), 1).unwrap();
    assert_eq!(fs.shares_total(), 2);
    let now = VirtualTime::from_nanos(1_000_000_000);
    fs.on_dispatch(AccountId::new(0), 1_000, VirtualTime::zero(), &cfg);
    fs.on_release(AccountId::new(0), 1_000, now, &cfg);
    fs.refresh(now, &cfg);
    // All of the usage on half of the shares: twice the share, a quarter.
    assert_eq!(fs.ledger(AccountId::new(0)).unwrap().usage, USAGE_PER_CORE_SECOND);
    assert_eq!(fs.factor(AccountId::new(0)), FACTOR_SCALE / 4);
    assert_eq!(fs.factor(AccountId::new(1)), FACTOR_SCALE);
    // An account nobody has seen earns the most there is.
    assert_eq!(fs.factor(AccountId::new(9)), FACTOR_SCALE);
}

#[test]
fn a_restored_ledger_has_the_parts_it_was_made_of() {
    let ledger = Ledger::from_parts(
        7,
        500,
        3,
        VirtualTime::from_nanos(20),
        VirtualTime::from_nanos(10),
    );
    assert_eq!(ledger.usage, 7);
    assert_eq!(ledger.running_cpu, 500);
    assert_eq!(ledger.shares, 3);
    assert_eq!(ledger.accrued_to(), VirtualTime::from_nanos(20));
    assert_eq!(ledger.decayed_to(), VirtualTime::from_nanos(10));
}

#[test]
fn resource_sums_and_differences_clamp_per_dimension() {
    let a = Resources::new(u32::MAX - 1, 10, 250);
    let b = Resources::new(5, 20, 10);
    assert_eq!(a.saturating_add(&b), Resources::new(u32::MAX, 30, 255));
    assert_eq!(b.saturating_sub(&a), Resources::new(0, 10, 0));
    assert_eq!(a.checked_add(&b), None);
    assert_eq!(
        Resources::new(1, 2, 3).checked_add(&Resources::new(4, 5, 6)),
        Some(Resources::new(5, 7, 9))
    );
}

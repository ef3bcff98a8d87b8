use tasker::Resources;

#[test]
fn resource_fits_within_requires_every_dimension() {
    let capacity = Resources::new(4_000, 8 << 30, 2);
    assert!(Resources::new(4_000, 8 << 30, 2).fits_within(&capacity));
    assert!(
        !Resources::new(4_001, 0, 0).fits_within(&capacity),
        "cpu over"
    );
    assert!(
        !Resources::new(0, (8 << 30) + 1, 0).fits_within(&capacity),
        "mem over"
    );
    assert!(!Resources::new(0, 0, 3).fits_within(&capacity), "gpu over");
}

#[test]
fn resource_zero_fits_within_anything() {
    assert!(Resources::zero().fits_within(&Resources::zero()));
    assert!(Resources::zero().fits_within(&Resources::new(1, 1, 1)));
}

#[test]
fn resource_saturating_sub_floors_at_zero() {
    let got = Resources::new(100, 100, 1).saturating_sub(&Resources::new(500, 500, 5));
    assert_eq!(got, Resources::zero());
}

#[test]
fn resource_checked_add_detects_overflow() {
    let big = Resources::new(u32::MAX, u64::MAX, u8::MAX);
    assert_eq!(big.checked_add(&Resources::new(1, 0, 0)), None);
    assert_eq!(big.checked_add(&Resources::zero()), Some(big));
}

#[test]
fn resource_add_then_sub_roundtrips() {
    let base = Resources::new(1_000, 1 << 30, 1);
    let delta = Resources::new(250, 1 << 28, 1);
    assert_eq!(base.saturating_add(&delta).saturating_sub(&delta), base);
}

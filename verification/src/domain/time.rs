//! Virtual time. The core never reads the wall clock; callers pass time in.
use vstd::prelude::*;

verus! {

/// A point on the virtual clock, in nanoseconds since the scheduler epoch.
#[derive(Clone, Copy, PartialEq, Eq, PartialOrd, Ord, Hash, Debug, Default, Structural)]
pub struct VirtualTime(u64);

/// A span of virtual time, in nanoseconds.
#[derive(Clone, Copy, PartialEq, Eq, PartialOrd, Ord, Hash, Debug, Default, Structural)]
pub struct VirtualDuration(u64);

impl View for VirtualTime {
    type V = u64;

    closed spec fn view(&self) -> u64 {
        self.0
    }
}

impl View for VirtualDuration {
    type V = u64;

    closed spec fn view(&self) -> u64 {
        self.0
    }
}

/// `a + b`, clamped at `u64::MAX`.
pub open spec fn clamped_sum(a: u64, b: u64) -> u64 {
    if a + b > u64::MAX { u64::MAX } else { (a + b) as u64 }
}

/// `a - b`, floored at zero.
pub open spec fn floored_difference(a: u64, b: u64) -> u64 {
    if a < b { 0 } else { (a - b) as u64 }
}

/// `a * b`, clamped at `u64::MAX`.
pub open spec fn clamped_product(a: u64, b: u64) -> u64 {
    if a * b > u64::MAX { u64::MAX } else { (a * b) as u64 }
}

/// Multiplies without wrapping: a product past `u64::MAX` becomes `u64::MAX`.
pub fn saturating_product(a: u64, b: u64) -> (product: u64)
    ensures
        product == clamped_product(a, b),
{
    match a.checked_mul(b) {
        Some(product) => product,
        None => u64::MAX,
    }
}

impl VirtualTime {
    /// The point this many nanoseconds after the epoch.
    pub closed spec fn at(nanos: u64) -> VirtualTime {
        VirtualTime(nanos)
    }

    /// The epoch.
    #[must_use]
    pub fn zero() -> (time: Self)
        ensures
            time@ == 0,
    {
        Self(0)
    }

    /// Wraps a nanosecond count.
    #[must_use]
    pub fn from_nanos(nanos: u64) -> (time: Self)
        ensures
            time == VirtualTime::at(nanos),
            time@ == nanos,
    {
        Self(nanos)
    }

    /// The nanosecond count.
    #[must_use]
    pub fn as_nanos(self) -> (nanos: u64)
        ensures
            nanos == self@,
    {
        self.0
    }

    /// `self + delta`, clamped at `u64::MAX` instead of wrapping.
    #[must_use]
    pub fn saturating_add(self, delta: VirtualDuration) -> (time: Self)
        ensures
            time == VirtualTime::at(clamped_sum(self@, delta@)),
            time@ == clamped_sum(self@, delta@),
    {
        Self(self.0.saturating_add(delta.0))
    }

    /// `self - earlier` as a duration; zero if `earlier` is actually later.
    #[must_use]
    pub fn saturating_sub_time(self, earlier: Self) -> (span: VirtualDuration)
        ensures
            span@ == floored_difference(self@, earlier@),
    {
        VirtualDuration(self.0.saturating_sub(earlier.0))
    }
}

impl VirtualDuration {
    /// No time at all.
    #[must_use]
    pub fn zero() -> (span: Self)
        ensures
            span@ == 0,
    {
        Self(0)
    }

    /// Wraps a nanosecond count.
    #[must_use]
    pub fn from_nanos(nanos: u64) -> (span: Self)
        ensures
            span@ == nanos,
    {
        Self(nanos)
    }

    /// Converts whole seconds, clamping on overflow.
    #[must_use]
    pub fn from_secs(secs: u64) -> (span: Self)
        ensures
            span@ == clamped_product(secs, 1_000_000_000),
    {
        Self(saturating_product(secs, 1_000_000_000))
    }

    /// The nanosecond count.
    #[must_use]
    pub fn as_nanos(self) -> (nanos: u64)
        ensures
            nanos == self@,
    {
        self.0
    }
}

/// A point on the clock carries the nanosecond count it was made from.
pub broadcast proof fn law_nanos_round_trip(nanos: u64)
    ensures
        (#[trigger] VirtualTime::at(nanos))@ == nanos,
{
}

/// Two points are the same when their nanosecond counts are.
pub proof fn law_nanos_determine_time(a: VirtualTime, b: VirtualTime)
    ensures
        a@ == b@ ==> a == b,
{
}

/// Two spans are the same when their nanosecond counts are.
pub proof fn law_nanos_determine_duration(a: VirtualDuration, b: VirtualDuration)
    ensures
        a@ == b@ ==> a == b,
{
}

/// Clock sums stop at the top of the range and differences at zero; they are exact
/// otherwise. So are products.
pub proof fn law_clock_arithmetic_saturates(a: u64, b: u64)
    ensures
        a + b <= u64::MAX ==> clamped_sum(a, b) == a + b,
        a + b > u64::MAX ==> clamped_sum(a, b) == u64::MAX,
        a >= b ==> floored_difference(a, b) == a - b,
        a < b ==> floored_difference(a, b) == 0,
        a * b <= u64::MAX ==> clamped_product(a, b) == a * b,
        a * b > u64::MAX ==> clamped_product(a, b) == u64::MAX,
{
    assert(a * b >= 0) by (nonlinear_arith)
        requires
            a >= 0,
            b >= 0,
    ;
}

} // verus!

//! The resource vector shared by job requests and slot capacity.
use vstd::prelude::*;

verus! {

/// CPU millicores, memory bytes, and whole GPUs. One type serves as both a
/// request and a capacity, so "fits" has exactly one definition.
#[derive(Clone, Copy, PartialEq, Eq, Hash, Debug, Structural)]
pub struct Resources {
    pub cpu_millis: u32,
    pub mem_bytes: u64,
    pub gpus: u8,
}

/// What a job asks for.
pub type ResourceRequest = Resources;

/// What a slot offers.
pub type Capacity = Resources;

impl Resources {
    /// The vector that is zero in every dimension.
    pub open spec fn nothing() -> Self {
        Resources { cpu_millis: 0, mem_bytes: 0, gpus: 0 }
    }

    /// Componentwise `<=`.
    pub open spec fn le(self, other: Self) -> bool {
        &&& self.cpu_millis <= other.cpu_millis
        &&& self.mem_bytes <= other.mem_bytes
        &&& self.gpus <= other.gpus
    }

    /// True when the exact componentwise sum stays within every type's range.
    pub open spec fn sum_in_range(self, other: Self) -> bool {
        &&& self.cpu_millis + other.cpu_millis <= u32::MAX
        &&& self.mem_bytes + other.mem_bytes <= u64::MAX
        &&& self.gpus + other.gpus <= u8::MAX
    }

    /// Componentwise sum, clamped at each type's maximum.
    pub open spec fn plus(self, other: Self) -> Self {
        Resources {
            cpu_millis: if self.cpu_millis + other.cpu_millis > u32::MAX {
                u32::MAX
            } else {
                (self.cpu_millis + other.cpu_millis) as u32
            },
            mem_bytes: if self.mem_bytes + other.mem_bytes > u64::MAX {
                u64::MAX
            } else {
                (self.mem_bytes + other.mem_bytes) as u64
            },
            gpus: if self.gpus + other.gpus > u8::MAX {
                u8::MAX
            } else {
                (self.gpus + other.gpus) as u8
            },
        }
    }

    /// Componentwise difference, floored at zero.
    pub open spec fn minus(self, other: Self) -> Self {
        Resources {
            cpu_millis: if self.cpu_millis < other.cpu_millis {
                0
            } else {
                (self.cpu_millis - other.cpu_millis) as u32
            },
            mem_bytes: if self.mem_bytes < other.mem_bytes {
                0
            } else {
                (self.mem_bytes - other.mem_bytes) as u64
            },
            gpus: if self.gpus < other.gpus {
                0
            } else {
                (self.gpus - other.gpus) as u8
            },
        }
    }

    /// Componentwise maximum.
    pub open spec fn join(self, other: Self) -> Self {
        Resources {
            cpu_millis: if self.cpu_millis < other.cpu_millis {
                other.cpu_millis
            } else {
                self.cpu_millis
            },
            mem_bytes: if self.mem_bytes < other.mem_bytes {
                other.mem_bytes
            } else {
                self.mem_bytes
            },
            gpus: if self.gpus < other.gpus {
                other.gpus
            } else {
                self.gpus
            },
        }
    }

    /// All zero.
    #[must_use]
    pub fn zero() -> (r: Self)
        ensures
            r == Self::nothing(),
    {
        Resources { cpu_millis: 0, mem_bytes: 0, gpus: 0 }
    }

    /// Builds a vector from its three dimensions.
    #[must_use]
    pub fn new(cpu_millis: u32, mem_bytes: u64, gpus: u8) -> (r: Self)
        ensures
            r == (Resources { cpu_millis, mem_bytes, gpus }),
    {
        Resources { cpu_millis, mem_bytes, gpus }
    }

    /// True when every dimension is `<=` the matching one in `capacity`.
    #[must_use]
    pub fn fits_within(&self, capacity: &Self) -> (fits: bool)
        ensures
            fits == self.le(*capacity),
    {
        self.cpu_millis <= capacity.cpu_millis && self.mem_bytes <= capacity.mem_bytes && self.gpus
            <= capacity.gpus
    }

    /// Componentwise sum, or `None` if any dimension would overflow.
    #[must_use]
    pub fn checked_add(&self, other: &Self) -> (sum: Option<Self>)
        ensures
            sum == (if self.sum_in_range(*other) {
                Some(self.plus(*other))
            } else {
                None
            }),
    {
        let Some(cpu_millis) = self.cpu_millis.checked_add(other.cpu_millis) else {
            return None;
        };
        let Some(mem_bytes) = self.mem_bytes.checked_add(other.mem_bytes) else {
            return None;
        };
        let Some(gpus) = self.gpus.checked_add(other.gpus) else {
            return None;
        };
        Some(Resources { cpu_millis, mem_bytes, gpus })
    }

    /// Componentwise sum, clamped at each type's maximum.
    #[must_use]
    pub fn saturating_add(&self, other: &Self) -> (sum: Self)
        ensures
            sum == self.plus(*other),
    {
        Resources {
            cpu_millis: self.cpu_millis.saturating_add(other.cpu_millis),
            mem_bytes: self.mem_bytes.saturating_add(other.mem_bytes),
            gpus: self.gpus.saturating_add(other.gpus),
        }
    }

    /// Componentwise difference, floored at zero.
    #[must_use]
    pub fn saturating_sub(&self, other: &Self) -> (difference: Self)
        ensures
            difference == self.minus(*other),
    {
        Resources {
            cpu_millis: self.cpu_millis.saturating_sub(other.cpu_millis),
            mem_bytes: self.mem_bytes.saturating_sub(other.mem_bytes),
            gpus: self.gpus.saturating_sub(other.gpus),
        }
    }

    /// Componentwise maximum: the least vector both arguments fit within.
    #[must_use]
    pub(crate) fn max_with(&self, other: &Self) -> (r: Self)
        ensures
            r == self.join(*other),
    {
        Resources {
            cpu_millis: if self.cpu_millis < other.cpu_millis {
                other.cpu_millis
            } else {
                self.cpu_millis
            },
            mem_bytes: if self.mem_bytes < other.mem_bytes {
                other.mem_bytes
            } else {
                self.mem_bytes
            },
            gpus: if self.gpus < other.gpus {
                other.gpus
            } else {
                self.gpus
            },
        }
    }
}

impl Default for Resources {
    fn default() -> (r: Self)
        ensures
            r == Self::nothing(),
    {
        Resources::zero()
    }
}

/// A resource vector over the integers, for sums that no type bounds.
pub struct Amount {
    pub cpu_millis: int,
    pub mem_bytes: int,
    pub gpus: int,
}

impl Amount {
    /// The vector that is zero in every dimension.
    pub open spec fn zero() -> Amount {
        Amount { cpu_millis: 0, mem_bytes: 0, gpus: 0 }
    }

    /// The same vector over the integers.
    pub open spec fn of(r: Resources) -> Amount {
        Amount {
            cpu_millis: r.cpu_millis as int,
            mem_bytes: r.mem_bytes as int,
            gpus: r.gpus as int,
        }
    }

    /// Componentwise sum.
    pub open spec fn plus(self, other: Amount) -> Amount {
        Amount {
            cpu_millis: self.cpu_millis + other.cpu_millis,
            mem_bytes: self.mem_bytes + other.mem_bytes,
            gpus: self.gpus + other.gpus,
        }
    }

    /// Componentwise `<=`.
    pub open spec fn le(self, other: Amount) -> bool {
        &&& self.cpu_millis <= other.cpu_millis
        &&& self.mem_bytes <= other.mem_bytes
        &&& self.gpus <= other.gpus
    }

    /// True when `request` is no larger in any dimension.
    pub open spec fn covers(self, request: Resources) -> bool {
        Amount::of(request).le(self)
    }

    /// `r` is this amount, clamped at each type's maximum.
    pub open spec fn clamps_to(self, r: Resources) -> bool {
        &&& r.cpu_millis == if self.cpu_millis > u32::MAX {
            u32::MAX as int
        } else {
            self.cpu_millis
        }
        &&& r.mem_bytes == if self.mem_bytes > u64::MAX {
            u64::MAX as int
        } else {
            self.mem_bytes
        }
        &&& r.gpus == if self.gpus > u8::MAX {
            u8::MAX as int
        } else {
            self.gpus
        }
    }
}

/// "Fits within" is a partial order with the zero vector at the bottom.
pub proof fn law_fits_is_a_partial_order(a: Resources, b: Resources, c: Resources)
    ensures
        a.le(a),
        a.le(b) && b.le(a) ==> a == b,
        a.le(b) && b.le(c) ==> a.le(c),
        Resources::nothing().le(a),
{
}

/// Adding and then subtracting the same vector is the identity whenever the
/// addition did not clamp.
pub proof fn law_add_then_sub_round_trips(a: Resources, b: Resources)
    requires
        a.sum_in_range(b),
    ensures
        a.plus(b).minus(b) == a,
{
}

/// A clamped sum bounds both its arguments, and does not depend on their order.
pub proof fn law_sum_bounds_its_parts(a: Resources, b: Resources)
    ensures
        a.le(a.plus(b)),
        b.le(a.plus(b)),
        a.plus(b) == b.plus(a),
{
}

/// Fitting is fitting in every dimension: cpu, memory and gpus.
pub proof fn law_fits_means_every_dimension(a: Resources, b: Resources)
    ensures
        a.le(b) <==> a.cpu_millis <= b.cpu_millis && a.mem_bytes <= b.mem_bytes && a.gpus <= b.gpus,
        a.sum_in_range(b) <==> a.cpu_millis + b.cpu_millis <= u32::MAX && a.mem_bytes + b.mem_bytes
            <= u64::MAX && a.gpus + b.gpus <= u8::MAX,
{
}

/// A sum or a difference is taken in every dimension by itself. A difference never
/// falls below zero, and what it leaves is what is missing for the whole.
pub proof fn law_resources_add_and_subtract_by_dimension(a: Resources, b: Resources)
    ensures
        a.sum_in_range(b) ==> a.plus(b).cpu_millis == a.cpu_millis + b.cpu_millis && a.plus(
            b,
        ).mem_bytes == a.mem_bytes + b.mem_bytes && a.plus(b).gpus == a.gpus + b.gpus,
        a.cpu_millis + b.cpu_millis > u32::MAX ==> a.plus(b).cpu_millis == u32::MAX,
        a.mem_bytes + b.mem_bytes > u64::MAX ==> a.plus(b).mem_bytes == u64::MAX,
        a.gpus + b.gpus > u8::MAX ==> a.plus(b).gpus == u8::MAX,
        a.cpu_millis + b.cpu_millis <= u32::MAX ==> a.plus(b).cpu_millis == a.cpu_millis
            + b.cpu_millis,
        a.mem_bytes + b.mem_bytes <= u64::MAX ==> a.plus(b).mem_bytes == a.mem_bytes + b.mem_bytes,
        a.gpus + b.gpus <= u8::MAX ==> a.plus(b).gpus == a.gpus + b.gpus,
        b.cpu_millis <= a.cpu_millis ==> a.minus(b).cpu_millis + b.cpu_millis == a.cpu_millis,
        b.mem_bytes <= a.mem_bytes ==> a.minus(b).mem_bytes + b.mem_bytes == a.mem_bytes,
        b.gpus <= a.gpus ==> a.minus(b).gpus + b.gpus == a.gpus,
        b.cpu_millis > a.cpu_millis ==> a.minus(b).cpu_millis == 0,
        b.mem_bytes > a.mem_bytes ==> a.minus(b).mem_bytes == 0,
        b.gpus > a.gpus ==> a.minus(b).gpus == 0,
{
}

/// The join is the least vector that both fit within.
pub proof fn law_join_is_the_least_upper_bound(a: Resources, b: Resources, c: Resources)
    ensures
        a.le(a.join(b)),
        b.le(a.join(b)),
        a.le(c) && b.le(c) ==> a.join(b).le(c),
{
}

} // verus!

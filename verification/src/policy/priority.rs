//! Multifactor priority in fixed-point integers. Integers give a true total
//! order (no NaN) and deterministic results across machines.
use crate::domain::{Job, JobId, PriorityClass, ResourceRequest, VirtualDuration, VirtualTime};
use std::cmp::Ordering;
use vstd::arithmetic::div_mod;
use vstd::prelude::*;

verus! {

/// A priority score. Higher runs sooner.
pub type Score = u64;

/// Each factor is scaled into `0..=FACTOR_SCALE` before weighting.
pub const FACTOR_SCALE: u64 = 1_000_000;

/// Relative weight of each factor.
#[derive(Clone, Copy, PartialEq, Eq, Debug, Structural)]
pub struct PriorityWeights {
    pub age: u32,
    pub qos: u32,
    /// Weight of the account's fair-share factor.
    pub fairshare: u32,
    pub size: u32,
}

impl Default for PriorityWeights {
    fn default() -> (weights: Self)
        ensures
            weights == (PriorityWeights { age: 1_000, qos: 1_000, fairshare: 1_000, size: 100 }),
    {
        PriorityWeights { age: 1_000, qos: 1_000, fairshare: 1_000, size: 100 }
    }
}

/// Everything scoring needs beyond the job itself.
#[derive(Clone, Copy, Debug)]
pub struct PriorityConfig {
    pub weights: PriorityWeights,
    /// Age at which the age factor stops growing.
    pub age_horizon: VirtualDuration,
    /// Reference request the size factor is measured against.
    pub largest_request: ResourceRequest,
}

impl PriorityConfig {
    /// Bundles the three inputs.
    #[must_use]
    pub fn new(
        weights: PriorityWeights,
        age_horizon: VirtualDuration,
        largest_request: ResourceRequest,
    ) -> (config: Self)
        ensures
            config == (PriorityConfig { weights, age_horizon, largest_request }),
    {
        PriorityConfig { weights, age_horizon, largest_request }
    }

    /// Smallest age step that can change the age factor.
    #[must_use]
    pub fn age_quantum(&self) -> (quantum: VirtualDuration)
        ensures
            quantum@ == self.age_horizon@ / FACTOR_SCALE,
    {
        VirtualDuration::from_nanos(self.age_horizon.as_nanos() / FACTOR_SCALE)
    }
}

/// `value` as a share of `max` in units of `1 / FACTOR_SCALE`, rounded down and
/// clamped at the whole. A `max` of 0 disables the factor.
pub open spec fn scaled(value: int, max: int) -> int {
    if max == 0 {
        0
    } else if value > max {
        FACTOR_SCALE as int
    } else {
        (value * FACTOR_SCALE) / max
    }
}

/// The age factor of a job of this age.
pub open spec fn age_factor(job: Job, now: VirtualTime, config: PriorityConfig) -> int {
    scaled(
        crate::domain::time::floored_difference(now@, job.submit_time@) as int,
        config.age_horizon@ as int,
    )
}

/// The weighted sum a job scores.
pub open spec fn weighted_score(
    job: Job,
    now: VirtualTime,
    config: PriorityConfig,
    fairshare_factor: u64,
) -> int {
    let fairshare = if fairshare_factor > FACTOR_SCALE {
        FACTOR_SCALE
    } else {
        fairshare_factor
    };
    age_factor(job, now, config) * config.weights.age + scaled(job.priority_class.rank() as int, 3)
        * config.weights.qos + fairshare * config.weights.fairshare + scaled(
        job.request.cpu_millis as int,
        config.largest_request.cpu_millis as int,
    ) * config.weights.size
}

proof fn lemma_scaled_bounds(value: int, max: int)
    requires
        0 <= value,
        0 <= max,
    ensures
        0 <= scaled(value, max) <= FACTOR_SCALE,
{
    if max != 0 && value <= max {
        let s = FACTOR_SCALE as int;
        assert(0 <= value * s <= s * max) by (nonlinear_arith)
            requires
                0 <= value <= max,
                s == 1_000_000,
        ;
        div_mod::lemma_div_is_ordered(value * s, s * max, max);
        div_mod::lemma_div_multiples_vanish(s, max);
        div_mod::lemma_div_is_ordered(0, value * s, max);
        assert(max * s == s * max) by (nonlinear_arith);
    }
}

/// The factor never falls as its input grows.
proof fn lemma_scaled_monotone(a: int, b: int, max: int)
    requires
        0 <= a <= b,
        0 <= max,
    ensures
        scaled(a, max) <= scaled(b, max),
{
    lemma_scaled_bounds(a, max);
    if max != 0 && b <= max {
        let s = FACTOR_SCALE as int;
        assert(a * s <= b * s) by (nonlinear_arith)
            requires
                a <= b,
                s == 1_000_000,
        ;
        div_mod::lemma_div_is_ordered(a * s, b * s, max);
    }
}

proof fn lemma_weighted_bound(f: int, w: u32)
    requires
        0 <= f <= FACTOR_SCALE,
    ensures
        0 <= f * w <= 4_294_967_295_000_000,
{
    assert(0 <= f * w <= 1_000_000 * 4_294_967_295) by (nonlinear_arith)
        requires
            0 <= f <= 1_000_000,
            0 <= w <= 4_294_967_295,
    ;
}

/// Scales `value` into `0..=FACTOR_SCALE` relative to `max`, clamping above.
/// A `max` of 0 disables the factor.
fn factor(value: u64, max: u64) -> (scale: u64)
    ensures
        scale == scaled(value as int, max as int),
        scale <= FACTOR_SCALE,
{
    if max == 0 {
        return 0;
    }
    // Clamp first, then widen, so the product cannot overflow.
    let clamped: u64 = if value > max {
        max
    } else {
        value
    };
    proof {
        let s = FACTOR_SCALE as int;
        lemma_scaled_bounds(value as int, max as int);
        assert(clamped * s <= 0xffff_ffff_ffff_ffff * 1_000_000) by (nonlinear_arith)
            requires
                0 <= clamped <= 0xffff_ffff_ffff_ffff,
                s == 1_000_000,
        ;
        if value > max {
            assert(max * s == s * max) by (nonlinear_arith);
            div_mod::lemma_div_multiples_vanish(s, max as int);
        }
    }
    ((clamped as u128 * FACTOR_SCALE as u128) / max as u128) as u64
}

/// The job's priority at `now`. `fairshare_factor` is the account's value from
/// `FairShare::factor`, already in `0..=FACTOR_SCALE`; anything above counts as
/// `FACTOR_SCALE`.
#[must_use]
pub fn score(
    job: &Job,
    now: VirtualTime,
    config: &PriorityConfig,
    fairshare_factor: u64,
) -> (score: Score)
    ensures
        score == weighted_score(*job, now, *config, fairshare_factor),
{
    let age: u64 = now.saturating_sub_time(job.submit_time).as_nanos();
    let age_factor: u64 = factor(age, config.age_horizon.as_nanos());
    let qos_factor: u64 = factor(
        job.priority_class.ordinal() as u64,
        (PriorityClass::COUNT - 1) as u64,
    );
    // Clamp so a caller's bad value cannot break the overflow bound below.
    let fairshare_factor: u64 = if fairshare_factor > FACTOR_SCALE {
        FACTOR_SCALE
    } else {
        fairshare_factor
    };
    let size_factor: u64 = factor(
        job.request.cpu_millis as u64,
        config.largest_request.cpu_millis as u64,
    );
    proof {
        lemma_weighted_bound(age_factor as int, config.weights.age);
        lemma_weighted_bound(qos_factor as int, config.weights.qos);
        lemma_weighted_bound(fairshare_factor as int, config.weights.fairshare);
        lemma_weighted_bound(size_factor as int, config.weights.size);
    }
    // Each term is at most FACTOR_SCALE * u32::MAX, well inside u64.
    age_factor * config.weights.age as u64 + qos_factor * config.weights.qos as u64
        + fairshare_factor * config.weights.fairshare as u64 + size_factor
        * config.weights.size as u64
}

/// Every score is a `u64`, whatever the inputs: four terms of at most
/// `FACTOR_SCALE * u32::MAX` each.
pub proof fn law_score_is_bounded(
    job: Job,
    now: VirtualTime,
    config: PriorityConfig,
    fairshare_factor: u64,
)
    ensures
        0 <= weighted_score(job, now, config, fairshare_factor) <= 4 * FACTOR_SCALE * u32::MAX,
{
    let age = crate::domain::time::floored_difference(now@, job.submit_time@) as int;
    lemma_scaled_bounds(age, config.age_horizon@ as int);
    lemma_scaled_bounds(job.priority_class.rank() as int, 3);
    lemma_scaled_bounds(
        job.request.cpu_millis as int,
        config.largest_request.cpu_millis as int,
    );
    let fairshare = if fairshare_factor > FACTOR_SCALE {
        FACTOR_SCALE
    } else {
        fairshare_factor
    };
    lemma_weighted_bound(age_factor(job, now, config), config.weights.age);
    lemma_weighted_bound(scaled(job.priority_class.rank() as int, 3), config.weights.qos);
    lemma_weighted_bound(fairshare as int, config.weights.fairshare);
    lemma_weighted_bound(
        scaled(job.request.cpu_millis as int, config.largest_request.cpu_millis as int),
        config.weights.size,
    );
}

/// Waiting never lowers a score.
pub proof fn law_score_never_decreases_with_age(
    job: Job,
    earlier: VirtualTime,
    later: VirtualTime,
    config: PriorityConfig,
    fairshare_factor: u64,
)
    requires
        earlier@ <= later@,
    ensures
        weighted_score(job, earlier, config, fairshare_factor) <= weighted_score(
            job,
            later,
            config,
            fairshare_factor,
        ),
{
    let a = crate::domain::time::floored_difference(earlier@, job.submit_time@) as int;
    let b = crate::domain::time::floored_difference(later@, job.submit_time@) as int;
    lemma_scaled_monotone(a, b, config.age_horizon@ as int);
    let (fa, fb, w) = (
        age_factor(job, earlier, config),
        age_factor(job, later, config),
        config.weights.age,
    );
    assert(fa * w <= fb * w) by (nonlinear_arith)
        requires
            fa <= fb,
            w >= 0,
    ;
}

/// Below the horizon, with a horizon that divides into whole quanta, every
/// quantum waited adds exactly one to the age factor, so exactly the age weight
/// to the score.
pub proof fn law_score_rises_by_the_age_weight_each_quantum(
    job: Job,
    earlier: VirtualTime,
    later: VirtualTime,
    config: PriorityConfig,
    fairshare_factor: u64,
)
    requires
        config.age_horizon@ % FACTOR_SCALE == 0,
        config.age_horizon@ > 0,
        job.submit_time@ <= earlier@,
        later@ == earlier@ + config.age_horizon@ / FACTOR_SCALE,
        later@ - job.submit_time@ <= config.age_horizon@,
    ensures
        weighted_score(job, later, config, fairshare_factor) == weighted_score(
            job,
            earlier,
            config,
            fairshare_factor,
        ) + config.weights.age,
{
    let h = config.age_horizon@ as int;
    let s = FACTOR_SCALE as int;
    let q = h / s;
    let a = earlier@ - job.submit_time@;
    let b = later@ - job.submit_time@;
    assert(b == a + q);
    assert(q * s == h);
    assert(b * s == a * s + h) by (nonlinear_arith)
        requires
            b == a + q,
            q * s == h,
    ;
    assert((a * s + h) / h == (a * s) / h + 1) by {
        div_mod::lemma_div_plus_one(a * s, h);
    }
    let (fa, fb, w) = (
        age_factor(job, earlier, config),
        age_factor(job, later, config),
        config.weights.age,
    );
    assert(fb == fa + 1);
    assert(fb * w == fa * w + w) by (nonlinear_arith)
        requires
            fb == fa + 1,
    ;
}

/// Among jobs that differ in class alone, the higher class never scores lower.
pub proof fn law_higher_class_never_scores_lower(
    a: Job,
    b: Job,
    now: VirtualTime,
    config: PriorityConfig,
    fairshare_factor: u64,
)
    requires
        a.submit_time == b.submit_time,
        a.request == b.request,
        a.priority_class.rank() <= b.priority_class.rank(),
    ensures
        weighted_score(a, now, config, fairshare_factor) <= weighted_score(
            b,
            now,
            config,
            fairshare_factor,
        ),
{
    let (qa, qb) = (
        scaled(a.priority_class.rank() as int, 3),
        scaled(b.priority_class.rank() as int, 3),
    );
    lemma_scaled_monotone(a.priority_class.rank() as int, b.priority_class.rank() as int, 3);
    let w = config.weights.qos;
    assert(qa * w <= qb * w) by (nonlinear_arith)
        requires
            qa <= qb,
            w >= 0,
    ;
}

/// A factor with zero weight contributes nothing: with only the age weight
/// left, jobs of the same age score the same whatever else they differ in.
pub proof fn law_zero_weights_remove_their_factors(
    a: Job,
    b: Job,
    now: VirtualTime,
    config: PriorityConfig,
    fa: u64,
    fb: u64,
)
    requires
        a.submit_time == b.submit_time,
        config.weights.qos == 0,
        config.weights.fairshare == 0,
        config.weights.size == 0,
    ensures
        weighted_score(a, now, config, fa) == weighted_score(b, now, config, fb),
        weighted_score(a, now, config, fa) == age_factor(a, now, config) * config.weights.age,
{
}

/// A larger fair-share factor never lowers a score.
pub proof fn law_fairshare_factor_never_lowers_the_score(
    job: Job,
    now: VirtualTime,
    config: PriorityConfig,
    lower: u64,
    higher: u64,
)
    requires
        lower <= higher,
    ensures
        weighted_score(job, now, config, lower) <= weighted_score(job, now, config, higher),
{
    let (fa, fb) = (
        if lower > FACTOR_SCALE {
            FACTOR_SCALE
        } else {
            lower
        },
        if higher > FACTOR_SCALE {
            FACTOR_SCALE
        } else {
            higher
        },
    );
    let w = config.weights.fairshare;
    assert(fa * w <= fb * w) by (nonlinear_arith)
        requires
            fa <= fb,
            w >= 0,
    ;
}

/// Size counts by cpu alone. Two jobs as old and of one class differ by the size
/// weight times the difference of their cpu in millionths of the largest request's,
/// rounded down and at most the whole. So more cpu never lowers a score, and
/// neither memory nor gpus, nor anything else of the jobs, enters it.
pub proof fn law_size_counts_by_cpu_alone(
    a: Job,
    b: Job,
    now: VirtualTime,
    config: PriorityConfig,
    fairshare_factor: u64,
)
    requires
        a.submit_time == b.submit_time,
        a.priority_class == b.priority_class,
    ensures
        ({
            let largest = config.largest_request.cpu_millis as int;
            let (x, y) = (a.request.cpu_millis as int, b.request.cpu_millis as int);
            let (of_a, of_b) = (
                weighted_score(a, now, config, fairshare_factor),
                weighted_score(b, now, config, fairshare_factor),
            );
            &&& largest == 0 ==> of_a == of_b
            &&& largest > 0 ==> of_a - of_b == config.weights.size * ((if x < largest {
                x
            } else {
                largest
            }) * 1_000_000 / largest - (if y < largest {
                y
            } else {
                largest
            }) * 1_000_000 / largest)
            &&& x <= y ==> of_a <= of_b
            &&& x == y ==> of_a == of_b
        }),
{
    let largest = config.largest_request.cpu_millis as int;
    let (x, y) = (a.request.cpu_millis as int, b.request.cpu_millis as int);
    let (fa, fb, w) = (scaled(x, largest), scaled(y, largest), config.weights.size);
    lemma_scaled_is_a_share(x, largest);
    lemma_scaled_is_a_share(y, largest);
    assert(w * (fa - fb) == fa * w - fb * w) by (nonlinear_arith);
    if x <= y {
        lemma_scaled_monotone(x, y, largest);
        assert(fa * w <= fb * w) by (nonlinear_arith)
            requires
                fa <= fb,
                w >= 0,
        ;
    }
}

/// A factor is the value in millionths of `max`, rounded down and at most the whole.
proof fn lemma_scaled_is_a_share(value: int, max: int)
    requires
        0 <= value,
        0 <= max,
    ensures
        max == 0 ==> scaled(value, max) == 0,
        max > 0 ==> scaled(value, max) == (if value < max {
            value
        } else {
            max
        }) * 1_000_000 / max,
{
    if max > 0 && value >= max {
        div_mod::lemma_div_multiples_vanish(1_000_000, max);
        assert(value == max ==> value * FACTOR_SCALE == max * 1_000_000);
    }
}

/// Age counts by the time waited. A job scored at two times, or two jobs of one
/// class and one request each at its time, differ by the age weight times the
/// difference of the times waited, in millionths of the horizon, rounded down and
/// at most the whole. Before it was submitted a job has waited no time.
pub proof fn law_age_counts_by_the_time_waited(
    a: Job,
    at_a: VirtualTime,
    b: Job,
    at_b: VirtualTime,
    config: PriorityConfig,
    fairshare_factor: u64,
)
    requires
        a.request.cpu_millis == b.request.cpu_millis,
        a.priority_class == b.priority_class,
    ensures
        ({
            let horizon = config.age_horizon@ as int;
            let x = if at_a@ > a.submit_time@ {
                at_a@ - a.submit_time@
            } else {
                0
            };
            let y = if at_b@ > b.submit_time@ {
                at_b@ - b.submit_time@
            } else {
                0
            };
            let (of_a, of_b) = (
                weighted_score(a, at_a, config, fairshare_factor),
                weighted_score(b, at_b, config, fairshare_factor),
            );
            &&& horizon == 0 ==> of_a == of_b
            &&& horizon > 0 ==> of_a - of_b == config.weights.age * ((if x < horizon {
                x
            } else {
                horizon
            }) * 1_000_000 / horizon - (if y < horizon {
                y
            } else {
                horizon
            }) * 1_000_000 / horizon)
        }),
{
    let horizon = config.age_horizon@ as int;
    let x = crate::domain::time::floored_difference(at_a@, a.submit_time@) as int;
    let y = crate::domain::time::floored_difference(at_b@, b.submit_time@) as int;
    let (fa, fb, w) = (scaled(x, horizon), scaled(y, horizon), config.weights.age);
    lemma_scaled_is_a_share(x, horizon);
    lemma_scaled_is_a_share(y, horizon);
    assert(w * (fa - fb) == fa * w - fb * w) by (nonlinear_arith);
}

/// Class counts by thirds: from `Low` at nothing up to `Urgent` at the whole, one
/// third of the quality-of-service weight apart, each rounded down to a millionth.
pub proof fn law_class_counts_by_thirds(
    a: Job,
    b: Job,
    now: VirtualTime,
    config: PriorityConfig,
    fairshare_factor: u64,
)
    requires
        a.submit_time == b.submit_time,
        a.request.cpu_millis == b.request.cpu_millis,
        a.priority_class is Low,
    ensures
        weighted_score(b, now, config, fairshare_factor) - weighted_score(
            a,
            now,
            config,
            fairshare_factor,
        ) == config.weights.qos * (match b.priority_class {
            PriorityClass::Low => 0int,
            PriorityClass::Normal => 333_333int,
            PriorityClass::High => 666_666int,
            PriorityClass::Urgent => 1_000_000int,
        }),
{
    let (f, w) = (scaled(b.priority_class.rank() as int, 3), config.weights.qos);
    assert(scaled(a.priority_class.rank() as int, 3) == 0);
    assert(0 * w == 0) by (nonlinear_arith);
    assert(w * f == f * w) by (nonlinear_arith);
}

/// The account's factor counts as it is, up to the whole: the same job under two
/// factors differs by the fair-share weight times their difference.
pub proof fn law_fairshare_counts_by_the_factor(
    job: Job,
    now: VirtualTime,
    config: PriorityConfig,
    f: u64,
    g: u64,
)
    ensures
        weighted_score(job, now, config, f) - weighted_score(job, now, config, g)
            == config.weights.fairshare * ((if f < 1_000_000 {
            f as int
        } else {
            1_000_000
        }) - (if g < 1_000_000 {
            g as int
        } else {
            1_000_000
        })),
{
    let x = if f > FACTOR_SCALE {
        FACTOR_SCALE
    } else {
        f
    };
    let y = if g > FACTOR_SCALE {
        FACTOR_SCALE
    } else {
        g
    };
    let w = config.weights.fairshare;
    assert(w * (x - y) == x * w - y * w) by (nonlinear_arith);
}

/// A job with nothing to its credit scores nothing: just submitted, of the lowest
/// class, asking for no cpu, with no factor.
pub proof fn law_nothing_scores_nothing(job: Job, now: VirtualTime, config: PriorityConfig)
    requires
        now@ <= job.submit_time@,
        job.priority_class is Low,
        job.request.cpu_millis == 0,
    ensures
        weighted_score(job, now, config, 0) == 0,
{
    let (h, l) = (config.age_horizon@ as int, config.largest_request.cpu_millis as int);
    lemma_scaled_is_a_share(0, h);
    lemma_scaled_is_a_share(0, l);
    if h > 0 {
        div_mod::lemma_div_basics(h);
    }
    if l > 0 {
        div_mod::lemma_div_basics(l);
    }
    assert(scaled(0, 3) == 0);
    let w = config.weights;
    assert(0 * w.age == 0 && 0 * w.qos == 0 && 0 * w.fairshare == 0 && 0 * w.size == 0)
        by (nonlinear_arith);
}

/// What ranks higher goes by score, and among equal scores by the smaller handle.
pub proof fn law_keys_compare_by_score_then_handle(a: OrderKey, b: OrderKey)
    ensures
        a.rank() > b.rank() <==> a.score_part() > b.score_part() || (a.score_part()
            == b.score_part() && a.job_part()@ < b.job_part()@),
{
    law_order_is_total(b.score_part(), b.job_part(), a.score_part(), a.job_part());
}

/// The place of a job at a score in the total order: the score decides, and
/// among equal scores the smaller handle comes out on top.
pub open spec fn order_rank(score: Score, job: JobId) -> int {
    score * 0x1_0000_0000_0000_0000 + (u64::MAX - job@)
}

/// The total order the ready set sorts by: higher score first, then lower
/// `JobId` (older) first.
#[derive(Clone, Copy, PartialEq, Eq, Ord, Debug, Structural)]
pub struct OrderKey {
    score: Score,
    // The complement of the id, so that a smaller id sorts as "greater".
    tiebreak: u64,
}

impl OrderKey {
    /// The score component.
    pub closed spec fn score_part(self) -> Score {
        self.score
    }

    /// The job component.
    pub closed spec fn job_part(self) -> JobId {
        JobId::of_bits((u64::MAX - self.tiebreak) as u64)
    }

    /// Where this key stands in the total order.
    pub open spec fn rank(self) -> int {
        order_rank(self.score_part(), self.job_part())
    }

    /// Builds the key for a job at a score.
    #[must_use]
    pub fn new(score: Score, id: JobId) -> (key: Self)
        ensures
            key.score_part() == score,
            key.job_part() == id,
    {
        broadcast use crate::domain::arena::group_job_id;

        OrderKey { score, tiebreak: u64::MAX - id.to_bits() }
    }

    /// The score component.
    #[must_use]
    pub fn score(self) -> (score: Score)
        ensures
            score == self.score_part(),
    {
        self.score
    }

    /// The job component.
    #[must_use]
    pub fn job(self) -> (id: JobId)
        ensures
            id == self.job_part(),
    {
        JobId::from_bits(u64::MAX - self.tiebreak)
    }
}

impl PartialOrd for OrderKey {
    fn partial_cmp(&self, other: &Self) -> (order: Option<Ordering>) {
        broadcast use crate::domain::arena::group_job_id;

        if self.score < other.score {
            Some(Ordering::Less)
        } else if self.score > other.score {
            Some(Ordering::Greater)
        } else if self.tiebreak < other.tiebreak {
            Some(Ordering::Less)
        } else if self.tiebreak > other.tiebreak {
            Some(Ordering::Greater)
        } else {
            Some(Ordering::Equal)
        }
    }
}

impl vstd::std_specs::cmp::PartialOrdSpecImpl for OrderKey {
    open spec fn obeys_partial_cmp_spec() -> bool {
        true
    }

    open spec fn partial_cmp_spec(&self, other: &Self) -> Option<Ordering> {
        if self.rank() < other.rank() {
            Some(Ordering::Less)
        } else if self.rank() > other.rank() {
            Some(Ordering::Greater)
        } else {
            Some(Ordering::Equal)
        }
    }
}

/// The order is total and strict: two different pairs of score and job always
/// compare, one way only, and a pair ranks level with itself alone.
pub proof fn law_order_is_total(sa: Score, a: JobId, sb: Score, b: JobId)
    ensures
        order_rank(sa, a) == order_rank(sb, b) <==> sa == sb && a == b,
        order_rank(sa, a) < order_rank(sb, b) <==> sa < sb || (sa == sb && a@ > b@),
{
    broadcast use crate::domain::arena::group_job_id;

    if a@ == b@ {
        assert(a == JobId::of_bits(a@) && b == JobId::of_bits(b@));
    }
}

/// Keys of equal rank are equal keys.
pub proof fn law_rank_determines_key(a: OrderKey, b: OrderKey)
    ensures
        a.rank() == b.rank() ==> a == b,
{
    broadcast use crate::domain::arena::group_job_id;

    law_order_is_total(a.score_part(), a.job_part(), b.score_part(), b.job_part());
}

} // verus!

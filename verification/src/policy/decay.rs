//! Exponential decay in fixed point: `2^(-k / DECAY_STEPS)` in Q48, the same bits
//! on every machine.
use vstd::arithmetic::div_mod;
use vstd::arithmetic::power2;
use vstd::prelude::*;

verus! {

/// Decay resolution: one halving is this many steps.
pub const DECAY_STEPS: u64 = 1_024;

/// Q48 fixed point: this value is 1.0. Multiply two values, then divide by it.
pub const DECAY_ONE: u64 = 0x1_0000_0000_0000;

/// One half in Q48.
const DECAY_HALF: u64 = 0x8000_0000_0000;

/// `2^(-1 / DECAY_STEPS)` in Q48: the largest value whose `DECAY_STEPS`-th power
/// does not exceed one half. `build_decay_table` finds it by search.
const DECAY_ROOT: u64 = 281_284_510_335_224;

/// Q48 product, rounded down.
pub open spec fn q48_mul(a: int, b: int) -> int {
    (a * b) / (DECAY_ONE as int)
}

/// `acc * base^exp` in Q48 by squaring, each product rounded down.
pub open spec fn q48_pow_from(acc: int, base: int, exp: nat) -> int
    decreases exp,
{
    if exp == 0 {
        acc
    } else {
        q48_pow_from(
            if exp % 2 == 1 {
                q48_mul(acc, base)
            } else {
                acc
            },
            q48_mul(base, base),
            exp / 2,
        )
    }
}

/// `base^exp` in Q48.
pub open spec fn q48_pow(base: int, exp: nat) -> int {
    q48_pow_from(DECAY_ONE as int, base, exp)
}

/// `root` is the largest Q48 value whose `DECAY_STEPS`-th power is at most one half.
pub open spec fn is_decay_root(root: int) -> bool {
    &&& q48_pow(root, DECAY_STEPS as nat) <= DECAY_ONE / 2
    &&& DECAY_ONE / 2 < q48_pow(root + 1, DECAY_STEPS as nat)
}

/// `2^(-k / DECAY_STEPS)` in Q48, for `k` below `DECAY_STEPS`.
pub closed spec fn decay_entry(k: nat) -> int {
    q48_pow(DECAY_ROOT as int, k)
}

/// `2^(-steps / DECAY_STEPS)` in Q48: whole halvings are exact shifts of the entry
/// for the rest, and nothing is left after 48 of them.
pub open spec fn decay_at(steps: nat) -> int {
    let halvings = steps / (DECAY_STEPS as nat);
    if halvings >= 48 {
        0
    } else {
        decay_entry(steps % (DECAY_STEPS as nat)) / (power2::pow2(halvings) as int)
    }
}

/// A usage value after `steps` of decay.
pub open spec fn decayed(usage: nat, steps: nat) -> int {
    let halvings = steps / (DECAY_STEPS as nat);
    if halvings >= 64 {
        0
    } else {
        q48_mul(
            usage as int / (power2::pow2(halvings) as int),
            decay_entry(steps % (DECAY_STEPS as nat)),
        )
    }
}

proof fn lemma_mul_monotone(a: int, b: int, c: int, d: int)
    requires
        0 <= a <= c,
        0 <= b <= d,
    ensures
        0 <= q48_mul(a, b) <= q48_mul(c, d),
{
    assert(0 <= a * b <= c * d) by (nonlinear_arith)
        requires
            0 <= a <= c,
            0 <= b <= d,
    ;
    div_mod::lemma_div_is_ordered(a * b, c * d, DECAY_ONE as int);
    div_mod::lemma_div_is_ordered(0, a * b, DECAY_ONE as int);
}

/// Multiplying by at most one never grows a value.
proof fn lemma_mul_shrinks(a: int, b: int)
    requires
        0 <= a,
        0 <= b <= DECAY_ONE,
    ensures
        0 <= q48_mul(a, b) <= a,
{
    lemma_mul_monotone(a, b, a, DECAY_ONE as int);
    div_mod::lemma_div_multiples_vanish(a, DECAY_ONE as int);
    assert(a * DECAY_ONE == DECAY_ONE * a) by (nonlinear_arith);
}

proof fn lemma_mul_one(a: int)
    ensures
        q48_mul(DECAY_ONE as int, a) == a,
{
    div_mod::lemma_div_multiples_vanish(a, DECAY_ONE as int);
}

proof fn lemma_pow_monotone(acc: int, base: int, more: int, larger: int, exp: nat)
    requires
        0 <= acc <= more,
        0 <= base <= larger,
    ensures
        0 <= q48_pow_from(acc, base, exp) <= q48_pow_from(more, larger, exp),
    decreases exp,
{
    if exp > 0 {
        lemma_mul_monotone(acc, base, more, larger);
        lemma_mul_monotone(base, base, larger, larger);
        lemma_pow_monotone(
            if exp % 2 == 1 {
                q48_mul(acc, base)
            } else {
                acc
            },
            q48_mul(base, base),
            if exp % 2 == 1 {
                q48_mul(more, larger)
            } else {
                more
            },
            q48_mul(larger, larger),
            exp / 2,
        );
    }
}

proof fn lemma_pow_shrinks(acc: int, base: int, exp: nat)
    requires
        0 <= acc,
        0 <= base <= DECAY_ONE,
    ensures
        0 <= q48_pow_from(acc, base, exp) <= acc,
    decreases exp,
{
    if exp > 0 {
        lemma_mul_shrinks(acc, base);
        lemma_mul_shrinks(base, base);
        lemma_pow_shrinks(
            if exp % 2 == 1 {
                q48_mul(acc, base)
            } else {
                acc
            },
            q48_mul(base, base),
            exp / 2,
        );
    }
}

/// Q48 product. `u128` keeps the product exact before it is scaled back.
fn mul_q48(a: u64, b: u64) -> (product: u64)
    requires
        b <= DECAY_ONE,
    ensures
        product == q48_mul(a as int, b as int),
        product <= a,
{
    proof {
        lemma_mul_shrinks(a as int, b as int);
        assert(a * b <= 0xffff_ffff_ffff_ffff * 0x1_0000_0000_0000) by (nonlinear_arith)
            requires
                0 <= a <= 0xffff_ffff_ffff_ffff,
                0 <= b <= 0x1_0000_0000_0000,
        ;
    }
    ((a as u128 * b as u128) / DECAY_ONE as u128) as u64
}

/// `base^exp` in Q48 by squaring: at most two multiplies per bit of `exp`.
fn pow_q48(base: u64, exp: u64) -> (power: u64)
    requires
        base <= DECAY_ONE,
    ensures
        power == q48_pow(base as int, exp as nat),
        power <= DECAY_ONE,
{
    let mut base: u64 = base;
    let mut exp: u64 = exp;
    let mut acc: u64 = DECAY_ONE;
    let ghost target = q48_pow(base as int, exp as nat);
    while exp > 0
        invariant
            base <= DECAY_ONE,
            acc <= DECAY_ONE,
            target == q48_pow_from(acc as int, base as int, exp as nat),
        decreases exp,
    {
        // An odd exponent folds the current base into the result.
        if exp % 2 == 1 {
            acc = mul_q48(acc, base);
        }
        base = mul_q48(base, base);
        exp = exp / 2;
    }
    acc
}

/// The square of the root, taken `i` times over.
spec fn level(i: nat) -> int
    decreases i,
{
    if i == 0 {
        DECAY_ROOT as int
    } else {
        q48_mul(level((i - 1) as nat), level((i - 1) as nat))
    }
}

/// The product of the first `i` levels.
spec fn low_product(i: nat) -> int
    decreases i,
{
    if i == 0 {
        DECAY_ONE as int
    } else {
        q48_mul(low_product((i - 1) as nat), level((i - 1) as nat))
    }
}

proof fn lemma_levels()
    ensures
        level(0) == 281_284_510_335_224,
        level(1) == 281_094_172_843_149,
        level(2) == 280_713_884_160_285,
        level(3) == 279_954_849_561_483,
        level(4) == 278_442_931_975_293,
        level(5) == 275_443_548_385_814,
        level(6) == 269_541_361_132_639,
        level(7) == 258_113_691_704_536,
        level(8) == 236_691_298_899_473,
        level(9) == 199_032_864_766_194,
        level(10) == 140_737_488_354_993,
{
    assert(level(0) == 281_284_510_335_224);
    assert(level(1) == 281_094_172_843_149);
    assert(level(2) == 280_713_884_160_285);
    assert(level(3) == 279_954_849_561_483);
    assert(level(4) == 278_442_931_975_293);
    assert(level(5) == 275_443_548_385_814);
    assert(level(6) == 269_541_361_132_639);
    assert(level(7) == 258_113_691_704_536);
    assert(level(8) == 236_691_298_899_473);
    assert(level(9) == 199_032_864_766_194);
    assert(level(10) == 140_737_488_354_993);
}

proof fn lemma_low_products()
    ensures
        low_product(0) == DECAY_ONE,
        low_product(1) == 281_284_510_335_224,
        low_product(2) == 280_903_964_147_221,
        low_product(3) == 280_144_415_582_796,
        low_product(4) == 278_631_474_230_803,
        low_product(5) == 275_630_059_666_635,
        low_product(6) == 269_723_875_861_315,
        low_product(7) == 258_288_468_407_491,
        low_product(8) == 236_851_569_842_741,
        low_product(9) == 199_167_636_027_857,
        low_product(10) == 140_832_786_028_024,
{
    lemma_levels();
    assert(low_product(0) == DECAY_ONE);
    assert(low_product(1) == 281_284_510_335_224);
    assert(low_product(2) == 280_903_964_147_221);
    assert(low_product(3) == 280_144_415_582_796);
    assert(low_product(4) == 278_631_474_230_803);
    assert(low_product(5) == 275_630_059_666_635);
    assert(low_product(6) == 269_723_875_861_315);
    assert(low_product(7) == 258_288_468_407_491);
    assert(low_product(8) == 236_851_569_842_741);
    assert(low_product(9) == 199_167_636_027_857);
    assert(low_product(10) == 140_832_786_028_024);
}

/// Running down the squares from a level reaches the last one.
proof fn lemma_power_of_root()
    ensures
        q48_pow(DECAY_ROOT as int, 1024) == level(10),
{
    lemma_levels();
    let one = DECAY_ONE as int;
    lemma_mul_one(level(10));
    assert(q48_pow_from(level(10), q48_mul(level(10), level(10)), 0) == level(10));
    assert(q48_pow_from(one, level(10), 1) == level(10));
    assert(q48_pow_from(one, level(9), 2) == level(10));
    assert(q48_pow_from(one, level(8), 4) == level(10));
    assert(q48_pow_from(one, level(7), 8) == level(10));
    assert(q48_pow_from(one, level(6), 16) == level(10));
    assert(q48_pow_from(one, level(5), 32) == level(10));
    assert(q48_pow_from(one, level(4), 64) == level(10));
    assert(q48_pow_from(one, level(3), 128) == level(10));
    assert(q48_pow_from(one, level(2), 256) == level(10));
    assert(q48_pow_from(one, level(1), 512) == level(10));
    assert(q48_pow_from(one, level(0), 1024) == level(10));
}

/// One above the root, the same power exceeds one half.
proof fn lemma_power_above_root()
    ensures
        q48_pow(DECAY_ROOT + 1, 1024) == 140_737_488_355_516,
{
    let one = DECAY_ONE as int;
    lemma_mul_one(140_737_488_355_516);
    assert(q48_pow_from(
        140_737_488_355_516,
        q48_mul(140_737_488_355_516, 140_737_488_355_516),
        0,
    ) == 140_737_488_355_516);
    assert(q48_pow_from(one, 140_737_488_355_516, 1) == 140_737_488_355_516);
    assert(q48_pow_from(one, 199_032_864_766_564, 2) == 140_737_488_355_516);
    assert(q48_pow_from(one, 236_691_298_899_693, 4) == 140_737_488_355_516);
    assert(q48_pow_from(one, 258_113_691_704_656, 8) == 140_737_488_355_516);
    assert(q48_pow_from(one, 269_541_361_132_702, 16) == 140_737_488_355_516);
    assert(q48_pow_from(one, 275_443_548_385_846, 32) == 140_737_488_355_516);
    assert(q48_pow_from(one, 278_442_931_975_309, 64) == 140_737_488_355_516);
    assert(q48_pow_from(one, 279_954_849_561_491, 128) == 140_737_488_355_516);
    assert(q48_pow_from(one, 280_713_884_160_289, 256) == 140_737_488_355_516);
    assert(q48_pow_from(one, 281_094_172_843_151, 512) == 140_737_488_355_516);
    assert(q48_pow_from(one, 281_284_510_335_225, 1024) == 140_737_488_355_516);
}

/// There is one root, and `decay_entry` is its powers.
pub proof fn law_decay_root_is_unique(root: int)
    requires
        is_decay_root(root),
        root >= 0,
    ensures
        forall|k: nat| #[trigger] decay_entry(k) == q48_pow(root, k),
{
    lemma_levels();
    lemma_power_of_root();
    lemma_power_above_root();
    let one = DECAY_ONE as int;
    let r = DECAY_ROOT as int;
    if root < r {
        lemma_pow_monotone(one, root + 1, one, r, 1024);
    } else if root > r {
        lemma_pow_monotone(one, r + 1, one, root, 1024);
    }
}

/// A power of one half is zero long before the exponent reaches `DECAY_STEPS`.
proof fn lemma_power_of_half()
    ensures
        q48_pow(DECAY_HALF as int, 1024) == 0,
{
    let one = DECAY_ONE as int;
    assert(q48_pow_from(0, 0, 0) == 0);
    assert(q48_pow_from(one, 0, 1) == 0);
    assert(q48_pow_from(one, 0, 2) == 0);
    assert(q48_pow_from(one, 0, 4) == 0);
    assert(q48_pow_from(one, 0, 8) == 0);
    assert(q48_pow_from(one, 0, 16) == 0);
    assert(q48_pow_from(one, 0x1_0000, 32) == 0);
    assert(q48_pow_from(one, 0x1_0000_0000, 64) == 0);
    assert(q48_pow_from(one, 0x100_0000_0000, 128) == 0);
    assert(q48_pow_from(one, 0x1000_0000_0000, 256) == 0);
    assert(q48_pow_from(one, 0x4000_0000_0000, 512) == 0);
    assert(q48_pow_from(one, 0x8000_0000_0000, 1024) == 0);
}

/// Every power of one is one.
proof fn lemma_power_of_one(exp: nat)
    ensures
        q48_pow(DECAY_ONE as int, exp) == DECAY_ONE,
    decreases exp,
{
    if exp > 0 {
        lemma_mul_one(DECAY_ONE as int);
        lemma_power_of_one(exp / 2);
    }
}

/// The whole table of `2^(-k / DECAY_STEPS)` for `k` below `DECAY_STEPS`, from a
/// binary search for the root: no floats, identical everywhere.
#[must_use]
pub fn build_decay_table() -> (table: Vec<u64>)
    ensures
        table@.len() == DECAY_STEPS,
        forall|k: int| 0 <= k < table@.len() ==> #[trigger] table@[k] == decay_entry(k as nat),
        exists|root: int|
            0 <= root && #[trigger] is_decay_root(root) && forall|k: int|
                0 <= k < table@.len() ==> #[trigger] table@[k] == q48_pow(root, k as nat),
{
    // Binary search the largest r with r^DECAY_STEPS <= 1/2, i.e. 2^(-1/DECAY_STEPS).
    let mut lo: u64 = DECAY_ONE / 2;
    let mut hi: u64 = DECAY_ONE;
    proof {
        lemma_power_of_half();
        lemma_power_of_one(1024);
    }
    while lo + 1 < hi
        invariant
            lo < hi <= DECAY_ONE,
            q48_pow(lo as int, 1024) <= DECAY_ONE / 2,
            DECAY_ONE / 2 < q48_pow(hi as int, 1024),
        decreases hi - lo,
    {
        let mid: u64 = lo + (hi - lo) / 2;
        if pow_q48(mid, DECAY_STEPS) <= DECAY_ONE / 2 {
            lo = mid;
        } else {
            hi = mid;
        }
    }
    let root: u64 = lo;
    proof {
        assert(is_decay_root(root as int));
        law_decay_root_is_unique(root as int);
    }
    let mut table: Vec<u64> = Vec::with_capacity(DECAY_STEPS as usize);
    let mut k: u64 = 0;
    while k < DECAY_STEPS
        invariant
            k <= DECAY_STEPS,
            root <= DECAY_ONE,
            table@.len() == k,
            forall|j: int| 0 <= j < k ==> #[trigger] table@[j] == q48_pow(root as int, j as nat),
        decreases DECAY_STEPS - k,
    {
        table.push(pow_q48(root, k));
        k += 1;
    }
    table
}

/// `2^(-k / DECAY_STEPS)` in Q48, for `k` below `DECAY_STEPS`.
fn entry(k: u64) -> (fine: u64)
    ensures
        fine == decay_entry(k as nat),
        fine <= DECAY_ONE,
{
    pow_q48(DECAY_ROOT, k)
}

/// `2^(-steps / DECAY_STEPS)` in Q48. Whole halvings are exact shifts.
#[must_use]
pub fn decay_factor(steps: u64) -> (factor: u64)
    ensures
        factor == decay_at(steps as nat),
        factor <= DECAY_ONE,
{
    let halvings: u64 = steps / DECAY_STEPS;
    if halvings >= 48 {
        return 0;
    }
    let fine: u64 = entry(steps % DECAY_STEPS);
    proof {
        vstd::bits::lemma_u64_shr_is_div(fine, halvings);
        lemma_halving_shrinks(fine as int, halvings as nat);
    }
    fine >> halvings
}

/// Applies `steps` of decay to a usage value.
pub(crate) fn decay(usage: u64, steps: u64) -> (left: u64)
    ensures
        left == decayed(usage as nat, steps as nat),
        left <= usage,
{
    let halvings: u64 = steps / DECAY_STEPS;
    if halvings >= 64 {
        return 0;
    }
    let fine: u64 = entry(steps % DECAY_STEPS);
    proof {
        vstd::bits::lemma_u64_shr_is_div(usage, halvings);
        lemma_halving_shrinks(usage as int, halvings as nat);
    }
    mul_q48(usage >> halvings, fine)
}

/// `scale` times `2^(-steps / DECAY_STEPS)`, rounded down.
pub(crate) fn scale_by_decay(scale: u64, steps: u64) -> (scaled: u64)
    ensures
        scaled == q48_mul(scale as int, decay_at(steps as nat)),
        scaled <= scale,
{
    mul_q48(scale, decay_factor(steps))
}

proof fn lemma_halving_shrinks(value: int, halvings: nat)
    requires
        0 <= value,
    ensures
        0 <= value / (power2::pow2(halvings) as int) <= value,
{
    let d = power2::pow2(halvings) as int;
    power2::lemma_pow2_pos(halvings);
    div_mod::lemma_div_pos_is_pos(value, d);
    div_mod::lemma_div_nonincreasing(value, d);
}

proof fn lemma_entry_bounds(k: nat)
    ensures
        0 <= decay_entry(k) <= DECAY_ONE,
{
    lemma_pow_shrinks(DECAY_ONE as int, DECAY_ROOT as int, k);
}

/// Raising the exponent by one, over a run of one bits in the low places, trades
/// the product of those levels for the next level, which is no larger.
proof fn lemma_successor(i: nat, x: nat, span: nat)
    requires
        (i == 0 && span == 1024) || (i == 1 && span == 512) || (i == 2 && span == 256) || (i == 3
            && span == 128) || (i == 4 && span == 64) || (i == 5 && span == 32) || (i == 6 && span
            == 16) || (i == 7 && span == 8) || (i == 8 && span == 4) || (i == 9 && span == 2),
        x + 1 < span,
    ensures
        q48_pow_from(low_product(i), level(i), x) >= q48_pow_from(
            DECAY_ONE as int,
            level(i),
            x + 1,
        ),
    decreases x,
{
    lemma_levels();
    lemma_low_products();
    let one = DECAY_ONE as int;
    if x % 2 == 0 {
        lemma_mul_one(level(i));
        assert((x + 1) / 2 == x / 2);
        lemma_pow_monotone(level(i), level(i + 1), low_product(i), level(i + 1), x / 2);
    } else {
        assert((x + 1) / 2 == x / 2 + 1);
        lemma_successor(i + 1, x / 2, span / 2);
    }
}

/// Entries never rise from one step to the next.
proof fn lemma_entry_successor(k: nat)
    requires
        k + 1 < DECAY_STEPS,
    ensures
        decay_entry(k) >= decay_entry(k + 1),
{
    lemma_successor(0, k, 1024);
}

/// The last entry is still at least one half.
proof fn lemma_last_entry()
    ensures
        decay_entry(1023) >= DECAY_ONE / 2,
{
    lemma_levels();
    lemma_low_products();
    let end = low_product(10);
    assert(q48_pow_from(end, level(10), 0) == end);
    assert(q48_pow_from(low_product(9), level(9), 1) == end);
    assert(q48_pow_from(low_product(8), level(8), 3) == end);
    assert(q48_pow_from(low_product(7), level(7), 7) == end);
    assert(q48_pow_from(low_product(6), level(6), 15) == end);
    assert(q48_pow_from(low_product(5), level(5), 31) == end);
    assert(q48_pow_from(low_product(4), level(4), 63) == end);
    assert(q48_pow_from(low_product(3), level(3), 127) == end);
    assert(q48_pow_from(low_product(2), level(2), 255) == end);
    assert(q48_pow_from(low_product(1), level(1), 511) == end);
    assert(q48_pow_from(low_product(0), level(0), 1023) == end);
}

proof fn lemma_decay_step(steps: nat)
    ensures
        decay_at(steps) >= decay_at(steps + 1),
{
    let n = DECAY_STEPS as nat;
    let h = steps / n;
    let k = steps % n;
    let d = power2::pow2(h) as int;
    power2::lemma_pow2_pos(h);
    lemma_entry_bounds(k);
    if h < 48 {
        lemma_halving_shrinks(decay_entry(k), h);
        if k + 1 < n {
            assert((steps + 1) / n == h && (steps + 1) % n == k + 1);
            lemma_entry_successor(k);
            div_mod::lemma_div_is_ordered(decay_entry(k + 1), decay_entry(k), d);
        } else {
            assert((steps + 1) / n == h + 1 && (steps + 1) % n == 0);
            lemma_last_entry();
            power2::lemma_pow2_pos(h + 1);
            power2::lemma_pow2_unfold(h + 1);
            assert(decay_entry(0) == DECAY_ONE);
            div_mod::lemma_div_denominator(DECAY_ONE as int, 2, d);
            div_mod::lemma_div_is_ordered(DECAY_ONE as int / 2, decay_entry(k), d);
        }
    }
}

/// The decay factor never rises with the number of steps, starts at one, and
/// never exceeds one.
pub proof fn law_decay_is_monotone(fewer: nat, more: nat)
    requires
        fewer <= more,
    ensures
        0 <= decay_at(more) <= decay_at(fewer) <= DECAY_ONE,
        decay_at(0) == DECAY_ONE,
    decreases more - fewer,
{
    power2::lemma2_to64();
    assert(decay_entry(0) == DECAY_ONE);
    if fewer < more {
        law_decay_is_monotone(fewer, (more - 1) as nat);
        lemma_decay_step((more - 1) as nat);
    }
    let h = more / (DECAY_STEPS as nat);
    let k = more % (DECAY_STEPS as nat);
    lemma_entry_bounds(k);
    if h < 48 {
        lemma_halving_shrinks(decay_entry(k), h);
    }
}

/// Whole halvings are exact: `n` of them leave one part in `2^n`, down to the
/// last bit of Q48 and nothing after.
pub proof fn law_whole_halvings_are_exact(n: nat)
    ensures
        n < 48 ==> decay_at(n * DECAY_STEPS as nat) == DECAY_ONE as int / (power2::pow2(n) as int),
        n >= 48 ==> decay_at(n * DECAY_STEPS as nat) == 0,
{
    let d = DECAY_STEPS as int;
    assert(decay_entry(0) == DECAY_ONE);
    assert(n * d == d * n) by (nonlinear_arith);
    div_mod::lemma_div_multiples_vanish(n as int, d);
    div_mod::lemma_mod_multiples_basic(n as int, d);
}

/// Decay never increases usage.
pub proof fn law_decay_never_adds_usage(usage: nat, steps: nat)
    ensures
        0 <= decayed(usage, steps) <= usage,
        decayed(usage, 0) == usage,
{
    let h = steps / (DECAY_STEPS as nat);
    let k = steps % (DECAY_STEPS as nat);
    lemma_entry_bounds(k);
    power2::lemma2_to64();
    assert(decay_entry(0) == DECAY_ONE);
    lemma_mul_one(usage as int);
    assert(usage * DECAY_ONE == DECAY_ONE * usage) by (nonlinear_arith);
    if h < 64 {
        lemma_halving_shrinks(usage as int, h);
        lemma_mul_shrinks(usage as int / (power2::pow2(h) as int), decay_entry(k));
    }
}

/// Decay preserves order: of two accounts decayed alike, the one that used more
/// is still the one that used at least as much.
pub proof fn law_decay_preserves_order(less: nat, more: nat, steps: nat)
    requires
        less <= more,
    ensures
        decayed(less, steps) <= decayed(more, steps),
{
    let h = steps / (DECAY_STEPS as nat);
    let k = steps % (DECAY_STEPS as nat);
    lemma_entry_bounds(k);
    if h < 64 {
        let d = power2::pow2(h) as int;
        power2::lemma_pow2_pos(h);
        lemma_halving_shrinks(less as int, h);
        div_mod::lemma_div_is_ordered(less as int, more as int, d);
        lemma_mul_monotone(less as int / d, decay_entry(k), more as int / d, decay_entry(k));
    }
}

/// Usage halves exactly: `n` halvings of `DECAY_STEPS` steps each leave one part in
/// `2^n`, rounded down.
pub proof fn law_usage_halves_exactly(usage: nat, n: nat)
    requires
        usage <= u64::MAX,
    ensures
        decayed(usage, n * 1_024) == usage as int / (power2::pow2(n) as int),
{
    let d = DECAY_STEPS as int;
    assert(decay_entry(0) == DECAY_ONE);
    assert(n * d == d * n) by (nonlinear_arith);
    div_mod::lemma_div_multiples_vanish(n as int, d);
    div_mod::lemma_mod_multiples_basic(n as int, d);
    power2::lemma_pow2_pos(n);
    if n < 64 {
        let left = usage as int / (power2::pow2(n) as int);
        lemma_mul_one(left);
        assert(left * DECAY_ONE == DECAY_ONE * left) by (nonlinear_arith);
    } else {
        power2::lemma2_to64();
        if n > 64 {
            power2::lemma_pow2_strictly_increases(64, n);
        }
        div_mod::lemma_basic_div(usage as int, power2::pow2(n) as int);
    }
}

/// The longer usage decays, the less is left of it.
pub proof fn law_longer_decay_leaves_less(usage: nat, fewer: nat, more: nat)
    requires
        fewer <= more,
    ensures
        decayed(usage, more) <= decayed(usage, fewer),
    decreases more - fewer,
{
    if fewer < more {
        law_longer_decay_leaves_less(usage, fewer, (more - 1) as nat);
        lemma_decayed_step(usage, (more - 1) as nat);
    }
}

proof fn lemma_decayed_step(usage: nat, steps: nat)
    ensures
        decayed(usage, steps) >= decayed(usage, steps + 1),
{
    let n = DECAY_STEPS as nat;
    let h = steps / n;
    let k = steps % n;
    let d = power2::pow2(h) as int;
    power2::lemma_pow2_pos(h);
    lemma_entry_bounds(k);
    if h < 64 {
        let left = usage as int / d;
        lemma_halving_shrinks(usage as int, h);
        if k + 1 < n {
            assert((steps + 1) / n == h && (steps + 1) % n == k + 1);
            lemma_entry_successor(k);
            lemma_entry_bounds(k + 1);
            lemma_mul_monotone(left, decay_entry(k + 1), left, decay_entry(k));
        } else {
            assert((steps + 1) / n == h + 1 && (steps + 1) % n == 0);
            lemma_last_entry();
            lemma_mul_monotone(left, DECAY_ONE as int / 2, left, decay_entry(k));
            power2::lemma_pow2_pos(h + 1);
            power2::lemma_pow2_unfold(h + 1);
            assert(decay_entry(0) == DECAY_ONE);
            div_mod::lemma_div_denominator(usage as int, d, 2);
            assert(usage as int / (d * 2) == left / 2);
            lemma_mul_one(left / 2);
            assert((left / 2) * DECAY_ONE == DECAY_ONE * (left / 2)) by (nonlinear_arith);
            assert(left * (DECAY_ONE as int / 2) >= (left / 2) * DECAY_ONE);
            div_mod::lemma_div_is_ordered(
                (left / 2) * DECAY_ONE,
                left * (DECAY_ONE as int / 2),
                DECAY_ONE as int,
            );
            assert(q48_mul(left, DECAY_ONE as int / 2) >= left / 2);
        }
    }
}

/// The scale of factors halves exactly: after `n` halvings one part in `2^n` is left,
/// rounded down.
pub proof fn law_scale_halves_exactly(n: nat)
    ensures
        q48_mul(1_000_000, decay_at(n * 1_024)) == 1_000_000int / (power2::pow2(n) as int),
{
    law_whole_halvings_are_exact(n);
    power2::lemma_pow2_pos(n);
    power2::lemma2_to64_rest();
    assert(power2::pow2(48) == DECAY_ONE);
    if n < 48 {
        let d = power2::pow2(n) as int;
        let rest = power2::pow2((48 - n) as nat) as int;
        power2::lemma_pow2_adds(n, (48 - n) as nat);
        power2::lemma_pow2_pos((48 - n) as nat);
        assert(DECAY_ONE == d * rest);
        div_mod::lemma_div_multiples_vanish(rest, d);
        assert(decay_at(n * 1_024) == rest);
        assert(d * rest == rest * d) by (nonlinear_arith);
        assert(1_000_000 * rest == rest * 1_000_000);
        div_mod::lemma_div_denominator(1_000_000 * rest, rest, d);
        div_mod::lemma_div_multiples_vanish(1_000_000, rest);
    } else {
        if n > 48 {
            power2::lemma_pow2_strictly_increases(48, n);
        }
        div_mod::lemma_basic_div(1_000_000, power2::pow2(n) as int);
    }
}

/// A scale decayed further is no larger, and never exceeds the scale.
pub(crate) proof fn lemma_scaled_decay_monotone(scale: nat, fewer: nat, more: nat)
    requires
        fewer <= more,
    ensures
        0 <= q48_mul(scale as int, decay_at(more)) <= q48_mul(scale as int, decay_at(fewer))
            <= scale,
        q48_mul(scale as int, decay_at(0)) == scale,
{
    law_decay_is_monotone(fewer, more);
    lemma_mul_monotone(scale as int, decay_at(more), scale as int, decay_at(fewer));
    lemma_mul_shrinks(scale as int, decay_at(fewer));
    lemma_mul_one(scale as int);
    assert(scale * DECAY_ONE == DECAY_ONE * scale) by (nonlinear_arith);
}

/// One halving leaves one half.
pub(crate) proof fn lemma_one_halving()
    ensures
        decay_at(DECAY_STEPS as nat) == DECAY_ONE / 2,
{
    power2::lemma2_to64();
    assert(decay_entry(0) == DECAY_ONE);
}

/// Q48 products associate up to rounding.
proof fn lemma_mul_regroups(a: int, b: int, c: int)
    requires
        0 <= a <= DECAY_ONE,
        0 <= b <= DECAY_ONE,
        0 <= c <= DECAY_ONE,
    ensures
        -2 <= q48_mul(q48_mul(a, b), c) - q48_mul(a, q48_mul(b, c)) <= 2,
{
    let one = DECAY_ONE as int;
    let ab = q48_mul(a, b);
    let bc = q48_mul(b, c);
    let left = q48_mul(ab, c);
    let right = q48_mul(a, bc);
    div_mod::lemma_fundamental_div_mod(a * b, one);
    div_mod::lemma_fundamental_div_mod(b * c, one);
    div_mod::lemma_fundamental_div_mod(ab * c, one);
    div_mod::lemma_fundamental_div_mod(a * bc, one);
    let x = (a * b) % one;
    let y = (b * c) % one;
    let p = (ab * c) % one;
    let q = (a * bc) % one;
    // Both sides times one squared are the triple product less what was rounded off.
    assert((a * b) * c == one * (one * left + p) + x * c) by (nonlinear_arith)
        requires
            a * b == one * ab + x,
            ab * c == one * left + p,
    ;
    assert(a * (b * c) == one * (one * right + q) + a * y) by (nonlinear_arith)
        requires
            b * c == one * bc + y,
            a * bc == one * right + q,
    ;
    assert((a * b) * c == a * (b * c)) by (nonlinear_arith);
    assert(0 <= x * c <= one * one) by (nonlinear_arith)
        requires
            0 <= x < one,
            0 <= c <= one,
    ;
    assert(0 <= a * y <= one * one) by (nonlinear_arith)
        requires
            0 <= y < one,
            0 <= a <= one,
    ;
}

/// Factors that are close have products that are close.
proof fn lemma_mul_close(a: int, b: int, c: int, far: int)
    requires
        0 <= a <= DECAY_ONE,
        0 <= b <= DECAY_ONE,
        0 <= c <= DECAY_ONE,
        0 <= far,
        -far <= b - c <= far,
    ensures
        -far - 1 <= q48_mul(a, b) - q48_mul(a, c) <= far + 1,
        -far - 1 <= q48_mul(b, a) - q48_mul(c, a) <= far + 1,
{
    let one = DECAY_ONE as int;
    div_mod::lemma_fundamental_div_mod(a * b, one);
    div_mod::lemma_fundamental_div_mod(a * c, one);
    assert(a * b == b * a) by (nonlinear_arith);
    assert(a * c == c * a) by (nonlinear_arith);
    assert(a * b - a * c == a * (b - c)) by (nonlinear_arith);
    assert(-(one * far) <= a * (b - c) <= one * far) by (nonlinear_arith)
        requires
            0 <= a <= one,
            0 <= far,
            -far <= b - c <= far,
    ;
}

/// Starting a power from `acc` is multiplying it by `acc`, up to rounding: `far` bounds
/// the difference for exponents below `span`.
proof fn lemma_power_from(acc: int, base: int, exp: nat, span: nat, far: int)
    requires
        0 <= acc <= DECAY_ONE,
        0 <= base <= DECAY_ONE,
        exp < span,
        (span == 1 && far == 0) || (span == 2 && far == 4) || (span == 4 && far == 12) || (span == 8
            && far == 28) || (span == 16 && far == 60) || (span == 32 && far == 124) || (span == 64
            && far == 252) || (span == 128 && far == 508) || (span == 256 && far == 1_020) || (span
            == 512 && far == 2_044) || (span == 1_024 && far == 4_092),
    ensures
        -far <= q48_pow_from(acc, base, exp) - q48_mul(
            acc,
            q48_pow_from(DECAY_ONE as int, base, exp),
        ) <= far,
    decreases exp,
{
    let one = DECAY_ONE as int;
    if exp == 0 {
        lemma_mul_one(acc);
        assert(acc * one == one * acc) by (nonlinear_arith);
    } else {
        let half = ((far - 4) / 2) as int;
        let square = q48_mul(base, base);
        let rest = q48_pow_from(one, square, exp / 2);
        lemma_mul_shrinks(base, base);
        lemma_pow_shrinks(one, square, exp / 2);
        if exp % 2 == 1 {
            let next = q48_mul(acc, base);
            lemma_mul_shrinks(acc, base);
            lemma_mul_one(base);
            lemma_power_from(next, square, exp / 2, span / 2, half);
            lemma_power_from(base, square, exp / 2, span / 2, half);
            lemma_pow_shrinks(base, square, exp / 2);
            lemma_mul_shrinks(base, rest);
            lemma_mul_regroups(acc, base, rest);
            lemma_mul_close(
                acc,
                q48_pow_from(base, square, exp / 2),
                q48_mul(base, rest),
                half,
            );
        } else {
            lemma_power_from(acc, square, exp / 2, span / 2, half);
        }
    }
}

/// The levels below the `i`-th and one root more make up that level, up to rounding.
proof fn lemma_carry(i: nat)
    requires
        i < 10,
    ensures
        -1_024 <= q48_mul(level(0), low_product(i)) - level(i) <= 1_024,
{
    lemma_levels();
    lemma_low_products();
    let one = DECAY_ONE as int;
    assert(q48_mul(281_284_510_335_224, one) == 281_284_510_335_224);
    assert(i == 0 || i == 1 || i == 2 || i == 3 || i == 4 || i == 5 || i == 6 || i == 7 || i == 8
        || i == 9);
}

/// One step more takes off one root, whatever run of low one bits it carries over.
proof fn lemma_step_is_a_root(i: nat, x: nat, span: nat)
    requires
        (i == 0 && span == 1024) || (i == 1 && span == 512) || (i == 2 && span == 256) || (i == 3
            && span == 128) || (i == 4 && span == 64) || (i == 5 && span == 32) || (i == 6 && span
            == 16) || (i == 7 && span == 8) || (i == 8 && span == 4) || (i == 9 && span == 2),
        x + 1 < span,
    ensures
        -16_384 <= q48_pow_from(DECAY_ONE as int, level(i), x + 1) - q48_mul(
            level(0),
            q48_pow_from(low_product(i), level(i), x),
        ) <= 16_384,
    decreases x,
{
    lemma_levels();
    lemma_low_products();
    let one = DECAY_ONE as int;
    if x % 2 == 0 {
        lemma_mul_one(level(i));
        assert((x + 1) / 2 == x / 2);
        let rest = q48_pow_from(one, level(i + 1), x / 2);
        let long = q48_pow_from(low_product(i), level(i + 1), x / 2);
        let step = q48_mul(level(0), low_product(i));
        lemma_pow_shrinks(one, level(i + 1), x / 2);
        lemma_pow_shrinks(low_product(i), level(i + 1), x / 2);
        lemma_mul_shrinks(low_product(i), rest);
        lemma_mul_shrinks(level(0), low_product(i));
        lemma_power_from(level(i), level(i + 1), x / 2, 1_024, 4_092);
        lemma_power_from(low_product(i), level(i + 1), x / 2, 1_024, 4_092);
        lemma_mul_close(level(0), long, q48_mul(low_product(i), rest), 4_092);
        lemma_mul_regroups(level(0), low_product(i), rest);
        lemma_carry(i);
        lemma_mul_close(rest, step, level(i), 1_024);
    } else {
        assert((x + 1) / 2 == x / 2 + 1);
        lemma_step_is_a_root(i + 1, x / 2, span / 2);
    }
}

/// Decay is geometric: within a halving every step takes the same share of what is
/// left, that of the first step, up to rounding in the last fifteen of 48 bits; so
/// every step counts, and what is left falls strictly.
pub proof fn law_every_step_takes_the_same_share(k: nat)
    requires
        k + 1 < 1_024,
    ensures
        -16_385 * 0x1_0000_0000_0000 <= decay_at(k + 1) * 0x1_0000_0000_0000 - decay_at(k)
            * decay_at(1) <= 16_385 * 0x1_0000_0000_0000,
        decay_at(k + 1) < decay_at(k),
{
    lemma_levels();
    let one = DECAY_ONE as int;
    power2::lemma2_to64();
    lemma_step_is_a_root(0, k, 1024);
    lemma_mul_one(level(0));
    assert(decay_entry(1) == level(0)) by {
        assert(q48_pow_from(level(0), q48_mul(level(0), level(0)), 0) == level(0));
    }
    assert(decay_at(k) == decay_entry(k) && decay_at(k + 1) == decay_entry(k + 1) && decay_at(1)
        == level(0)) by {
        assert(k / 1_024 == 0 && (k + 1) / 1_024 == 0 && k % 1_024 == k && (k + 1) % 1_024 == k + 1);
    }
    law_decay_is_monotone(k, 1_023);
    assert(decay_at(1_023) == decay_entry(1_023)) by {
        assert(1_023nat / 1_024 == 0 && 1_023nat % 1_024 == 1_023);
    }
    lemma_last_entry();
    let left = decay_entry(k);
    div_mod::lemma_fundamental_div_mod(level(0) * left, one);
    assert(level(0) * left == left * level(0)) by (nonlinear_arith);
}

/// Usage decays as factors do: whole halvings are shifted off, and of the rest of the
/// steps the share is that of the factor, rounded down.
pub proof fn law_usage_decays_by_the_factor(usage: nat, n: nat, k: nat)
    requires
        k < 1_024,
        n < 64,
    ensures
        ({
            let halved = usage as int / (power2::pow2(n) as int);
            let left = decayed(usage, n * 1_024 + k);
            left * 0x1_0000_0000_0000 <= halved * decay_at(k) < (left + 1) * 0x1_0000_0000_0000
        }),
{
    let one = DECAY_ONE as int;
    power2::lemma2_to64();
    let steps = n * 1_024 + k;
    assert(steps / 1_024 == n && steps % 1_024 == k);
    assert(k / 1_024 == 0 && k % 1_024 == k);
    let halved = usage as int / (power2::pow2(n) as int);
    div_mod::lemma_fundamental_div_mod(halved * decay_entry(k), one);
}

} // verus!

//! Fair-share: each account's decayed usage and the priority factor it earns.
//! Integer-only arithmetic, so every machine computes the same bits.
use crate::domain::time;
use crate::domain::time::saturating_product;
use crate::domain::{AccountId, VirtualDuration, VirtualTime};
use crate::policy::decay;
use crate::policy::decay::DECAY_STEPS;
use crate::policy::priority::FACTOR_SCALE;
use vstd::arithmetic::div_mod;
use vstd::arithmetic::power2;
use vstd::prelude::*;

verus! {

/// Usage unit: `cpu_millis × milliseconds held`. One core-second is 1 000 000.
pub type Usage = u64;

/// `Usage` units in one core-second.
pub const USAGE_PER_CORE_SECOND: u64 = 1_000_000;

/// Account ids are dense indices below this bound.
pub const MAX_ACCOUNTS: u32 = 1_024;

const NANOS_PER_MILLI: u64 = 1_000_000;

/// How fast usage is forgotten.
#[derive(Clone, Copy, PartialEq, Eq, Debug, Structural)]
pub struct FairShareConfig {
    /// Usage halves every `half_life`. Zero forgets everything but running work.
    pub half_life: VirtualDuration,
}

impl Default for FairShareConfig {
    fn default() -> (config: Self)
        ensures
            config.half_life@ == 3_600_000_000_000,
    {
        FairShareConfig::new(VirtualDuration::from_secs(3_600))
    }
}

impl FairShareConfig {
    /// Nanoseconds per decay step.
    pub open spec fn quantum(self) -> u64 {
        if self.half_life@ / DECAY_STEPS == 0 {
            1
        } else {
            self.half_life@ / DECAY_STEPS
        }
    }

    /// Wraps a half-life.
    #[must_use]
    pub fn new(half_life: VirtualDuration) -> (config: Self)
        ensures
            config == (FairShareConfig { half_life }),
    {
        FairShareConfig { half_life }
    }

    /// Nanoseconds per decay step; never zero, so division is always safe.
    #[must_use]
    pub fn quantum_nanos(&self) -> (quantum: u64)
        ensures
            quantum == self.quantum(),
            quantum > 0,
    {
        let q: u64 = self.half_life.as_nanos() / DECAY_STEPS;
        if q == 0 {
            1
        } else {
            q
        }
    }
}

/// An account id at or above `MAX_ACCOUNTS`.
#[derive(Clone, Copy, PartialEq, Eq, Debug, Structural)]
pub struct AccountError(pub AccountId);

/// One account's usage record.
#[derive(Clone, Copy, PartialEq, Eq, Debug, Structural)]
pub struct Ledger {
    /// Decayed usage as of `decayed_to`, plus undecayed accrual since.
    pub usage: Usage,
    /// Sum of `cpu_millis` over the account's `Running` jobs.
    pub running_cpu: u64,
    /// Relative entitlement; default 1.
    pub shares: u32,
    accrued_to: VirtualTime,
    decayed_to: VirtualTime,
}

/// What a ledger records, with its times in nanoseconds.
pub struct LedgerView {
    pub usage: u64,
    pub running_cpu: u64,
    pub shares: u32,
    pub accrued_to: u64,
    pub decayed_to: u64,
}

impl LedgerView {
    /// A new account: nothing used, nothing running, one share.
    pub open spec fn fresh() -> LedgerView {
        LedgerView { usage: 0, running_cpu: 0, shares: 1, accrued_to: 0, decayed_to: 0 }
    }

    /// The usage once it has been decayed by every whole quantum up to `now`.
    pub open spec fn decayed(self, now: u64, config: FairShareConfig) -> LedgerView {
        let quantum = config.quantum();
        let steps = time::floored_difference(now, self.decayed_to) / quantum;
        LedgerView {
            usage: decay::decayed(self.usage as nat, steps as nat) as u64,
            decayed_to: (self.decayed_to + steps * quantum) as u64,
            ..self
        }
    }

    /// The usage once every whole millisecond up to `now` has been charged.
    pub open spec fn accrued(self, now: u64) -> LedgerView {
        let held_ms = time::floored_difference(now, self.accrued_to) / 1_000_000;
        LedgerView {
            usage: time::clamped_sum(
                self.usage,
                time::clamped_product(self.running_cpu, held_ms),
            ),
            accrued_to: (self.accrued_to + held_ms * 1_000_000) as u64,
            ..self
        }
    }

    /// The ledger brought to `now`: what was used before decays, then what ran
    /// since is charged undecayed.
    pub open spec fn touched(self, now: u64, config: FairShareConfig) -> LedgerView {
        self.decayed(now, config).accrued(now)
    }
}

impl View for Ledger {
    type V = LedgerView;

    closed spec fn view(&self) -> LedgerView {
        LedgerView {
            usage: self.usage,
            running_cpu: self.running_cpu,
            shares: self.shares,
            accrued_to: self.accrued_to@,
            decayed_to: self.decayed_to@,
        }
    }
}

/// Two ledgers are the same when they record the same.
pub proof fn law_record_determines_ledger(a: Ledger, b: Ledger)
    ensures
        a@ == b@ ==> a == b,
{
    time::law_nanos_determine_time(a.accrued_to, b.accrued_to);
    time::law_nanos_determine_time(a.decayed_to, b.decayed_to);
}

impl Default for Ledger {
    fn default() -> (ledger: Self)
        ensures
            ledger@ == LedgerView::fresh(),
    {
        Ledger {
            usage: 0,
            running_cpu: 0,
            shares: 1,
            accrued_to: VirtualTime::zero(),
            decayed_to: VirtualTime::zero(),
        }
    }
}

impl Ledger {
    /// Rebuilds a ledger from a snapshot.
    #[must_use]
    pub fn from_parts(
        usage: Usage,
        running_cpu: u64,
        shares: u32,
        accrued_to: VirtualTime,
        decayed_to: VirtualTime,
    ) -> (ledger: Self)
        ensures
            ledger@ == (LedgerView {
                usage,
                running_cpu,
                shares,
                accrued_to: accrued_to@,
                decayed_to: decayed_to@,
            }),
    {
        Ledger { usage, running_cpu, shares, accrued_to, decayed_to }
    }

    /// Charged up to here, in whole milliseconds.
    #[must_use]
    pub fn accrued_to(&self) -> (at: VirtualTime)
        ensures
            at@ == self@.accrued_to,
    {
        self.accrued_to
    }

    /// Decayed up to here, in whole quanta.
    #[must_use]
    pub fn decayed_to(&self) -> (at: VirtualTime)
        ensures
            at@ == self@.decayed_to,
    {
        self.decayed_to
    }

    /// Brings the ledger to `now`: decay first, then charge what ran since.
    fn touch(&mut self, now: VirtualTime, config: FairShareConfig)
        ensures
            final(self)@ == old(self)@.touched(now@, config),
    {
        // Whole quanta only; the remainder waits so tiny ticks never round decay away.
        let quantum: u64 = config.quantum_nanos();
        let elapsed: u64 = now.saturating_sub_time(self.decayed_to).as_nanos();
        let steps: u64 = elapsed / quantum;
        proof {
            lemma_whole_parts(elapsed, quantum);
            decay::law_decay_never_adds_usage(self.usage as nat, 0);
            assert(0 * quantum == 0);
        }
        if steps > 0 {
            self.usage = decay::decay(self.usage, steps);
            let consumed = VirtualDuration::from_nanos(steps * quantum);
            self.decayed_to = self.decayed_to.saturating_add(consumed);
        }
        assert(self@ == old(self)@.decayed(now@, config));
        // Whole milliseconds, same carry trick. Fresh work is charged undecayed.
        let held: u64 = now.saturating_sub_time(self.accrued_to).as_nanos();
        let held_ms: u64 = held / NANOS_PER_MILLI;
        assert(self.running_cpu * 0 == 0);
        if held_ms > 0 {
            self.usage = self.usage.saturating_add(saturating_product(self.running_cpu, held_ms));
            let consumed = VirtualDuration::from_nanos(held_ms * NANOS_PER_MILLI);
            self.accrued_to = self.accrued_to.saturating_add(consumed);
        }
    }
}

/// The whole parts of a number do not add up to more than the number.
proof fn lemma_whole_parts(n: u64, d: u64)
    requires
        d > 0,
    ensures
        0 <= (n / d) * d <= n,
{
    div_mod::lemma_fundamental_div_mod(n as int, d as int);
    assert((n / d) * d == d * (n / d)) by (nonlinear_arith);
    div_mod::lemma_mod_bound(n as int, d as int);
    assert(d * (n / d) >= 0) by (nonlinear_arith)
        requires
            d > 0,
            n / d >= 0,
    ;
}

/// Sum of shares.
pub open spec fn share_sum(ledgers: Seq<LedgerView>) -> nat
    decreases ledgers.len(),
{
    if ledgers.len() == 0 {
        0
    } else {
        share_sum(ledgers.drop_last()) + ledgers.last().shares as nat
    }
}

/// Sum of usage.
pub open spec fn usage_sum(ledgers: Seq<LedgerView>) -> nat
    decreases ledgers.len(),
{
    if ledgers.len() == 0 {
        0
    } else {
        usage_sum(ledgers.drop_last()) + ledgers.last().usage as nat
    }
}

/// How many decay steps an account stands at: its part of all usage over its part
/// of all shares, in units of `1 / DECAY_STEPS`, rounded down.
pub open spec fn overuse(usage: nat, shares: nat, usage_total: nat, shares_total: nat) -> nat {
    (usage * shares_total * DECAY_STEPS as nat) / (usage_total * shares)
}

/// `FACTOR_SCALE × 2^(-(usage/usage_total) / (shares/shares_total))`, the greatest
/// factor while nobody has used anything, and nothing without shares.
pub open spec fn share_factor(
    usage: nat,
    shares: nat,
    usage_total: nat,
    shares_total: nat,
) -> int {
    if usage_total == 0 {
        FACTOR_SCALE as int
    } else if shares == 0 {
        0
    } else {
        decay::q48_mul(
            FACTOR_SCALE as int,
            decay::decay_at(overuse(usage, shares, usage_total, shares_total)),
        )
    }
}

/// `FACTOR_SCALE × 2^(-(usage/usage_total) / (shares/shares_total))`.
fn factor_for(usage: Usage, shares: u32, usage_total: u128, shares_total: u64) -> (factor: u64)
    requires
        shares_total <= 0x400_0000_0000,
        usage_total <= 0x400_0000_0000_0000_0000,
    ensures
        factor == share_factor(
            usage as nat,
            shares as nat,
            usage_total as nat,
            shares_total as nat,
        ),
        factor <= FACTOR_SCALE,
{
    if usage_total == 0 {
        return FACTOR_SCALE;
    }
    if shares == 0 {
        return 0;
    }
    proof {
        assert(usage * shares_total <= 0xffff_ffff_ffff_ffff * 0x400_0000_0000) by (nonlinear_arith)
            requires
                0 <= usage <= 0xffff_ffff_ffff_ffff,
                0 <= shares_total <= 0x400_0000_0000,
        ;
        assert(0 < usage_total * shares <= 0x400_0000_0000_0000_0000 * 0xffff_ffff)
            by (nonlinear_arith)
            requires
                0 < usage_total <= 0x400_0000_0000_0000_0000,
                0 < shares <= 0xffff_ffff,
        ;
    }
    // The exponent in 1/DECAY_STEPS units, so the decay table evaluates 2^-x.
    // u128: usage (2^64) × shares_total (2^42) × steps (2^10) stays inside.
    let num: u128 = usage as u128 * shares_total as u128 * DECAY_STEPS as u128;
    let den: u128 = usage_total * shares as u128;
    let quotient: u128 = num / den;
    let x: u64 = if quotient > u64::MAX as u128 {
        u64::MAX
    } else {
        quotient as u64
    };
    decay::scale_by_decay(FACTOR_SCALE, x)
}

/// Every account's ledger and the factor it earned at the last refresh.
#[derive(Debug)]
pub struct FairShare {
    ledgers: Vec<Ledger>,
    /// Parallel to `ledgers`; the hot read in rescoring touches only this.
    factors: Vec<u64>,
    shares_total: u64,
}

/// The accounts: what each ledger records, and the factor each account earned.
pub struct Accounts {
    pub ledgers: Seq<LedgerView>,
    pub factors: Seq<u64>,
}

impl Accounts {
    /// The accounts with `n` ledgers at least: missing ones start fresh, with the
    /// greatest factor.
    pub open spec fn grown(self, n: nat) -> Accounts {
        Accounts {
            ledgers: Seq::new(
                if n > self.ledgers.len() {
                    n
                } else {
                    self.ledgers.len()
                },
                |i: int|
                    if i < self.ledgers.len() {
                        self.ledgers[i]
                    } else {
                        LedgerView::fresh()
                    },
            ),
            factors: Seq::new(
                if n > self.factors.len() {
                    n
                } else {
                    self.factors.len()
                },
                |i: int|
                    if i < self.factors.len() {
                        self.factors[i]
                    } else {
                        FACTOR_SCALE
                    },
            ),
        }
    }

    /// The accounts with one ledger replaced.
    pub open spec fn with_ledger(self, i: int, ledger: LedgerView) -> Accounts {
        Accounts { ledgers: self.ledgers.update(i, ledger), ..self }
    }

    /// A job of `account` started holding `cpu_millis` at `now`.
    pub open spec fn dispatched(
        self,
        account: AccountId,
        cpu_millis: u32,
        now: VirtualTime,
        config: FairShareConfig,
    ) -> Accounts {
        if account@ < self.ledgers.len() {
            let ledger = self.ledgers[account@ as int].touched(now@, config);
            self.with_ledger(
                account@ as int,
                LedgerView {
                    running_cpu: time::clamped_sum(ledger.running_cpu, cpu_millis as u64),
                    ..ledger
                },
            )
        } else {
            self
        }
    }

    /// A job of `account` stopped holding `cpu_millis` at `now`.
    pub open spec fn released(
        self,
        account: AccountId,
        cpu_millis: u32,
        now: VirtualTime,
        config: FairShareConfig,
    ) -> Accounts {
        if account@ < self.ledgers.len() {
            let ledger = self.ledgers[account@ as int].touched(now@, config);
            self.with_ledger(
                account@ as int,
                LedgerView {
                    running_cpu: time::floored_difference(ledger.running_cpu, cpu_millis as u64),
                    ..ledger
                },
            )
        } else {
            self
        }
    }

    /// Every ledger brought to `now`, and the factors that follow.
    pub open spec fn refreshed(self, now: VirtualTime, config: FairShareConfig) -> Accounts {
        let ledgers = self.ledgers.map_values(|l: LedgerView| l.touched(now@, config));
        Accounts {
            ledgers,
            factors: Seq::new(
                self.factors.len(),
                |i: int|
                    share_factor(
                        ledgers[i].usage as nat,
                        ledgers[i].shares as nat,
                        usage_sum(ledgers),
                        share_sum(ledgers),
                    ) as u64,
            ),
        }
    }

    /// The account's factor; the greatest for an unseen account.
    pub open spec fn factor_of(self, account: AccountId) -> u64 {
        if account@ < self.factors.len() {
            self.factors[account@ as int]
        } else {
            FACTOR_SCALE
        }
    }
}

/// What each ledger of a list records.
pub open spec fn ledger_views(ledgers: Seq<Ledger>) -> Seq<LedgerView> {
    ledgers.map_values(|l: Ledger| l@)
}

proof fn lemma_share_sum_update(ledgers: Seq<LedgerView>, i: int, ledger: LedgerView)
    requires
        0 <= i < ledgers.len(),
    ensures
        share_sum(ledgers.update(i, ledger)) == share_sum(ledgers) - ledgers[i].shares
            + ledger.shares,
    decreases ledgers.len(),
{
    if i == ledgers.len() - 1 {
        assert(ledgers.update(i, ledger).drop_last() =~= ledgers.drop_last());
    } else {
        assert(ledgers.update(i, ledger).drop_last() =~= ledgers.drop_last().update(i, ledger));
        lemma_share_sum_update(ledgers.drop_last(), i, ledger);
    }
}

proof fn lemma_share_sum_bound(ledgers: Seq<LedgerView>)
    ensures
        share_sum(ledgers) <= ledgers.len() * 0xffff_ffff,
        usage_sum(ledgers) <= ledgers.len() * 0xffff_ffff_ffff_ffff,
    decreases ledgers.len(),
{
    if ledgers.len() > 0 {
        lemma_share_sum_bound(ledgers.drop_last());
    }
}

/// Sums of shares depend on shares alone.
proof fn lemma_share_sum_same(a: Seq<LedgerView>, b: Seq<LedgerView>)
    requires
        a.len() == b.len(),
        forall|i: int| 0 <= i < a.len() ==> (#[trigger] a[i]).shares == b[i].shares,
    ensures
        share_sum(a) == share_sum(b),
    decreases a.len(),
{
    if a.len() > 0 {
        assert forall|i: int| 0 <= i < a.len() - 1 implies (#[trigger] a.drop_last()[i]).shares
            == b.drop_last()[i].shares by {
            assert(a[i].shares == b[i].shares);
        }
        lemma_share_sum_same(a.drop_last(), b.drop_last());
    }
}

/// A share no larger than all shares together.
proof fn lemma_share_sum_contains(ledgers: Seq<LedgerView>, i: int)
    requires
        0 <= i < ledgers.len(),
    ensures
        ledgers[i].shares <= share_sum(ledgers),
        ledgers[i].usage <= usage_sum(ledgers),
    decreases ledgers.len(),
{
    if i < ledgers.len() - 1 {
        lemma_share_sum_contains(ledgers.drop_last(), i);
    }
}

impl View for FairShare {
    type V = Accounts;

    closed spec fn view(&self) -> Accounts {
        Accounts { ledgers: ledger_views(self.ledgers@), factors: self.factors@ }
    }
}

impl FairShare {
    /// One factor per ledger, none above the scale; no more accounts than there
    /// may be; and the share total is kept.
    pub closed spec fn wf(&self) -> bool {
        &&& self.ledgers@.len() == self.factors@.len() <= MAX_ACCOUNTS
        &&& self.shares_total == share_sum(self@.ledgers)
        &&& forall|i: int| 0 <= i < self.factors@.len() ==> #[trigger] self.factors@[i] <= FACTOR_SCALE
    }

    /// There is one factor per ledger, none above the scale, and no more ledgers
    /// than there may be.
    pub proof fn lemma_shape(&self)
        requires
            self.wf(),
        ensures
            self@.factors.len() == self@.ledgers.len() <= MAX_ACCOUNTS,
            forall|i: int|
                0 <= i < self@.factors.len() ==> #[trigger] self@.factors[i] <= FACTOR_SCALE,
    {
    }

    /// No accounts yet.
    #[must_use]
    pub fn new() -> (accounts: Self)
        ensures
            accounts.wf(),
            accounts@.ledgers == Seq::<LedgerView>::empty(),
            accounts@.factors == Seq::<u64>::empty(),
    {
        let accounts = FairShare { ledgers: Vec::new(), factors: Vec::new(), shares_total: 0 };
        assert(accounts@.ledgers =~= Seq::<LedgerView>::empty());
        accounts
    }

    /// Creates ledgers up to and including `account`. The only growth path;
    /// callers invoke it at submit, never inside a cycle.
    ///
    /// # Errors
    /// `AccountError` when the id is not below `MAX_ACCOUNTS`.
    pub fn ensure(&mut self, account: AccountId) -> (ensured: Result<(), AccountError>)
        requires
            old(self).wf(),
        ensures
            final(self).wf(),
            ensured == (if account@ >= MAX_ACCOUNTS {
                Err(AccountError(account))
            } else {
                Ok(())
            }),
            ensured is Ok ==> final(self)@ == old(self)@.grown((account@ + 1) as nat),
            ensured is Err ==> *final(self) == *old(self),
    {
        if account.get() >= MAX_ACCOUNTS {
            return Err(AccountError(account));
        }
        let index: usize = account.get() as usize;
        while self.ledgers.len() <= index
            invariant
                self.wf(),
                index < MAX_ACCOUNTS,
                old(self).wf(),
                old(self)@.ledgers.len() <= self@.ledgers.len(),
                self@.ledgers.len() > old(self)@.ledgers.len() ==> self@.ledgers.len() <= index + 1,
                forall|i: int|
                    0 <= i < self@.ledgers.len() ==> #[trigger] self@.ledgers[i] == (if i < old(
                        self,
                    )@.ledgers.len() {
                        old(self)@.ledgers[i]
                    } else {
                        LedgerView::fresh()
                    }),
                forall|i: int|
                    0 <= i < self@.factors.len() ==> #[trigger] self@.factors[i] == (if i < old(
                        self,
                    )@.factors.len() {
                        old(self)@.factors[i]
                    } else {
                        FACTOR_SCALE
                    }),
            decreases index + 1 - self.ledgers@.len(),
        {
            let ghost before = self@.ledgers;
            let ghost earned = self@.factors;
            proof {
                lemma_share_sum_bound(before);
            }
            self.ledgers.push(Ledger::default());
            self.factors.push(FACTOR_SCALE);
            // New ledgers carry the default share of 1 each.
            self.shares_total += 1;
            proof {
                assert(self@.ledgers =~= before.push(LedgerView::fresh()));
                assert(self@.ledgers.drop_last() =~= before);
                assert(self@.factors =~= earned.push(FACTOR_SCALE));
            }
        }
        proof {
            let target = old(self)@.grown((account@ + 1) as nat);
            assert(self@.ledgers =~= target.ledgers);
            assert(self@.factors =~= target.factors);
        }
        Ok(())
    }

    /// Sets one account's shares, creating it if needed.
    ///
    /// # Errors
    /// `AccountError` when the id is not below `MAX_ACCOUNTS`.
    pub fn set_shares(&mut self, account: AccountId, shares: u32) -> (set: Result<
        (),
        AccountError,
    >)
        requires
            old(self).wf(),
        ensures
            final(self).wf(),
            set == (if account@ >= MAX_ACCOUNTS {
                Err(AccountError(account))
            } else {
                Ok(())
            }),
            set is Ok ==> ({
                let grown = old(self)@.grown((account@ + 1) as nat);
                final(self)@ == grown.with_ledger(
                    account@ as int,
                    LedgerView { shares, ..grown.ledgers[account@ as int] },
                )
            }),
            set is Err ==> *final(self) == *old(self),
    {
        if let Err(error) = self.ensure(account) {
            return Err(error);
        }
        let ghost before = self@.ledgers;
        let index: usize = account.get() as usize;
        let mut ledger: Ledger = self.ledgers[index];
        proof {
            lemma_share_sum_update(
                before,
                index as int,
                LedgerView { shares, ..before[index as int] },
            );
            lemma_share_sum_bound(before);
            lemma_share_sum_contains(before, index as int);
        }
        self.shares_total = self.shares_total - ledger.shares as u64 + shares as u64;
        ledger.shares = shares;
        self.ledgers[index] = ledger;
        proof {
            assert(self@.ledgers =~= before.update(
                index as int,
                LedgerView { shares, ..before[index as int] },
            ));
        }
        Ok(())
    }

    /// Replaces every ledger with a snapshot's. Factors recompute on the next refresh.
    ///
    /// # Errors
    /// `AccountError` when there are more ledgers than `MAX_ACCOUNTS`.
    pub fn restore(&mut self, ledgers: Vec<Ledger>) -> (restored: Result<(), AccountError>)
        requires
            old(self).wf(),
        ensures
            final(self).wf(),
            restored is Ok <==> ledgers@.len() <= MAX_ACCOUNTS,
            restored matches Err(error) ==> error.0@ == MAX_ACCOUNTS && *final(self) == *old(self),
            restored is Ok ==> final(self)@ == (Accounts {
                ledgers: ledger_views(ledgers@),
                factors: Seq::new(ledgers@.len(), |i: int| FACTOR_SCALE),
            }),
    {
        if ledgers.len() > MAX_ACCOUNTS as usize {
            return Err(AccountError(AccountId::new(MAX_ACCOUNTS)));
        }
        let mut total: u64 = 0;
        let mut factors: Vec<u64> = Vec::with_capacity(ledgers.len());
        let mut i: usize = 0;
        let ghost views = ledger_views(ledgers@);
        proof {
            assert(views.take(0) =~= Seq::<LedgerView>::empty());
        }
        while i < ledgers.len()
            invariant
                i <= ledgers@.len() <= MAX_ACCOUNTS,
                views == ledger_views(ledgers@),
                total == share_sum(views.take(i as int)),
                factors@.len() == i,
                forall|j: int| 0 <= j < i ==> #[trigger] factors@[j] == FACTOR_SCALE,
            decreases ledgers@.len() - i,
        {
            proof {
                assert(views.take(i + 1).drop_last() =~= views.take(i as int));
                lemma_share_sum_bound(views.take(i as int));
            }
            total += ledgers[i].shares as u64;
            factors.push(FACTOR_SCALE);
            i += 1;
        }
        proof {
            assert(views.take(ledgers@.len() as int) =~= views);
            assert(factors@ =~= Seq::new(ledgers@.len(), |i: int| FACTOR_SCALE));
        }
        self.shares_total = total;
        self.factors = factors;
        self.ledgers = ledgers;
        Ok(())
    }

    /// A job of `account` started holding `cpu_millis` at `now`.
    pub fn on_dispatch(
        &mut self,
        account: AccountId,
        cpu_millis: u32,
        now: VirtualTime,
        config: &FairShareConfig,
    )
        requires
            old(self).wf(),
        ensures
            final(self).wf(),
            final(self)@ == old(self)@.dispatched(account, cpu_millis, now, *config),
    {
        let index: usize = account.get() as usize;
        if index < self.ledgers.len() {
            let ghost before = self@.ledgers;
            let mut ledger: Ledger = self.ledgers[index];
            ledger.touch(now, *config);
            ledger.running_cpu = ledger.running_cpu.saturating_add(cpu_millis as u64);
            self.ledgers[index] = ledger;
            proof {
                assert(self@.ledgers =~= before.update(index as int, ledger@));
                lemma_share_sum_update(before, index as int, ledger@);
            }
        }
    }

    /// A job of `account` stopped holding `cpu_millis` at `now`.
    pub fn on_release(
        &mut self,
        account: AccountId,
        cpu_millis: u32,
        now: VirtualTime,
        config: &FairShareConfig,
    )
        requires
            old(self).wf(),
        ensures
            final(self).wf(),
            final(self)@ == old(self)@.released(account, cpu_millis, now, *config),
    {
        let index: usize = account.get() as usize;
        if index < self.ledgers.len() {
            let ghost before = self@.ledgers;
            let mut ledger: Ledger = self.ledgers[index];
            ledger.touch(now, *config);
            ledger.running_cpu = ledger.running_cpu.saturating_sub(cpu_millis as u64);
            self.ledgers[index] = ledger;
            proof {
                assert(self@.ledgers =~= before.update(index as int, ledger@));
                lemma_share_sum_update(before, index as int, ledger@);
            }
        }
    }

    /// Touches every ledger and recomputes every factor. O(accounts), once per cycle.
    pub fn refresh(&mut self, now: VirtualTime, config: &FairShareConfig)
        requires
            old(self).wf(),
        ensures
            final(self).wf(),
            final(self)@ == old(self)@.refreshed(now, *config),
    {
        let ghost before = self@.ledgers;
        let ghost after = before.map_values(|l: LedgerView| l.touched(now@, *config));
        let mut total: u128 = 0;
        let mut i: usize = 0;
        proof {
            assert(after.take(0) =~= Seq::<LedgerView>::empty());
            lemma_share_sum_same(after, before);
        }
        while i < self.ledgers.len()
            invariant
                before == old(self)@.ledgers,
                after == before.map_values(|l: LedgerView| l.touched(now@, *config)),
                i <= self.ledgers@.len() == before.len() <= MAX_ACCOUNTS,
                self.factors@ == old(self).factors@,
                self.shares_total == old(self).shares_total,
                forall|j: int| 0 <= j < i ==> (#[trigger] self.ledgers@[j])@ == after[j],
                forall|j: int|
                    i <= j < self.ledgers@.len() ==> (#[trigger] self.ledgers@[j])@ == before[j],
                total == usage_sum(after.take(i as int)),
            decreases self.ledgers@.len() - i,
        {
            let mut ledger: Ledger = self.ledgers[i];
            ledger.touch(now, *config);
            proof {
                assert(after.take(i + 1).drop_last() =~= after.take(i as int));
                lemma_share_sum_bound(after.take(i as int));
            }
            total += ledger.usage as u128;
            self.ledgers[i] = ledger;
            i += 1;
        }
        proof {
            assert(after.take(after.len() as int) =~= after);
            assert(ledger_views(self.ledgers@) =~= after);
            lemma_share_sum_bound(after);
        }
        let ghost target = old(self)@.refreshed(now, *config);
        let mut k: usize = 0;
        while k < self.ledgers.len()
            invariant
                k <= self.ledgers@.len() == self.factors@.len() <= MAX_ACCOUNTS,
                self.factors@.len() == old(self).factors@.len(),
                ledger_views(self.ledgers@) == after,
                total == usage_sum(after),
                self.shares_total == share_sum(after),
                total <= 0x400_0000_0000_0000_0000,
                self.shares_total <= 0x400_0000_0000,
                target.factors.len() == self.factors@.len(),
                forall|j: int|
                    0 <= j < target.factors.len() ==> #[trigger] target.factors[j] == share_factor(
                        after[j].usage as nat,
                        after[j].shares as nat,
                        usage_sum(after),
                        share_sum(after),
                    ) as u64,
                forall|j: int|
                    0 <= j < k ==> #[trigger] self.factors@[j] == target.factors[j]
                        && self.factors@[j] <= FACTOR_SCALE,
            decreases self.ledgers@.len() - k,
        {
            let ledger: Ledger = self.ledgers[k];
            assert(ledger@ == after[k as int]);
            self.factors[k] = factor_for(ledger.usage, ledger.shares, total, self.shares_total);
            k += 1;
        }
        assert(self.factors@ =~= target.factors);
    }

    /// The account's factor in `0..=FACTOR_SCALE`; max for an unseen account.
    #[must_use]
    pub fn factor(&self, account: AccountId) -> (factor: u64)
        requires
            self.wf(),
        ensures
            factor == self@.factor_of(account),
            factor <= FACTOR_SCALE,
    {
        let index: usize = account.get() as usize;
        if index < self.factors.len() {
            self.factors[index]
        } else {
            FACTOR_SCALE
        }
    }

    /// One account's ledger, if it has been seen.
    #[must_use]
    pub fn ledger(&self, account: AccountId) -> (ledger: Option<&Ledger>)
        ensures
            ledger is Some <==> account@ < self@.ledgers.len(),
            ledger matches Some(ledger) ==> ledger@ == self@.ledgers[account@ as int],
    {
        let index: usize = account.get() as usize;
        if index < self.ledgers.len() {
            Some(&self.ledgers[index])
        } else {
            None
        }
    }

    /// Every ledger, indexed by account id.
    #[must_use]
    pub fn ledgers(&self) -> (ledgers: &[Ledger])
        ensures
            ledger_views(ledgers@) == self@.ledgers,
    {
        self.ledgers.as_slice()
    }

    /// Every factor, indexed by account id.
    #[must_use]
    pub fn factors(&self) -> (factors: &[u64])
        ensures
            factors@ == self@.factors,
    {
        self.factors.as_slice()
    }

    /// Sum of shares over all accounts.
    #[must_use]
    pub fn shares_total(&self) -> (total: u64)
        requires
            self.wf(),
        ensures
            total == share_sum(self@.ledgers),
    {
        self.shares_total
    }

    /// Accounts seen so far.
    #[must_use]
    pub fn len(&self) -> (count: usize)
        ensures
            count == self@.ledgers.len(),
    {
        self.ledgers.len()
    }

    /// True before any account has been seen.
    #[must_use]
    pub fn is_empty(&self) -> (empty: bool)
        ensures
            empty == (self@.ledgers.len() == 0),
    {
        self.ledgers.is_empty()
    }
}

impl Default for FairShare {
    fn default() -> (accounts: Self)
        ensures
            accounts.wf(),
            accounts@.ledgers == Seq::<LedgerView>::empty(),
            accounts@.factors == Seq::<u64>::empty(),
    {
        FairShare::new()
    }
}

/// Cross-multiplied fractions keep their order when rounded down.
proof fn lemma_floor_order(a: nat, b: nat, c: nat, d: nat)
    requires
        b > 0,
        d > 0,
        a * d <= c * b,
    ensures
        a / b <= c / d,
{
    let q = a / b;
    div_mod::lemma_fundamental_div_mod(a as int, b as int);
    div_mod::lemma_mod_bound(a as int, b as int);
    assert(b * q <= a);
    assert(q * d * b <= a * d) by (nonlinear_arith)
        requires
            b * q <= a,
            d > 0,
    ;
    assert(q * d <= c) by (nonlinear_arith)
        requires
            q * d * b <= c * b,
            b > 0,
    ;
    div_mod::lemma_div_is_ordered((q * d) as int, c as int, d as int);
    div_mod::lemma_div_multiples_vanish(q as int, d as int);
    assert(d * q == q * d) by (nonlinear_arith);
}

/// While everything else stays the same, using more never raises an account's
/// factor.
pub proof fn law_more_usage_never_raises_the_factor(
    less: nat,
    more: nat,
    others: nat,
    shares: nat,
    shares_total: nat,
)
    requires
        less <= more,
    ensures
        share_factor(more, shares, more + others, shares_total) <= share_factor(
            less,
            shares,
            less + others,
            shares_total,
        ),
{
    let scale = FACTOR_SCALE as nat;
    if more + others > 0 && shares > 0 {
        let x_more = overuse(more, shares, more + others, shares_total);
        decay::lemma_scaled_decay_monotone(scale, 0, x_more);
        if less + others > 0 {
            let x_less = overuse(less, shares, less + others, shares_total);
            let t = shares_total * DECAY_STEPS as nat;
            let (a, b) = (less * shares_total * DECAY_STEPS as nat, (less + others) * shares);
            let (c, d) = (more * shares_total * DECAY_STEPS as nat, (more + others) * shares);
            assert(a == less * t) by (nonlinear_arith)
                requires
                    a == less * shares_total * (DECAY_STEPS as nat),
                    t == shares_total * (DECAY_STEPS as nat),
            ;
            assert(c == more * t) by (nonlinear_arith)
                requires
                    c == more * shares_total * (DECAY_STEPS as nat),
                    t == shares_total * (DECAY_STEPS as nat),
            ;
            assert(b > 0) by (nonlinear_arith)
                requires
                    b == (less + others) * shares,
                    less + others > 0,
                    shares > 0,
            ;
            assert(d > 0) by (nonlinear_arith)
                requires
                    d == (more + others) * shares,
                    more + others > 0,
                    shares > 0,
            ;
            lemma_cross(less, more, others, shares, t);
            lemma_floor_order(a, b, c, d);
            decay::lemma_scaled_decay_monotone(scale, x_less, x_more);
        }
    }
}

proof fn lemma_cross(less: nat, more: nat, others: nat, shares: nat, t: nat)
    requires
        less <= more,
    ensures
        (less * t) * ((more + others) * shares) <= (more * t) * ((less + others) * shares),
{
    let w = t * shares;
    assert(less * (more + others) <= more * (less + others)) by (nonlinear_arith)
        requires
            less <= more,
            others >= 0,
    ;
    let (p, q) = (less * (more + others), more * (less + others));
    assert(p * w <= q * w) by (nonlinear_arith)
        requires
            p <= q,
            w >= 0,
    ;
    assert((less * t) * ((more + others) * shares) == p * w) by (nonlinear_arith)
        requires
            p == less * (more + others),
            w == t * shares,
    ;
    assert((more * t) * ((less + others) * shares) == q * w) by (nonlinear_arith)
        requires
            q == more * (less + others),
            w == t * shares,
    ;
}

/// A factor always lies in `0..=FACTOR_SCALE`.
pub proof fn law_factor_is_bounded(
    usage: nat,
    shares: nat,
    usage_total: nat,
    shares_total: nat,
)
    ensures
        0 <= share_factor(usage, shares, usage_total, shares_total) <= FACTOR_SCALE,
{
    if usage_total > 0 && shares > 0 {
        decay::lemma_scaled_decay_monotone(
            FACTOR_SCALE as nat,
            0,
            overuse(usage, shares, usage_total, shares_total),
        );
    }
}

/// An account that has used nothing earns the greatest factor, if it has shares
/// at all; one without shares earns nothing once anybody has used anything.
pub proof fn law_unused_shares_earn_the_greatest_factor(
    shares: nat,
    usage_total: nat,
    shares_total: nat,
)
    ensures
        shares > 0 ==> share_factor(0, shares, usage_total, shares_total) == FACTOR_SCALE,
        shares == 0 && usage_total > 0 ==> share_factor(0, shares, usage_total, shares_total) == 0,
{
    if usage_total > 0 && shares > 0 {
        let den = usage_total * shares;
        assert(den > 0) by (nonlinear_arith)
            requires
                den == usage_total * shares,
                usage_total > 0,
                shares > 0,
        ;
        assert(0 * shares_total * (DECAY_STEPS as nat) == 0) by (nonlinear_arith);
        div_mod::lemma_div_basics(den as int);
        decay::lemma_scaled_decay_monotone(FACTOR_SCALE as nat, 0, 0);
    }
}

/// An account that has used exactly its share of everything used earns one half.
pub proof fn law_exact_share_earns_one_half(
    usage: nat,
    shares: nat,
    usage_total: nat,
    shares_total: nat,
)
    requires
        usage * shares_total == usage_total * shares,
        usage_total > 0,
        shares > 0,
    ensures
        share_factor(usage, shares, usage_total, shares_total) == FACTOR_SCALE / 2,
{
    let den = usage_total * shares;
    assert(den > 0) by (nonlinear_arith)
        requires
            den == usage_total * shares,
            usage_total > 0,
            shares > 0,
    ;
    div_mod::lemma_div_multiples_vanish(DECAY_STEPS as int, den as int);
    decay::lemma_one_halving();
}

/// Bringing a ledger to a time twice is bringing it there once.
pub proof fn law_touching_twice_is_touching_once(
    ledger: LedgerView,
    now: u64,
    config: FairShareConfig,
)
    ensures
        ledger.touched(now, config).touched(now, config) == ledger.touched(now, config),
{
    let quantum = config.quantum();
    let once = ledger.touched(now, config);
    let elapsed = time::floored_difference(now, ledger.decayed_to);
    lemma_whole_parts(elapsed, quantum);
    div_mod::lemma_fundamental_div_mod(elapsed as int, quantum as int);
    div_mod::lemma_mod_bound(elapsed as int, quantum as int);
    assert((elapsed / quantum) * quantum == quantum * (elapsed / quantum)) by (nonlinear_arith);
    let left = time::floored_difference(now, once.decayed_to);
    assert(left < quantum);
    div_mod::lemma_basic_div(left as int, quantum as int);
    assert(0 * quantum == 0);
    assert(once.running_cpu * 0 == 0);
    decay::law_decay_never_adds_usage(once.usage as nat, 0);
}

/// A ledger that has been brought to a time stays as it is when it is brought there
/// again, however much it runs by then: what starts now is not charged for the past.
pub proof fn law_touching_again_charges_nothing(
    ledger: LedgerView,
    again: LedgerView,
    now: u64,
    config: FairShareConfig,
)
    requires
        ledger == ledger.touched(now, config),
        again.usage == ledger.usage,
        again.accrued_to == ledger.accrued_to,
        again.decayed_to == ledger.decayed_to,
    ensures
        again.touched(now, config) == again,
{
    let quantum = config.quantum();
    let elapsed = time::floored_difference(now, ledger.decayed_to);
    lemma_whole_parts(elapsed, quantum);
    let steps = elapsed / quantum;
    assert(steps == 0) by {
        if steps > 0 {
            assert(steps * quantum > 0) by (nonlinear_arith)
                requires
                    steps > 0,
                    quantum > 0,
            ;
        }
    }
    assert(0 * quantum == 0) by (nonlinear_arith);
    decay::law_decay_never_adds_usage(ledger.usage as nat, 0);
    let held_ms = time::floored_difference(now, ledger.accrued_to) / 1_000_000;
    assert(held_ms == 0);
    assert(again.running_cpu * 0 == 0) by (nonlinear_arith);
}

/// Taking the whole parts of a span in two goes or in one comes to the same.
proof fn lemma_whole_parts_add(origin: u64, early: u64, late: u64, d: u64)
    requires
        d > 0,
        early <= late,
    ensures
        ({
            let first = time::floored_difference(early, origin) / d;
            let middle = origin + first * d;
            let second = time::floored_difference(late, middle as u64) / d;
            let whole = time::floored_difference(late, origin) / d;
            &&& middle <= u64::MAX
            &&& first + second == whole
            &&& middle + second * d == origin + whole * d
        }),
{
    let span = time::floored_difference(early, origin);
    let first = span / d;
    lemma_whole_parts(span, d);
    let middle = (origin + first * d) as u64;
    let rest = time::floored_difference(late, middle);
    let whole = time::floored_difference(late, origin) / d;
    if early >= origin {
        assert(rest == late - origin - first * d);
        assert(rest / d == whole - first) by {
            div_mod::lemma_hoist_over_denominator(rest as int, first as int, d as nat);
            assert(first * d + rest == late - origin);
        }
    } else {
        div_mod::lemma_div_basics(d as int);
        assert(0 * d == 0) by (nonlinear_arith);
    }
    let second = rest / d;
    assert(first * d + second * d == (first + second) * d) by (nonlinear_arith);
}

/// Looking at a ledger in between loses no time: however often it is touched on
/// the way, it ends up decayed and charged to the same points.
pub proof fn law_small_touches_lose_no_time(
    ledger: LedgerView,
    early: u64,
    late: u64,
    config: FairShareConfig,
)
    requires
        early <= late,
    ensures
        ({
            let often = ledger.touched(early, config).touched(late, config);
            let once = ledger.touched(late, config);
            &&& often.decayed_to == once.decayed_to
            &&& often.accrued_to == once.accrued_to
        }),
{
    lemma_whole_parts_add(ledger.decayed_to, early, late, config.quantum());
    lemma_whole_parts_add(ledger.accrued_to, early, late, 1_000_000);
}

/// An account with nothing running never gains usage by the passing of time.
pub proof fn law_idle_accounts_never_gain_usage(
    ledger: LedgerView,
    now: u64,
    config: FairShareConfig,
)
    requires
        ledger.running_cpu == 0,
    ensures
        ledger.touched(now, config).usage <= ledger.usage,
{
    let steps = time::floored_difference(now, ledger.decayed_to) / config.quantum();
    decay::law_decay_never_adds_usage(ledger.usage as nat, steps as nat);
    let held_ms = time::floored_difference(now, ledger.accrued_to) / 1_000_000;
    assert(0 * held_ms == 0);
}

/// What a dispatch adds to the running CPU of an account, the release at the end
/// takes away again, unless the sum had to be clamped; shares and the other
/// accounts are not touched by either.
pub proof fn law_release_undoes_dispatch(
    accounts: Accounts,
    account: AccountId,
    cpu_millis: u32,
    start: VirtualTime,
    end: VirtualTime,
    config: FairShareConfig,
)
    requires
        account@ < accounts.ledgers.len(),
        accounts.ledgers[account@ as int].running_cpu + cpu_millis <= u64::MAX,
    ensures
        ({
            let i = account@ as int;
            let after = accounts.dispatched(account, cpu_millis, start, config).released(
                account,
                cpu_millis,
                end,
                config,
            );
            &&& after.ledgers[i].running_cpu == accounts.ledgers[i].running_cpu
            &&& after.ledgers[i].shares == accounts.ledgers[i].shares
            &&& after.ledgers.len() == accounts.ledgers.len()
            &&& after.factors == accounts.factors
            &&& forall|j: int|
                0 <= j < after.ledgers.len() && j != i ==> #[trigger] after.ledgers[j]
                    == accounts.ledgers[j]
        }),
{
}

/// Cpu is charged by the millisecond: while no decay step has passed, a ledger that
/// held `running_cpu` for `millis` whole milliseconds has that many times
/// `running_cpu` more usage, up to the top of the range. The rest of a millisecond
/// waits for the next time.
pub proof fn law_cpu_is_charged_by_the_millisecond(
    ledger: LedgerView,
    now: u64,
    config: FairShareConfig,
    millis: nat,
)
    requires
        ledger.accrued_to + millis * 1_000_000 <= now < ledger.accrued_to + (millis + 1) * 1_000_000,
        now < ledger.decayed_to + (if config.half_life@ < 1_024 {
            1
        } else {
            config.half_life@ as int / 1_024
        }),
    ensures
        ({
            let after = ledger.touched(now, config);
            let total = ledger.usage + ledger.running_cpu * millis;
            &&& after.usage == (if total <= u64::MAX {
                total
            } else {
                u64::MAX as int
            })
            &&& after.accrued_to == ledger.accrued_to + millis * 1_000_000
            &&& after.decayed_to == ledger.decayed_to
            &&& after.running_cpu == ledger.running_cpu
            &&& after.shares == ledger.shares
        }),
{
    let quantum = config.quantum();
    let elapsed = time::floored_difference(now, ledger.decayed_to);
    div_mod::lemma_basic_div(elapsed as int, quantum as int);
    assert(0 * quantum == 0) by (nonlinear_arith);
    decay::law_decay_never_adds_usage(ledger.usage as nat, 0);
    let held = time::floored_difference(now, ledger.accrued_to);
    assert(held / 1_000_000 == millis);
    let owed = ledger.running_cpu * millis;
    assert(owed >= 0) by (nonlinear_arith)
        requires
            owed == ledger.running_cpu * millis,
            ledger.running_cpu >= 0,
            millis >= 0,
    ;
}

/// What runs is charged in full on top of whatever time has left of the past: the
/// ledger ends with the usage that it would have with nothing running, plus
/// `running_cpu` for each whole millisecond since it was last charged.
pub proof fn law_fresh_use_is_charged_undecayed(
    ledger: LedgerView,
    now: u64,
    config: FairShareConfig,
)
    ensures
        ({
            let idle = LedgerView { running_cpu: 0, ..ledger };
            let millis = if now > ledger.accrued_to {
                (now - ledger.accrued_to) as int / 1_000_000
            } else {
                0
            };
            let total = idle.touched(now, config).usage + ledger.running_cpu * millis;
            let after = ledger.touched(now, config);
            &&& after.usage == (if total <= u64::MAX {
                total
            } else {
                u64::MAX as int
            })
            &&& after.accrued_to == ledger.accrued_to + millis * 1_000_000
            &&& after.running_cpu == ledger.running_cpu
            &&& after.shares == ledger.shares
        }),
{
    let held_ms = time::floored_difference(now, ledger.accrued_to) / 1_000_000;
    assert(0 * held_ms == 0) by (nonlinear_arith);
    let owed = ledger.running_cpu * held_ms;
    assert(owed >= 0) by (nonlinear_arith)
        requires
            owed == ledger.running_cpu * held_ms,
            ledger.running_cpu >= 0,
            held_ms >= 0,
    ;
}

/// Jobs are charged one by one: running two lots of cpu together is charged the
/// sum of what each alone would be charged, wherever that stays in range.
pub proof fn law_jobs_are_charged_separately(
    ledger: LedgerView,
    one: u64,
    other: u64,
    now: u64,
    config: FairShareConfig,
)
    requires
        one + other <= u64::MAX,
        ({
            let both = LedgerView { running_cpu: (one + other) as u64, ..ledger };
            both.touched(now, config).usage < u64::MAX
        }),
    ensures
        ({
            let none = LedgerView { running_cpu: 0, ..ledger }.touched(now, config).usage;
            let first = LedgerView { running_cpu: one, ..ledger }.touched(now, config).usage;
            let second = LedgerView { running_cpu: other, ..ledger }.touched(now, config).usage;
            let both = LedgerView { running_cpu: (one + other) as u64, ..ledger }.touched(
                now,
                config,
            ).usage;
            both - none == (first - none) + (second - none)
        }),
{
    let m = time::floored_difference(now, ledger.accrued_to) / 1_000_000;
    law_fresh_use_is_charged_undecayed(LedgerView { running_cpu: one, ..ledger }, now, config);
    law_fresh_use_is_charged_undecayed(LedgerView { running_cpu: other, ..ledger }, now, config);
    law_fresh_use_is_charged_undecayed(
        LedgerView { running_cpu: (one + other) as u64, ..ledger },
        now,
        config,
    );
    assert((one + other) * m == one * m + other * m) by (nonlinear_arith);
    assert(one * m >= 0 && other * m >= 0) by (nonlinear_arith)
        requires
            one >= 0,
            other >= 0,
            m >= 0,
    ;
}

/// Usage halves every half-life: an account with nothing running keeps exactly one
/// part in `2^n`, rounded down, after `n` of them. A half-life is taken as `1_024`
/// steps of a whole number of nanoseconds, one at least.
pub proof fn law_idle_usage_halves_every_half_life(
    ledger: LedgerView,
    now: u64,
    config: FairShareConfig,
    n: nat,
)
    requires
        ledger.running_cpu == 0,
        now == ledger.decayed_to + n * 1_024 * (if config.half_life@ < 1_024 {
            1
        } else {
            config.half_life@ as int / 1_024
        }),
    ensures
        ledger.touched(now, config).usage == ledger.usage as int / (
        power2::pow2(n) as int),
        ledger.touched(now, config).decayed_to == now,
{
    let quantum = config.quantum() as int;
    let steps = n * 1_024;
    let elapsed = time::floored_difference(now, ledger.decayed_to);
    assert(n * 1_024 * quantum >= 0) by (nonlinear_arith)
        requires
            n >= 0,
            quantum > 0,
    ;
    assert(n * 1_024 * quantum == quantum * steps) by (nonlinear_arith)
        requires
            steps == n * 1_024,
    ;
    assert(steps * quantum == quantum * steps) by (nonlinear_arith);
    div_mod::lemma_div_multiples_vanish(steps as int, quantum);
    assert(elapsed as int / quantum == steps);
    decay::law_usage_halves_exactly(ledger.usage as nat, n);
    let held_ms = time::floored_difference(now, ledger.accrued_to) / 1_000_000;
    assert(0 * held_ms == 0) by (nonlinear_arith);
    power2::lemma_pow2_pos(n);
    div_mod::lemma_div_pos_is_pos(ledger.usage as int, power2::pow2(n) as int);
    div_mod::lemma_div_nonincreasing(ledger.usage as int, power2::pow2(n) as int);
}

/// The longer an account with nothing running is left alone, the less it has used.
pub proof fn law_idle_usage_only_fades(
    ledger: LedgerView,
    early: u64,
    late: u64,
    config: FairShareConfig,
)
    requires
        ledger.running_cpu == 0,
        early <= late,
    ensures
        ledger.touched(late, config).usage <= ledger.touched(early, config).usage <= ledger.usage,
{
    let quantum = config.quantum() as int;
    let (a, b) = (
        time::floored_difference(early, ledger.decayed_to) as int,
        time::floored_difference(late, ledger.decayed_to) as int,
    );
    div_mod::lemma_div_is_ordered(a, b, quantum);
    div_mod::lemma_div_pos_is_pos(a, quantum);
    decay::law_longer_decay_leaves_less(
        ledger.usage as nat,
        (a / quantum) as nat,
        (b / quantum) as nat,
    );
    decay::law_decay_never_adds_usage(ledger.usage as nat, (a / quantum) as nat);
    decay::law_decay_never_adds_usage(ledger.usage as nat, (b / quantum) as nat);
    let x = time::floored_difference(early, ledger.accrued_to) / 1_000_000;
    let y = time::floored_difference(late, ledger.accrued_to) / 1_000_000;
    assert(0 * x == 0 && 0 * y == 0) by (nonlinear_arith);
}

/// A dispatch brings the account to `now` and adds the job's cpu to what it runs; a
/// release brings it to `now` and takes the job's cpu off again, down to nothing.
/// No other account changes, and an account never seen is not charged.
pub proof fn law_dispatch_and_release_move_running_cpu(
    accounts: Accounts,
    account: AccountId,
    cpu_millis: u32,
    now: VirtualTime,
    config: FairShareConfig,
)
    ensures
        ({
            let i = account@ as int;
            let begun = accounts.dispatched(account, cpu_millis, now, config);
            let ended = accounts.released(account, cpu_millis, now, config);
            let was = accounts.ledgers[i];
            &&& begun.factors == accounts.factors && ended.factors == accounts.factors
            &&& begun.ledgers.len() == accounts.ledgers.len()
            &&& ended.ledgers.len() == accounts.ledgers.len()
            &&& forall|j: int|
                0 <= j < accounts.ledgers.len() && j != i ==> #[trigger] begun.ledgers[j]
                    == accounts.ledgers[j]
            &&& forall|j: int|
                0 <= j < accounts.ledgers.len() && j != i ==> #[trigger] ended.ledgers[j]
                    == accounts.ledgers[j]
            &&& i < accounts.ledgers.len() ==> {
                &&& begun.ledgers[i].running_cpu == (if was.running_cpu + cpu_millis <= u64::MAX {
                    was.running_cpu + cpu_millis
                } else {
                    u64::MAX as int
                })
                &&& ended.ledgers[i].running_cpu == (if was.running_cpu >= cpu_millis {
                    was.running_cpu - cpu_millis
                } else {
                    0
                })
                &&& begun.ledgers[i] == (LedgerView {
                    running_cpu: begun.ledgers[i].running_cpu,
                    ..was.touched(now@, config)
                })
                &&& ended.ledgers[i] == (LedgerView {
                    running_cpu: ended.ledgers[i].running_cpu,
                    ..was.touched(now@, config)
                })
            }
        }),
{
}

/// A job of `cpu_millis` that runs for `millis` whole milliseconds, with no decay
/// step passing, costs its account `cpu_millis` times `millis`, on top of what the
/// account's other jobs cost in that time.
pub proof fn law_a_job_costs_its_cpu_times_its_time(
    accounts: Accounts,
    account: AccountId,
    cpu_millis: u32,
    start: VirtualTime,
    end: VirtualTime,
    config: FairShareConfig,
    millis: nat,
)
    requires
        account@ < accounts.ledgers.len(),
        accounts.ledgers[account@ as int].accrued_to == start@,
        accounts.ledgers[account@ as int].decayed_to <= start@,
        end@ == start@ + millis * 1_000_000,
        end@ < accounts.ledgers[account@ as int].decayed_to + (if config.half_life@ < 1_024 {
            1
        } else {
            config.half_life@ as int / 1_024
        }),
        accounts.ledgers[account@ as int].running_cpu + cpu_millis <= u64::MAX,
        accounts.ledgers[account@ as int].usage + (accounts.ledgers[account@ as int].running_cpu
            + cpu_millis) * millis <= u64::MAX,
    ensures
        ({
            let i = account@ as int;
            let before = accounts.ledgers[i];
            let after = accounts.dispatched(account, cpu_millis, start, config).released(
                account,
                cpu_millis,
                end,
                config,
            ).ledgers[i];
            &&& after.usage == before.usage + before.running_cpu * millis + cpu_millis * millis
            &&& after.running_cpu == before.running_cpu
        }),
{
    let i = account@ as int;
    let before = accounts.ledgers[i];
    law_cpu_is_charged_by_the_millisecond(before, start@, config, 0);
    assert(before.running_cpu * 0 == 0) by (nonlinear_arith);
    let begun = accounts.dispatched(account, cpu_millis, start, config).ledgers[i];
    assert(begun.usage == before.usage);
    law_cpu_is_charged_by_the_millisecond(begun, end@, config, millis);
    assert((before.running_cpu + cpu_millis) * millis == before.running_cpu * millis + cpu_millis
        * millis) by (nonlinear_arith);
}

/// A refresh brings every ledger to `now`, each by itself.
pub proof fn law_refresh_touches_every_ledger(
    accounts: Accounts,
    now: VirtualTime,
    config: FairShareConfig,
)
    ensures
        ({
            let after = accounts.refreshed(now, config);
            &&& after.ledgers.len() == accounts.ledgers.len()
            &&& after.factors.len() == accounts.factors.len()
            &&& forall|i: int|
                0 <= i < accounts.ledgers.len() ==> #[trigger] after.ledgers[i]
                    == accounts.ledgers[i].touched(now@, config)
        }),
{
}

/// After a refresh each account has the factor that its usage and shares earn among
/// all accounts: using `n` times its part of the shares halves it `n` times. In
/// particular the exact part earns one half, nothing used the whole, and an account
/// without shares earns nothing.
pub proof fn law_refreshed_factor_halves_with_overuse(
    accounts: Accounts,
    now: VirtualTime,
    config: FairShareConfig,
    i: int,
    n: nat,
)
    requires
        accounts.factors.len() == accounts.ledgers.len(),
        0 <= i < accounts.ledgers.len(),
        ({
            let after = accounts.refreshed(now, config).ledgers;
            &&& usage_sum(after) > 0
            &&& after[i].shares > 0
            &&& after[i].usage * share_sum(after) == n * (usage_sum(after) * after[i].shares)
        }),
    ensures
        accounts.refreshed(now, config).factors[i] == 1_000_000int / (
        power2::pow2(n) as int),
{
    let after = accounts.refreshed(now, config).ledgers;
    law_overuse_halves_the_factor(
        after[i].usage as nat,
        after[i].shares as nat,
        usage_sum(after),
        share_sum(after),
        n,
    );
    power2::lemma_pow2_pos(n);
    div_mod::lemma_div_pos_is_pos(1_000_000, power2::pow2(n) as int);
    div_mod::lemma_div_nonincreasing(1_000_000, power2::pow2(n) as int);
}

/// Using `n` times one's part of the shares halves the factor `n` times.
pub proof fn law_overuse_halves_the_factor(
    usage: nat,
    shares: nat,
    usage_total: nat,
    shares_total: nat,
    n: nat,
)
    requires
        usage * shares_total == n * (usage_total * shares),
        usage_total > 0,
        shares > 0,
    ensures
        share_factor(usage, shares, usage_total, shares_total) == 1_000_000int / (
        power2::pow2(n) as int),
{
    let den = usage_total * shares;
    assert(den > 0) by (nonlinear_arith)
        requires
            den == usage_total * shares,
            usage_total > 0,
            shares > 0,
    ;
    assert(n * den * 1_024 == den * (n * 1_024)) by (nonlinear_arith);
    div_mod::lemma_div_multiples_vanish((n * 1_024) as int, den as int);
    assert(overuse(usage, shares, usage_total, shares_total) == n * 1_024);
    decay::law_scale_halves_exactly(n);
}

/// Usage fades step by step: an account with nothing running is decayed by every whole
/// step since it last was, a step being one part in `1_024` of a half-life, and the
/// rest of a step waits for the next time. Of the steps short of a halving each takes
/// the share that the decay factor gives.
pub proof fn law_idle_usage_fades_step_by_step(
    ledger: LedgerView,
    now: u64,
    config: FairShareConfig,
    halvings: nat,
    steps: nat,
    rest: nat,
)
    requires
        ledger.running_cpu == 0,
        steps < 1_024,
        halvings < 64,
        ({
            let quantum = if config.half_life@ < 1_024 {
                1
            } else {
                config.half_life@ as int / 1_024
            };
            &&& rest < quantum
            &&& now == ledger.decayed_to + (halvings * 1_024 + steps) * quantum + rest
        }),
    ensures
        ({
            let after = ledger.touched(now, config);
            let halved = ledger.usage as int / (power2::pow2(halvings) as int);
            &&& after.usage * 0x1_0000_0000_0000 <= halved * decay::decay_at(steps) < (after.usage
                + 1) * 0x1_0000_0000_0000
            &&& after.decayed_to == now - rest
        }),
{
    let quantum = config.quantum() as int;
    let whole = halvings * 1_024 + steps;
    let elapsed = time::floored_difference(now, ledger.decayed_to);
    assert(whole * quantum >= 0) by (nonlinear_arith)
        requires
            whole >= 0,
            quantum > 0,
    ;
    div_mod::lemma_fundamental_div_mod_converse(
        elapsed as int,
        quantum,
        whole as int,
        rest as int,
    );
    decay::law_usage_decays_by_the_factor(ledger.usage as nat, halvings, steps);
    decay::law_decay_never_adds_usage(ledger.usage as nat, whole);
    let held_ms = time::floored_difference(now, ledger.accrued_to) / 1_000_000;
    assert(0 * held_ms == 0) by (nonlinear_arith);
}

/// The factor falls step by step with overuse: an account stands at as many steps as
/// its part of all usage holds of its part of all shares, counted in parts of `1_024`,
/// and has what the decay by that many steps leaves of a million.
pub proof fn law_factor_falls_step_by_step(
    usage: nat,
    shares: nat,
    usage_total: nat,
    shares_total: nat,
    steps: nat,
)
    requires
        usage_total > 0,
        shares > 0,
        steps * (usage_total * shares) <= usage * shares_total * 1_024 < (steps + 1) * (usage_total
            * shares),
    ensures
        ({
            let factor = share_factor(usage, shares, usage_total, shares_total);
            factor * 0x1_0000_0000_0000 <= 1_000_000 * decay::decay_at(steps) < (factor + 1)
                * 0x1_0000_0000_0000
        }),
{
    let den = usage_total * shares;
    assert(den > 0) by (nonlinear_arith)
        requires
            den == usage_total * shares,
            usage_total > 0,
            shares > 0,
    ;
    let num = usage * shares_total * 1_024;
    assert((steps + 1) * den == steps * den + den) by (nonlinear_arith);
    div_mod::lemma_fundamental_div_mod_converse(
        num as int,
        den as int,
        steps as int,
        num - steps * den,
    );
    div_mod::lemma_fundamental_div_mod(1_000_000 * decay::decay_at(steps), 0x1_0000_0000_0000);
}

/// While everything else stays the same, holding more shares never lowers an
/// account's factor.
pub proof fn law_more_shares_never_lower_the_factor(
    usage: nat,
    usage_total: nat,
    fewer: nat,
    more: nat,
    others: nat,
)
    requires
        fewer <= more,
    ensures
        share_factor(usage, fewer, usage_total, fewer + others) <= share_factor(
            usage,
            more,
            usage_total,
            more + others,
        ),
{
    let scale = FACTOR_SCALE as nat;
    law_factor_is_bounded(usage, more, usage_total, more + others);
    if usage_total > 0 && fewer > 0 {
        let steps = DECAY_STEPS as nat;
        let (a, b) = (usage * (more + others) * steps, usage_total * more);
        let (c, d) = (usage * (fewer + others) * steps, usage_total * fewer);
        assert(b > 0) by (nonlinear_arith)
            requires
                b == usage_total * more,
                usage_total > 0,
                more > 0,
        ;
        assert(d > 0) by (nonlinear_arith)
            requires
                d == usage_total * fewer,
                usage_total > 0,
                fewer > 0,
        ;
        let w = usage * steps * usage_total;
        let (p, q) = ((more + others) * fewer, (fewer + others) * more);
        assert(p <= q) by (nonlinear_arith)
            requires
                p == (more + others) * fewer,
                q == (fewer + others) * more,
                fewer <= more,
        ;
        assert(p * w <= q * w) by (nonlinear_arith)
            requires
                p <= q,
                w >= 0,
        ;
        assert(a * d == p * w) by (nonlinear_arith)
            requires
                a == usage * (more + others) * steps,
                d == usage_total * fewer,
                p == (more + others) * fewer,
                w == usage * steps * usage_total,
        ;
        assert(c * b == q * w) by (nonlinear_arith)
            requires
                c == usage * (fewer + others) * steps,
                b == usage_total * more,
                q == (fewer + others) * more,
                w == usage * steps * usage_total,
        ;
        lemma_floor_order(a, b, c, d);
        decay::lemma_scaled_decay_monotone(scale, a / b, c / d);
    }
}

/// The totals are sums over all accounts: one more account adds what it used and
/// what it holds, and no account at all makes nothing.
pub proof fn law_totals_add_up(ledgers: Seq<LedgerView>, ledger: LedgerView)
    ensures
        usage_sum(ledgers.push(ledger)) == usage_sum(ledgers) + ledger.usage,
        share_sum(ledgers.push(ledger)) == share_sum(ledgers) + ledger.shares,
        usage_sum(Seq::<LedgerView>::empty()) == 0,
        share_sum(Seq::<LedgerView>::empty()) == 0,
{
    assert(ledgers.push(ledger).drop_last() =~= ledgers);
}

/// Growing the accounts keeps those there are and adds fresh ones up to `n`, each
/// with nothing used, nothing running, one share and the greatest factor.
pub proof fn law_new_accounts_start_fresh(accounts: Accounts, n: nat, i: int)
    requires
        accounts.factors.len() == accounts.ledgers.len(),
    ensures
        ({
            let after = accounts.grown(n);
            let old_len = accounts.ledgers.len();
            &&& after.ledgers.len() == (if n > old_len {
                n
            } else {
                old_len
            })
            &&& after.factors.len() == after.ledgers.len()
            &&& 0 <= i < old_len ==> after.ledgers[i] == accounts.ledgers[i] && after.factors[i]
                == accounts.factors[i]
            &&& old_len <= i < n ==> {
                &&& after.ledgers[i].usage == 0
                &&& after.ledgers[i].running_cpu == 0
                &&& after.ledgers[i].shares == 1
                &&& after.factors[i] == 1_000_000
            }
        }),
{
}

/// An account's factor is the one on record; an account never seen has the greatest.
pub proof fn law_unseen_accounts_have_the_greatest_factor(accounts: Accounts, account: AccountId)
    ensures
        account@ < accounts.factors.len() ==> accounts.factor_of(account)
            == accounts.factors[account@ as int],
        account@ >= accounts.factors.len() ==> accounts.factor_of(account) == 1_000_000,
{
}

impl Clone for FairShare {
    fn clone(&self) -> (copy: Self)
        ensures
            copy@ == self@,
            self.wf() ==> copy.wf(),
    {
        let ledgers: Vec<Ledger> = self.ledgers.clone();
        let factors: Vec<u64> = self.factors.clone();
        proof {
            assert forall|i: int| 0 <= i < ledgers@.len() implies ledgers@[i]
                == self.ledgers@[i] by {
                assert(cloned::<Ledger>(self.ledgers@[i], ledgers@[i]));
            }
            assert forall|i: int| 0 <= i < factors@.len() implies factors@[i]
                == self.factors@[i] by {
                assert(cloned::<u64>(self.factors@[i], factors@[i]));
            }
            assert(ledgers@ =~= self.ledgers@);
            assert(factors@ =~= self.factors@);
        }
        FairShare { ledgers, factors, shares_total: self.shares_total }
    }
}

} // verus!

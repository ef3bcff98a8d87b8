//! Open-loop load: submit at a fixed rate regardless of how the system keeps
//! up, and measure intended-send to task-start. Missing the intended send time
//! is counted as latency, not skipped.
use crate::domain::deps;
use crate::text;
use bytes::Bytes;
use vstd::bytes::{u64_from_le_bytes, u64_to_le_bytes};
use vstd::prelude::*;
use vstd::slice::{slice_subrange, slice_to_vec};

verus! {

/// How much of each write-ahead batch is forced to disk before it counts.
#[derive(Clone, Copy, PartialEq, Eq, Debug, Structural)]
pub enum SyncPolicy {
    /// Data and metadata.
    Full,
    /// Data only.
    Data,
    /// Nothing; the operating system decides.
    Off,
}

/// The sync policy that goes by this name, if any.
pub open spec fn sync_named(name: Seq<char>) -> Option<SyncPolicy> {
    if name == "full"@ {
        Some(SyncPolicy::Full)
    } else if name == "data"@ {
        Some(SyncPolicy::Data)
    } else if name == "none"@ {
        Some(SyncPolicy::Off)
    } else {
        None
    }
}

/// Reads the name of a sync policy.
///
/// # Errors
/// A message that quotes the name and lists the three there are.
pub fn parse_sync(name: &str) -> (read: Result<SyncPolicy, String>)
    ensures
        match sync_named(name@) {
            Some(policy) => read == Ok::<_, String>(policy),
            None => read matches Err(message) && message@ == text::complaint(
                "sync policy"@,
                name@,
                "full|data|none"@,
            ),
        },
{
    if text::same_text(name, "full") {
        Ok(SyncPolicy::Full)
    } else if text::same_text(name, "data") {
        Ok(SyncPolicy::Data)
    } else if text::same_text(name, "none") {
        Ok(SyncPolicy::Off)
    } else {
        Err(text::complain("sync policy", name, "full|data|none"))
    }
}

/// Where in a payload the stamp begins, and where it ends.
pub const STAMP_START: usize = 8;

pub const STAMP_END: usize = 16;

/// The microseconds from the intended send to the start, at least one.
pub open spec fn latency_micros(intended: u64, started: u64) -> u64 {
    if started < intended || (started - intended) / 1_000 < 1 {
        1
    } else {
        ((started - intended) / 1_000) as u64
    }
}

/// The sample that a task with this payload, started at this time, adds; none
/// when the payload is too short to carry a stamp.
pub open spec fn sample_of(payload: Seq<u8>, started: u64) -> Option<u64> {
    if payload.len() < STAMP_END {
        None
    } else {
        Some(
            latency_micros(
                vstd::bytes::spec_u64_from_le_bytes(
                    payload.subrange(STAMP_START as int, STAMP_END as int),
                ),
                started,
            ),
        )
    }
}

/// Reads the intended send time from bytes 8..16 of the payload; the gap to
/// `started`, in microseconds and at least one, is the sample.
#[must_use]
pub fn latency_sample(payload: &Bytes, started: u64) -> (sample: Option<u64>)
    ensures
        sample == sample_of(deps::bytes_of(*payload), started),
{
    let bytes: &[u8] = deps::bytes_as_slice(payload);
    if bytes.len() < STAMP_END {
        return None;
    }
    let intended: u64 = u64_from_le_bytes(slice_subrange(bytes, STAMP_START, STAMP_END));
    let micros: u64 = started.saturating_sub(intended) / 1_000;
    Some(
        if micros < 1 {
            1
        } else {
            micros
        },
    )
}

/// The payload of a sleep with the intended send time stamped behind it.
#[must_use]
pub fn stamped(sleep: &[u8], intended_nanos: u64) -> (payload: Bytes)
    ensures
        deps::bytes_of(payload) == sleep@ + vstd::bytes::spec_u64_to_le_bytes(intended_nanos),
{
    let mut bytes: Vec<u8> = slice_to_vec(sleep);
    let mut stamp: Vec<u8> = u64_to_le_bytes(intended_nanos);
    bytes.append(&mut stamp);
    deps::bytes_from_vec(bytes)
}

/// A stamp behind a sleep of eight bytes is read back as it was written.
pub proof fn law_stamp_is_read_back(sleep: Seq<u8>, intended: u64, started: u64)
    requires
        sleep.len() == STAMP_START,
    ensures
        sample_of(sleep + vstd::bytes::spec_u64_to_le_bytes(intended), started) == Some(
            latency_micros(intended, started),
        ),
{
    vstd::bytes::lemma_auto_spec_u64_to_from_le_bytes();
    let stamp = vstd::bytes::spec_u64_to_le_bytes(intended);
    assert((sleep + stamp).subrange(STAMP_START as int, STAMP_END as int) =~= stamp);
}

/// When submits are due: one every `period` nanoseconds, `total` in all.
#[derive(Clone, Copy, PartialEq, Eq, Debug, Structural)]
pub struct Pacing {
    pub period: u64,
    pub total: u64,
}

impl Pacing {
    /// The pace of `rate` submits a second, for so many seconds. A rate of zero
    /// is paced as one a second, and submits nothing.
    #[must_use]
    pub fn new(rate: u64, seconds: u64) -> (pacing: Self)
        requires
            rate * seconds <= u64::MAX,
        ensures
            pacing.period == 1_000_000_000u64 / (if rate == 0 {
                1
            } else {
                rate
            }),
            pacing.total == rate * seconds,
    {
        let divisor: u64 = if rate == 0 {
            1
        } else {
            rate
        };
        Pacing { period: 1_000_000_000 / divisor, total: rate * seconds }
    }

    /// When the `i`-th submit is due, for a run that began at `start`. Falling
    /// behind does not move it.
    #[must_use]
    pub fn intended(&self, start: u64, i: u64) -> (due: u64)
        requires
            start + i * self.period <= u64::MAX,
        ensures
            due == start + i * self.period,
    {
        proof {
            assert(0 <= i * self.period) by (nonlinear_arith)
                requires
                    0 <= i,
                    0 <= self.period,
            ;
        }
        start + i * self.period
    }
}

/// How many of the first `n` flags are set.
pub open spec fn set_count(flags: Seq<bool>, n: int) -> nat
    decreases n,
{
    if n <= 0 {
        0
    } else {
        set_count(flags, n - 1) + if flags[n - 1] {
            1nat
        } else {
            0nat
        }
    }
}

/// Whether exactly `n` workers report attached.
#[must_use]
pub fn all_attached(attached: &[bool], n: usize) -> (yes: bool)
    ensures
        yes == (set_count(attached@, attached@.len() as int) == n),
{
    let mut count: usize = 0;
    let mut i: usize = 0;
    while i < attached.len()
        invariant
            i <= attached@.len(),
            count == set_count(attached@, i as int),
            count <= i,
        decreases attached@.len() - i,
    {
        if attached[i] {
            count += 1;
        }
        i += 1;
    }
    count == n
}

/// Whether nothing is ready or running any more.
#[must_use]
pub fn drained(ready: u64, running: u64) -> (yes: bool)
    ensures
        yes == (ready == 0 && running == 0),
{
    ready == 0 && running == 0
}

/// A sample is the whole microseconds between the intended send and the start; a start
/// at or before the intended send, or within the same microsecond, counts as one. The
/// later the start, the larger the sample.
pub proof fn law_samples_are_whole_microseconds(intended: u64, started: u64, later: u64)
    requires
        started <= later,
    ensures
        latency_micros(intended, started) >= 1,
        started < intended + 2_000 ==> latency_micros(intended, started) == 1,
        started >= intended + 1_000 ==> latency_micros(intended, started) * 1_000 <= started
            - intended < (latency_micros(intended, started) + 1) * 1_000,
        latency_micros(intended, started) <= latency_micros(intended, later),
{
}

/// A payload under sixteen bytes carries no stamp and gives no sample; any other does.
pub proof fn law_short_payloads_give_no_sample(payload: Seq<u8>, started: u64)
    ensures
        sample_of(payload, started) is None <==> payload.len() < 16,
{
}

/// Only the eight bytes of the stamp enter a sample.
pub proof fn law_the_rest_of_the_payload_does_not_matter(a: Seq<u8>, b: Seq<u8>, started: u64)
    requires
        a.len() >= 16,
        b.len() >= 16,
        forall|i: int| 8 <= i < 16 ==> a[i] == #[trigger] b[i],
    ensures
        sample_of(a, started) == sample_of(b, started),
{
    assert(a.subrange(8, 16) =~= b.subrange(8, 16));
}

/// Flags are counted one by one.
pub proof fn law_flags_are_counted_once(flags: Seq<bool>, flag: bool)
    ensures
        set_count(Seq::empty(), 0) == 0,
        set_count(flags.push(flag), flags.len() as int + 1) == set_count(
            flags,
            flags.len() as int,
        ) + (if flag {
            1nat
        } else {
            0nat
        }),
{
    lemma_set_count_agrees(flags.push(flag), flags, flags.len() as int);
}

proof fn lemma_set_count_agrees(a: Seq<bool>, b: Seq<bool>, n: int)
    requires
        forall|i: int| 0 <= i < n ==> a[i] == b[i],
    ensures
        set_count(a, n) == set_count(b, n),
    decreases n,
{
    if n > 0 {
        lemma_set_count_agrees(a, b, n - 1);
    }
}

} // verus!

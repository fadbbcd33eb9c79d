//! The calls that this library makes into other crates.

use vstd::prelude::*;

verus! {

/// The hexadecimal digit `d`, in small letters.
pub open spec fn hex_digit(d: nat) -> char {
    if d < 10 {
        (('0' as u32) + d) as char
    } else {
        (('a' as u32) + d - 10) as char
    }
}

/// Sixteen to the power of `n`.
pub open spec fn pow16(n: nat) -> nat
    decreases n,
{
    if n == 0 {
        1
    } else {
        16 * pow16((n - 1) as nat)
    }
}

/// Where a dash stands in the text of an id.
pub open spec fn is_dash(i: int) -> bool {
    i == 8 || i == 13 || i == 18 || i == 23
}

/// How many dashes stand ahead of place `i` in the text of an id.
pub open spec fn dashes_ahead(i: int) -> int {
    if i > 23 {
        4
    } else if i > 18 {
        3
    } else if i > 13 {
        2
    } else if i > 8 {
        1
    } else {
        0
    }
}

/// The text of an id: its 32 hexadecimal digits, the highest first, in groups of 8, 4, 4, 4 and 12
/// with a dash between two groups.
pub open spec fn id_text(id: u128) -> Seq<char> {
    Seq::new(
        36,
        |i: int|
            if is_dash(i) {
                '-'
            } else {
                hex_digit(
                    (id as nat / pow16((31 - (i - dashes_ahead(i))) as nat)) % 16,
                )
            },
    )
}

/// Writes an id with the `Display` of `uuid::Uuid`, on the value that `Uuid::from_u128` makes.
/// Taken on trust: the text is the hyphenated form in small letters, highest digit first.
#[verifier::external_body]
pub(crate) fn id_text_of(id: u128) -> (s: String)
    ensures
        s@ == id_text(id),
{
    uuid::Uuid::from_u128(id).to_string()
}

/// Whether an id is of the seventh version, ordered by time: its version digit is 7, and the two
/// bits of its variant are 1 and 0.
pub open spec fn is_time_ordered(id: u128) -> bool {
    (id >> 76) & 0xf == 7 && (id >> 62) & 0x3 == 2
}

/// Makes a fresh id with `uuid::Uuid::now_v7`. The id depends on the clock and on chance. Taken on
/// trust: it is of the seventh version, whatever came out. That two ids differ is not claimed.
#[verifier::external_body]
pub(crate) fn fresh_id() -> (id: u128)
    ensures
        is_time_ordered(id),
{
    uuid::Uuid::now_v7().as_u128()
}

/// The milliseconds since the epoch, by `chrono::Utc::now` and `DateTime::timestamp_millis`.
/// Nothing is claimed of the machine's clock.
#[verifier::external_body]
pub(crate) fn now_millis() -> (t: i64) {
    chrono::Utc::now().timestamp_millis()
}

/// The wait in nanoseconds ahead of retry number `n`, counted from zero, that an exponential
/// backoff of `backon` gives for a least wait, a greatest wait, a bound on the sum of all waits
/// (in milliseconds) and a number of retries; `None` where it gives up. Between the first wait and
/// the greatest, the wait doubles in single precision.
pub uninterp spec fn backoff_wait(
    min_ms: u64,
    max_ms: u64,
    total_ms: u64,
    retries: usize,
    n: usize,
) -> Option<u128>;

/// Asks a `backon::ExponentialBackoff`, built by `backon::ExponentialBuilder` with its default
/// factor of two and without jitter, for its wait number `n`. Taken on trust: the wait is a
/// function of the arguments; there is none from `retries` on; the first is the least wait, unless
/// there is no retry or the least wait exceeds the bound on the sum; no wait exceeds that bound, and
/// none but the first exceeds the greatest wait. There is one for every retry for which the least
/// wait and as many greatest waits as went ahead of it stay within the bound.
#[verifier::external_body]
pub(crate) fn backoff_wait_of(min_ms: u64, max_ms: u64, total_ms: u64, retries: usize, n: usize) -> (r:
    Option<u128>)
    ensures
        r == backoff_wait(min_ms, max_ms, total_ms, retries, n),
        n >= retries ==> r is None,
        n == 0 && retries > 0 && min_ms <= total_ms ==> r == Some((min_ms * 1_000_000) as u128),
        n == 0 && min_ms > total_ms ==> r is None,
        r is Some ==> r->0 <= total_ms * 1_000_000,
        r is Some && n > 0 ==> r->0 <= max_ms * 1_000_000,
        n < retries && min_ms + n * max_ms <= total_ms ==> r is Some,
{
    let builder = backon::ExponentialBuilder::new()
        .with_min_delay(std::time::Duration::from_millis(min_ms))
        .with_max_delay(std::time::Duration::from_millis(max_ms))
        .with_total_delay(Some(std::time::Duration::from_millis(total_ms)))
        .with_max_times(retries);
    let mut waits = backon::BackoffBuilder::build(builder);
    waits.nth(n).map(|wait| wait.as_nanos())
}

} // verus!

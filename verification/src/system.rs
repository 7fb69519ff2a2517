//! Chance and time, as the operating system gives them.

use crate::text;
use rand::{Rng, RngCore};
use vstd::prelude::*;

verus! {

/// `rand::Rng::gen_range` of the thread's generator, on the range from 0 up to
/// but not including `n`: any number of the range.
#[verifier::external_body]
pub(crate) fn random_index(n: usize) -> (i: usize)
    requires
        n > 0,
    ensures
        i < n,
{
    rand::thread_rng().gen_range(0..n)
}

/// `rand::RngCore::fill_bytes` of the operating system's generator.
#[verifier::external_body]
pub(crate) fn random_bytes() -> (b: [u8; 8]) {
    let mut b = [0u8; 8];
    rand::rngs::OsRng.fill_bytes(&mut b);
    b
}

/// `std::time::SystemTime::now` as seconds since the Unix epoch; zero before it.
#[verifier::external_body]
pub(crate) fn now_unix() -> (secs: u64) {
    std::time::SystemTime::now().duration_since(std::time::UNIX_EPOCH).unwrap_or_default().as_secs()
}

/// A moment in UTC, to the second.
#[derive(Clone, Copy, Debug, PartialEq, Eq)]
pub struct UtcTime {
    pub year: i32,
    pub month: u8,
    pub day: u8,
    pub hour: u8,
    pub minute: u8,
    pub second: u8,
}

/// The fields are within the bounds of the calendar.
pub open spec fn in_calendar(t: UtcTime) -> bool {
    &&& -9999 <= t.year <= 9999
    &&& 1 <= t.month <= 12
    &&& 1 <= t.day <= 31
    &&& t.hour <= 23
    &&& t.minute <= 59
    &&& t.second <= 59
}

/// `time::OffsetDateTime::now_utc`, taken apart. The calendar bounds the
/// fields; which moment it is depends on the clock.
#[verifier::external_body]
pub(crate) fn utc_now() -> (t: UtcTime)
    ensures
        in_calendar(t),
{
    let now = time::OffsetDateTime::now_utc();
    UtcTime {
        year: now.year(),
        month: u8::from(now.month()),
        day: now.day(),
        hour: now.hour(),
        minute: now.minute(),
        second: now.second(),
    }
}

/// A moment in UTC as RFC 3339 has it: date and time to the second, perhaps a
/// fraction, and `Z`.
pub open spec fn is_rfc3339_utc(s: Seq<char>) -> bool {
    &&& s.len() >= 20
    &&& forall|i: int|
        0 <= i < 19 && i != 4 && i != 7 && i != 10 && i != 13 && i != 16 ==> text::is_digit(
            #[trigger] s[i],
        )
    &&& s[4] == '-' && s[7] == '-' && s[10] == 'T' && s[13] == ':' && s[16] == ':'
    &&& s.last() == 'Z'
    &&& s.len() > 20 ==> s[19] == '.' && forall|i: int|
        20 <= i < s.len() - 1 ==> text::is_digit(#[trigger] s[i])
}

/// `time::OffsetDateTime::now_utc` in the format of RFC 3339, if it can be
/// written in it. Which moment it is depends on the clock.
#[verifier::external_body]
pub(crate) fn rfc3339_now() -> (s: Option<String>)
    ensures
        s matches Some(t) ==> is_rfc3339_utc(t@),
{
    time::OffsetDateTime::now_utc().format(&time::format_description::well_known::Rfc3339).ok()
}

} // verus!

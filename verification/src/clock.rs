//! Instants in Coordinated Universal Time, read and computed by `chrono`.
use chrono::{Datelike, Timelike};
use vstd::prelude::*;

verus! {

/// An instant: the seconds since 1970-01-01T00:00:00Z, leap seconds not
/// counted, and the nanoseconds into the second. Within a leap second, which
/// follows second 59 of a minute, the nanoseconds run on from one billion.
#[derive(Clone, Copy, PartialEq, Eq, Structural, Debug)]
pub struct UtcTime {
    pub secs: i64,
    pub nanos: u32,
}

/// What a text in the format of RFC 3339 stands for, as seconds and
/// nanoseconds; nothing where the text is none.
pub uninterp spec fn rfc3339_instant(text: Seq<char>) -> Option<(i64, u32)>;

/// The second of the day.
pub open spec fn second_of_day(t: UtcTime) -> int {
    t.secs as int % 86_400
}

/// The day, counted from 1970-01-01.
pub open spec fn day(t: UtcTime) -> int {
    t.secs as int / 86_400
}

/// The nanoseconds from `earlier` to `later`. A leap second counts where the
/// one instant lies in it and the other later in the day.
pub open spec fn nanos_between(later: UtcTime, earlier: UtcTime) -> int {
    let leap = if second_of_day(later) > second_of_day(earlier) && earlier.nanos >= 1_000_000_000 {
        1int
    } else if second_of_day(later) < second_of_day(earlier) && later.nanos >= 1_000_000_000 {
        -1int
    } else {
        0int
    };
    (later.secs - earlier.secs + leap) * 1_000_000_000 + later.nanos - earlier.nanos
}

/// The whole seconds from `earlier` to `later`, cut off toward zero.
pub open spec fn seconds_between(later: UtcTime, earlier: UtcTime) -> int {
    let n = nanos_between(later, earlier);
    if n >= 0 {
        n / 1_000_000_000
    } else {
        -((-n) / 1_000_000_000)
    }
}

impl UtcTime {
    /// The years 0000 to 9999, give or take a day; nanoseconds above a second
    /// only after second 59.
    pub open spec fn wf(self) -> bool {
        &&& -62_167_305_600 <= self.secs < 253_402_387_200
        &&& self.nanos < 2_000_000_000
        &&& self.nanos >= 1_000_000_000 ==> self.secs as int % 60 == 59
    }
}

/// `chrono::DateTime::parse_from_rfc3339`, with the instant taken in UTC. The
/// result depends on the text alone. The format has a year of four digits, an
/// offset of less than a day in whole minutes, and a second 60 as a leap
/// second, which keeps the instant in the range of `UtcTime`.
#[verifier::external_body]
pub(crate) fn parse_rfc3339(text: &str) -> (t: Option<UtcTime>)
    ensures
        match t {
            Some(u) => rfc3339_instant(text@) == Some((u.secs, u.nanos)) && u.wf(),
            None => rfc3339_instant(text@) is None,
        },
{
    match chrono::DateTime::parse_from_rfc3339(text) {
        Ok(t) => Some(UtcTime { secs: t.timestamp(), nanos: t.timestamp_subsec_nanos() }),
        Err(_) => None,
    }
}

/// `chrono::Timelike::hour` of the date and time in UTC that
/// `chrono::DateTime::from_timestamp` makes of the instant, which it does for
/// every instant in the range of `UtcTime`: the hour of the day.
#[verifier::external_body]
pub(crate) fn hour(t: UtcTime) -> (h: u32)
    requires
        t.wf(),
    ensures
        h == second_of_day(t) / 3_600,
{
    chrono::DateTime::from_timestamp(t.secs, t.nanos).unwrap().naive_utc().hour()
}

/// `chrono::Datelike::weekday` of the date and time in UTC that
/// `chrono::DateTime::from_timestamp` makes of the instant, as its
/// `num_days_from_monday`: Monday is 0, Sunday 6, and 1970-01-01 was a Thursday.
#[verifier::external_body]
pub(crate) fn days_from_monday(t: UtcTime) -> (d: u32)
    requires
        t.wf(),
    ensures
        d == (day(t) + 3) % 7,
{
    let naive = chrono::DateTime::from_timestamp(t.secs, t.nanos).unwrap().naive_utc();
    naive.weekday().num_days_from_monday()
}

/// `chrono::NaiveDateTime::signed_duration_since` of the dates and times in UTC
/// that `chrono::DateTime::from_timestamp` makes of the instants, as
/// `num_seconds` of the difference: whole seconds, cut off toward zero. Of leap
/// seconds only those that the two instants lie in are counted, by their times of
/// day.
#[verifier::external_body]
pub(crate) fn seconds_since(later: UtcTime, earlier: UtcTime) -> (s: i64)
    requires
        later.wf(),
        earlier.wf(),
    ensures
        s == seconds_between(later, earlier),
{
    let a = chrono::DateTime::from_timestamp(later.secs, later.nanos).unwrap().naive_utc();
    let b = chrono::DateTime::from_timestamp(earlier.secs, earlier.nanos).unwrap().naive_utc();
    a.signed_duration_since(b).num_seconds()
}

/// Where neither instant lies in a leap second, the difference is that of the
/// two points in time, cut off toward zero.
pub proof fn lemma_seconds_between(later: UtcTime, earlier: UtcTime)
    requires
        later.nanos < 1_000_000_000,
        earlier.nanos < 1_000_000_000,
    ensures
        later.nanos == earlier.nanos ==> seconds_between(later, earlier) == later.secs
            - earlier.secs,
        later.secs >= earlier.secs && later.nanos >= earlier.nanos ==> seconds_between(
            later,
            earlier,
        ) == later.secs - earlier.secs,
        later.secs > earlier.secs && later.nanos < earlier.nanos ==> seconds_between(
            later,
            earlier,
        ) == later.secs - earlier.secs - 1,
        seconds_between(earlier, later) == -seconds_between(later, earlier),
{
}

} // verus!

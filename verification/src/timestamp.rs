//! Moments in time, ordered by instant and read as calendar dates.

use vstd::prelude::*;

verus! {

/// The calendar year of the instant `unix_nanos` (nanoseconds since the Unix
/// epoch) as read at `offset_seconds` east of UTC, where that date exists.
pub uninterp spec fn calendar_year(unix_nanos: int, offset_seconds: int) -> Option<int>;

/// The calendar month, 1 to 12, of the instant `unix_nanos` as read at
/// `offset_seconds` east of UTC, where that date exists.
pub uninterp spec fn calendar_month(unix_nanos: int, offset_seconds: int) -> Option<int>;

/// Trusted, not proved: `time::OffsetDateTime::year`, called on the date-time
/// that `time::OffsetDateTime::from_unix_timestamp_nanos`,
/// `time::UtcOffset::from_whole_seconds` and
/// `time::OffsetDateTime::checked_to_offset` make of the two numbers; `None`
/// where one of the three refuses them. The contract claims one thing of it:
/// that what comes back depends on the two numbers alone, which is what
/// `calendar_year` names.
#[verifier::external_body]
fn year_at(unix_nanos: i128, offset_seconds: i32) -> (year: Option<i32>)
    ensures
        calendar_year(unix_nanos as int, offset_seconds as int) == match year {
            Some(y) => Some(y as int),
            None => None,
        },
{
    let utc = time::OffsetDateTime::from_unix_timestamp_nanos(unix_nanos).ok()?;
    let offset = time::UtcOffset::from_whole_seconds(offset_seconds).ok()?;
    let local = utc.checked_to_offset(offset)?;
    Some(local.year())
}

/// Trusted, not proved: `time::OffsetDateTime::month`, called on the date-time
/// made as for the year. The contract claims that what comes back depends on
/// the two numbers alone, which is what `calendar_month` names, and that a
/// month is a number from 1 to 12: `time::Month` numbers its variants from
/// January = 1 to December = 12, and that number is returned.
#[verifier::external_body]
fn month_at(unix_nanos: i128, offset_seconds: i32) -> (month: Option<u8>)
    ensures
        calendar_month(unix_nanos as int, offset_seconds as int) == match month {
            Some(m) => Some(m as int),
            None => None,
        },
        month matches Some(m) ==> 1 <= m <= 12,
{
    let utc = time::OffsetDateTime::from_unix_timestamp_nanos(unix_nanos).ok()?;
    let offset = time::UtcOffset::from_whole_seconds(offset_seconds).ok()?;
    let local = utc.checked_to_offset(offset)?;
    Some(local.month() as u8)
}

/// A moment in time: an instant, and the calendar year and month as which
/// that instant reads at the offset it was recorded with. `new` reads them
/// from the calendar; `from_calendar` takes the reading as it is given.
///
/// Timestamps are ordered by instant alone; the offset only decides how the
/// instant reads as a date.
#[derive(Clone, Copy, Debug, PartialEq, Eq, Structural)]
pub struct Timestamp {
    unix_nanos: i128,
    offset_seconds: i32,
    year: i32,
    month: u8,
}

impl Timestamp {
    /// The instant, in nanoseconds since the Unix epoch.
    pub closed spec fn instant(self) -> int {
        self.unix_nanos as int
    }

    /// The offset from UTC, in seconds, at which the date is read.
    pub closed spec fn offset(self) -> int {
        self.offset_seconds as int
    }

    /// The calendar year.
    pub closed spec fn spec_year(self) -> int {
        self.year as int
    }

    /// The calendar month, 1 to 12.
    pub closed spec fn spec_month(self) -> int {
        self.month as int
    }

    /// The month is one of the twelve.
    #[verifier::type_invariant]
    spec fn month_in_year(self) -> bool {
        1 <= self.month <= 12
    }

    /// The timestamp of the instant `unix_nanos` at `offset_seconds` east of
    /// UTC that reads as month `month` of `year`; `None` where `month` is not
    /// one of the twelve.
    pub fn from_calendar(unix_nanos: i128, offset_seconds: i32, year: i32, month: u8) -> (made:
        Option<Timestamp>)
        ensures
            made is Some <==> 1 <= month <= 12,
            made matches Some(t) ==> {
                &&& t.instant() == unix_nanos
                &&& t.offset() == offset_seconds
                &&& t.spec_year() == year
                &&& t.spec_month() == month
            },
    {
        if 1 <= month && month <= 12 {
            Some(Timestamp { unix_nanos, offset_seconds, year, month })
        } else {
            None
        }
    }

    /// The timestamp of the instant `unix_nanos` read at `offset_seconds` east
    /// of UTC, or `None` where the calendar has no such date.
    pub fn new(unix_nanos: i128, offset_seconds: i32) -> (made: Option<Timestamp>)
        ensures
            made is Some <==> calendar_year(unix_nanos as int, offset_seconds as int) is Some
                && calendar_month(unix_nanos as int, offset_seconds as int) is Some,
            made matches Some(t) ==> {
                &&& t.instant() == unix_nanos
                &&& t.offset() == offset_seconds
                &&& Some(t.spec_year()) == calendar_year(unix_nanos as int, offset_seconds as int)
                &&& Some(t.spec_month()) == calendar_month(unix_nanos as int, offset_seconds as int)
            },
    {
        match (year_at(unix_nanos, offset_seconds), month_at(unix_nanos, offset_seconds)) {
            (Some(year), Some(month)) => {
                Timestamp::from_calendar(unix_nanos, offset_seconds, year, month)
            },
            _ => None,
        }
    }

    /// The instant, in nanoseconds since the Unix epoch.
    pub fn unix_nanos(&self) -> (nanos: i128)
        ensures
            nanos == self.instant(),
    {
        self.unix_nanos
    }

    /// The offset from UTC, in seconds.
    pub fn offset_seconds(&self) -> (seconds: i32)
        ensures
            seconds == self.offset(),
    {
        self.offset_seconds
    }

    /// The calendar year.
    pub fn year(&self) -> (year: i32)
        ensures
            year == self.spec_year(),
    {
        self.year
    }

    /// The calendar month, 1 to 12.
    pub fn month(&self) -> (month: u8)
        ensures
            month == self.spec_month(),
            1 <= month <= 12,
    {
        proof {
            use_type_invariant(self);
        }
        self.month
    }

    /// Whether this moment comes strictly before `other`.
    pub fn is_before(&self, other: &Timestamp) -> (before: bool)
        ensures
            before == (self.instant() < other.instant()),
    {
        self.unix_nanos < other.unix_nanos
    }
}

} // verus!

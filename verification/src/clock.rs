//! Points in time on the UTC scale, with the calendar of `chrono`.

use vstd::prelude::*;

verus! {

/// The last second that the calendar reaches, counted from 1970-01-01T00:00:00Z.
pub const LAST_SECOND: i64 = 8_210_266_876_799;

/// The first second that the calendar reaches.
pub const FIRST_SECOND: i64 = -8_334_601_228_800;

/// 0000-01-01T00:00:00Z, the first second with a year of four digits.
pub const FIRST_FOUR_DIGIT_SECOND: i64 = -62_167_219_200;

/// 9999-12-31T23:59:59Z, the last second with a year of four digits.
pub const LAST_FOUR_DIGIT_SECOND: i64 = 253_402_300_799;

/// A point in time: whole seconds since 1970-01-01T00:00:00Z and the nanoseconds after them. In a
/// leap second the nanoseconds run on past 1,000,000,000.
#[derive(Clone, Copy, Debug, PartialEq, Eq, Structural)]
pub struct Moment {
    pub seconds: i64,
    pub nanos: u32,
}

impl Moment {
    /// The calendar has this point.
    pub open spec fn is_valid(self) -> bool {
        &&& FIRST_SECOND <= self.seconds <= LAST_SECOND
        &&& self.nanos < 1_000_000_000 || (self.nanos < 2_000_000_000 && self.seconds % 60 == 59)
    }

    /// Strictly later than `other`.
    pub open spec fn is_after(self, other: Moment) -> bool {
        self.seconds > other.seconds || (self.seconds == other.seconds && self.nanos > other.nanos)
    }

    /// Whether this point is strictly later than `other`.
    pub fn after(self, other: Moment) -> (r: bool)
        ensures
            r == self.is_after(other),
    {
        self.seconds > other.seconds || (self.seconds == other.seconds && self.nanos > other.nanos)
    }

    /// The point `seconds` later. Any step out of a leap second leaves it behind.
    pub open spec fn plus(self, seconds: int) -> Moment {
        Moment {
            seconds: (self.seconds + seconds) as i64,
            nanos: if seconds > 0 && self.nanos >= 1_000_000_000 {
                (self.nanos - 1_000_000_000) as u32
            } else {
                self.nanos
            },
        }
    }

    /// The point with its fraction cut to whole microseconds.
    pub open spec fn to_micros(self) -> Moment {
        Moment { seconds: self.seconds, nanos: (self.nanos - self.nanos % 1000) as u32 }
    }
}

/// Adds whole seconds with `chrono`'s `DateTime + TimeDelta`. Claimed: the count of seconds grows
/// by that much; the fraction stays, and a step out of a leap second drops its extra second. The
/// outside addition panics beyond the calendar, so the sum has to stay within it.
#[verifier::external_body]
pub(crate) fn add_seconds(at: Moment, seconds: u32) -> (later: Moment)
    requires
        at.is_valid(),
        at.seconds + seconds <= LAST_SECOND,
    ensures
        later == at.plus(seconds as int),
{
    let start = chrono::DateTime::from_timestamp(at.seconds, at.nanos).expect("the calendar has this point");
    let later = start + chrono::TimeDelta::seconds(i64::from(seconds));
    Moment { seconds: later.timestamp(), nanos: later.timestamp_subsec_nanos() }
}

/// What `chrono::DateTime::parse_from_rfc3339` reads from this text, on the UTC scale: `None` where
/// it refuses the text.
pub uninterp spec fn rfc3339_parsed(text: Seq<char>) -> Option<Moment>;

/// What `chrono::DateTime::to_rfc3339_opts` writes for this point, with microseconds and a `Z`.
pub uninterp spec fn rfc3339_written(at: Moment) -> Seq<char>;

/// Reads a time with `chrono::DateTime::parse_from_rfc3339` and moves it to the UTC scale. Claimed:
/// the outcome depends on the text alone, and the calendar has the point.
#[verifier::external_body]
fn parse_rfc3339(text: &str) -> (r: Option<Moment>)
    ensures
        r == rfc3339_parsed(text@),
        r matches Some(at) ==> at.is_valid(),
{
    let at = chrono::DateTime::parse_from_rfc3339(text).ok()?.with_timezone(&chrono::Utc);
    Some(Moment { seconds: at.timestamp(), nanos: at.timestamp_subsec_nanos() })
}

/// Writes a time with `chrono::DateTime::to_rfc3339_opts`, six digits of the second and a `Z`.
/// Claimed: the text depends on the point alone, and for a year of four digits reading it gives the
/// point back, cut to microseconds. The reader takes no other years.
#[verifier::external_body]
fn write_rfc3339(at: Moment) -> (text: String)
    requires
        at.is_valid(),
    ensures
        text@ == rfc3339_written(at),
        FIRST_FOUR_DIGIT_SECOND <= at.seconds <= LAST_FOUR_DIGIT_SECOND ==> rfc3339_parsed(text@) == Some(at.to_micros()),
{
    let point = chrono::DateTime::from_timestamp(at.seconds, at.nanos).expect("the calendar has this point");
    point.to_rfc3339_opts(chrono::SecondsFormat::Micros, true)
}

/// Reads an RFC 3339 time.
pub fn parse_time(value: &str) -> (r: Option<Moment>)
    ensures
        r == rfc3339_parsed(value@),
        r matches Some(at) ==> at.is_valid(),
{
    parse_rfc3339(value)
}

/// An RFC 3339 time in UTC, to the microsecond.
pub fn time_text(at: Moment) -> (text: String)
    requires
        at.is_valid(),
    ensures
        text@ == rfc3339_written(at),
        FIRST_FOUR_DIGIT_SECOND <= at.seconds <= LAST_FOUR_DIGIT_SECOND ==> rfc3339_parsed(text@) == Some(at.to_micros()),
{
    write_rfc3339(at)
}

// ------------------------------------------------------------------------------------ laws
/// One point in time is later than another by its seconds, and within a second by its nanoseconds. Seconds
/// that are added are added, and cutting to microseconds drops less than one.
pub proof fn law_points_in_time(a: Moment, b: Moment, seconds: u32)
    requires
        a.seconds + seconds <= i64::MAX,
        a.nanos < 2_000_000_000,
    ensures
        a.is_after(b) <==> a.seconds > b.seconds || (a.seconds == b.seconds && a.nanos > b.nanos),
        a.plus(seconds as int).seconds == a.seconds + seconds,
        a.nanos < 1_000_000_000 ==> a.plus(seconds as int).nanos == a.nanos,
        seconds > 0 ==> a.plus(seconds as int).nanos == a.nanos % 1_000_000_000,
        a.to_micros().seconds == a.seconds,
        a.to_micros().nanos % 1000 == 0 && a.to_micros().nanos <= a.nanos < a.to_micros().nanos + 1000,
{
}

} // verus!

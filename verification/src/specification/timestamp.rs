//! Modification timestamps of the files in a context diff.
//!
//! A timestamp is held as the UTC second, the nanosecond within that second and the
//! offset of the local time from UTC, which is what chrono gives back when it reads one.
use vstd::prelude::*;

use chrono::{DateTime, FixedOffset, NaiveDateTime, TimeZone};

verus! {

#[verifier::external_type_specification]
#[verifier::external_body]
pub struct ExChronoParseError(chrono::ParseError);

/// Whether chrono's `DateTime::from_timestamp(seconds, nanoseconds)` gives back an instant
/// (`Some`) for these values: the day of the second lies in chrono's range of dates, from
/// January 1 of the year -262143 to December 31 of the year 262142, and the nanosecond is
/// below one second, or below two seconds on the last second of a minute (a leap second).
pub open spec fn chrono_instant_exists(seconds: i64, nanoseconds: u32) -> bool {
    &&& -8_334_601_228_800 <= seconds <= 8_210_266_876_799
    &&& nanoseconds < 1_000_000_000 || (nanoseconds < 2_000_000_000 && seconds % 60 == 59)
}

/// What chrono's `DateTime::parse_from_str(text, "%Y-%m-%d %H:%M:%S%.f %z")` reads from
/// `text`: the UTC second, the nanosecond and the offset in seconds, or `None` where it
/// refuses the text.
pub uninterp spec fn chrono_gnu_reading(text: Seq<char>) -> Option<(i64, u32, i32)>;

/// What chrono's `NaiveDateTime::parse_from_str(text, "%a %b %e %H:%M:%S %Y")` reads from
/// `text`, taken as a UTC time: the UTC second and the nanosecond, or `None` where it
/// refuses the text.
pub uninterp spec fn chrono_posix_reading(text: Seq<char>) -> Option<(i64, u32)>;

/// The text that chrono's `format("%Y-%m-%d %H:%M:%S%.f %z")` writes for the instant
/// given by its UTC second and nanosecond, shown at the given offset.
pub uninterp spec fn chrono_gnu_text(seconds: i64, nanoseconds: u32, offset_seconds: i32) -> Seq<
    char,
>;

/// The offsets that chrono's `FixedOffset::east_opt` accepts.
pub open spec fn valid_offset(offset_seconds: int) -> bool {
    -86_400 < offset_seconds < 86_400
}

/// Calls chrono's `DateTime::from_timestamp`. Its documentation says that it returns `None`
/// only on an out-of-range second or an invalid nanosecond, and that it round-trips with
/// `timestamp` and `timestamp_subsec_nanos`: the contract claims that a result, where there
/// is one, holds the values that were given.
#[verifier::external_body]
fn chrono_from_timestamp(seconds: i64, nanoseconds: u32) -> (r: Option<(i64, u32)>)
    ensures
        r is Some <==> chrono_instant_exists(seconds, nanoseconds),
        r matches Some(p) ==> p == (seconds, nanoseconds),
{
    DateTime::from_timestamp(seconds, nanoseconds).map(|d| (d.timestamp(), d.timestamp_subsec_nanos()))
}

/// Calls chrono's `DateTime::parse_from_str` with the GNU format. The contract claims that
/// chrono's answer is a function of the text (named by `chrono_gnu_reading`), that the instant
/// it gives can be rebuilt by `DateTime::from_timestamp` (documented round trip) and that its
/// offset lies in the range of `FixedOffset`. Which `ParseError` comes back is left unsaid.
#[verifier::external_body]
fn chrono_parse_gnu(text: &str) -> (r: Result<(i64, u32, i32), chrono::ParseError>)
    ensures
        r is Ok <==> chrono_gnu_reading(text@) is Some,
        r matches Ok(p) ==> chrono_gnu_reading(text@) == Some(p),
        r matches Ok(p) ==> chrono_instant_exists(p.0, p.1) && valid_offset(p.2 as int),
{
    DateTime::parse_from_str(text, "%Y-%m-%d %H:%M:%S%.f %z").map(
        |d| (d.timestamp(), d.timestamp_subsec_nanos(), d.offset().local_minus_utc()),
    )
}

/// Calls chrono's `NaiveDateTime::parse_from_str` with the POSIX format and places the
/// result at UTC with `FixedOffset::from_utc_datetime`. The contract claims that chrono's
/// answer is a function of the text (named by `chrono_posix_reading`) and that the instant it
/// gives can be rebuilt by `DateTime::from_timestamp`. Which `ParseError` comes back is left
/// unsaid.
#[verifier::external_body]
fn chrono_parse_posix(text: &str) -> (r: Result<(i64, u32), chrono::ParseError>)
    ensures
        r is Ok <==> chrono_posix_reading(text@) is Some,
        r matches Ok(p) ==> chrono_posix_reading(text@) == Some(p),
        r matches Ok(p) ==> chrono_instant_exists(p.0, p.1),
{
    NaiveDateTime::parse_from_str(text, "%a %b %e %H:%M:%S %Y").map(|n| {
        let d = FixedOffset::east_opt(0).unwrap().from_utc_datetime(&n);
        (d.timestamp(), d.timestamp_subsec_nanos())
    })
}

/// Calls chrono's `format` with the GNU format on the instant rebuilt from its parts. The
/// contract claims that the text is a function of the parts (named by `chrono_gnu_text`).
#[verifier::external_body]
fn chrono_format_gnu(seconds: i64, nanoseconds: u32, offset_seconds: i32) -> (r: String)
    requires
        chrono_instant_exists(seconds, nanoseconds),
        valid_offset(offset_seconds as int),
    ensures
        r@ == chrono_gnu_text(seconds, nanoseconds, offset_seconds),
{
    let offset = FixedOffset::east_opt(offset_seconds).unwrap();
    let instant = DateTime::from_timestamp(seconds, nanoseconds).unwrap();
    instant.with_timezone(&offset).format("%Y-%m-%d %H:%M:%S%.f %z").to_string()
}

/// Represents a timestamp in a context diff file.
///
/// Two timestamps are equal when they name the same instant, whatever their offsets.
#[derive(Clone, Copy, Debug)]
pub struct Timestamp {
    seconds: i64,
    nanoseconds: u32,
    offset_seconds: i32,
}

/// The errors that could occur during parsing of timestamps.
#[derive(Debug)]
pub enum TimestampParseError {
    TimestampIsEmpty,
    ChronoParseError(chrono::ParseError),
}

/// The error of a timestamp that could not be read, without chrono's own report.
pub enum TimestampFailure {
    Empty,
    Rejected,
}

impl View for TimestampParseError {
    type V = TimestampFailure;

    open spec fn view(&self) -> TimestampFailure {
        match self {
            TimestampParseError::TimestampIsEmpty => TimestampFailure::Empty,
            TimestampParseError::ChronoParseError(_) => TimestampFailure::Rejected,
        }
    }
}

/// Whether the character is an ASCII letter.
pub open spec fn is_ascii_letter(c: char) -> bool {
    ('a' <= c && c <= 'z') || ('A' <= c && c <= 'Z')
}

impl Timestamp {
    #[verifier::type_invariant]
    spec fn well_formed(self) -> bool {
        chrono_instant_exists(self.seconds, self.nanoseconds) && valid_offset(
            self.offset_seconds as int,
        )
    }

    /// The UTC second of the instant.
    pub closed spec fn utc_seconds(self) -> i64 {
        self.seconds
    }

    /// The nanosecond within the second of the instant.
    pub closed spec fn subsec_nanos(self) -> u32 {
        self.nanoseconds
    }

    /// The offset of the local time from UTC, in seconds.
    pub closed spec fn offset(self) -> i32 {
        self.offset_seconds
    }

    /// The timestamp with the given parts.
    pub closed spec fn from_parts(seconds: i64, nanoseconds: u32, offset_seconds: i32) -> Timestamp {
        Timestamp { seconds, nanoseconds, offset_seconds }
    }

    /// The text of the timestamp in GNU format.
    pub closed spec fn gnu_text(self) -> Seq<char> {
        chrono_gnu_text(self.seconds, self.nanoseconds, self.offset_seconds)
    }

    /// The timestamp that the text denotes, or why there is none: an empty text is refused,
    /// a text that starts with an ASCII letter is read in POSIX format at UTC, any other in
    /// GNU format.
    pub open spec fn spec_from_text(text: Seq<char>) -> Result<Timestamp, TimestampFailure> {
        if text.len() == 0 {
            Err(TimestampFailure::Empty)
        } else if is_ascii_letter(text[0]) {
            match chrono_posix_reading(text) {
                Some(p) => Ok(Timestamp::from_parts(p.0, p.1, 0)),
                None => Err(TimestampFailure::Rejected),
            }
        } else {
            match chrono_gnu_reading(text) {
                Some(p) => Ok(Timestamp::from_parts(p.0, p.1, p.2)),
                None => Err(TimestampFailure::Rejected),
            }
        }
    }

    /// A timestamp text names the instant that chrono reads from it, at the offset chrono
    /// reads: a text that does not start with an ASCII letter is read in GNU format, and the
    /// timestamp has chrono's UTC second, nanosecond and offset; one that starts with a letter
    /// is read in POSIX format at UTC (offset 0); an empty text, or one chrono refuses, gives
    /// no timestamp. A GNU timestamp is written back as chrono writes that instant at that
    /// offset.
    pub proof fn lemma_text_names_chrono_instant(text: Seq<char>)
        ensures
            text.len() == 0 ==> Timestamp::spec_from_text(text) == Err::<
                Timestamp,
                TimestampFailure,
            >(TimestampFailure::Empty),
            text.len() > 0 && !is_ascii_letter(text[0]) ==> match chrono_gnu_reading(text) {
                Some(p) => Timestamp::spec_from_text(text) matches Ok(t) && t.utc_seconds() == p.0
                    && t.subsec_nanos() == p.1 && t.offset() == p.2 && t.gnu_text()
                    == chrono_gnu_text(p.0, p.1, p.2),
                None => Timestamp::spec_from_text(text) == Err::<Timestamp, TimestampFailure>(
                    TimestampFailure::Rejected,
                ),
            },
            text.len() > 0 && is_ascii_letter(text[0]) ==> match chrono_posix_reading(text) {
                Some(p) => Timestamp::spec_from_text(text) matches Ok(t) && t.utc_seconds() == p.0
                    && t.subsec_nanos() == p.1 && t.offset() == 0,
                None => Timestamp::spec_from_text(text) == Err::<Timestamp, TimestampFailure>(
                    TimestampFailure::Rejected,
                ),
            },
    {
    }

    /// Parses a context diff timestamp from a string.
    /// Expects either the GNU format or the traditional POSIX format:
    /// GNU: 2002-02-21 23:30:39.942229878 -0800 (Note that the fractional second part can be omitted)
    /// POSIX: Thu Feb 21 23:30:39 2002
    pub fn from_str(s: &str) -> (r: Result<Timestamp, TimestampParseError>)
        ensures
            match r {
                Ok(t) => Timestamp::spec_from_text(s@) == Ok::<Timestamp, TimestampFailure>(t),
                Err(e) => Timestamp::spec_from_text(s@) == Err::<Timestamp, TimestampFailure>(e@),
            },
    {
        if s.is_empty() {
            return Err(TimestampParseError::TimestampIsEmpty);
        }
        let first = s.get_char(0);
        if ('a' <= first && first <= 'z') || ('A' <= first && first <= 'Z') {
            match chrono_parse_posix(s) {
                Ok(p) => Ok(Timestamp { seconds: p.0, nanoseconds: p.1, offset_seconds: 0 }),
                Err(e) => Err(TimestampParseError::ChronoParseError(e)),
            }
        } else {
            match chrono_parse_gnu(s) {
                Ok(p) => Ok(Timestamp { seconds: p.0, nanoseconds: p.1, offset_seconds: p.2 }),
                Err(e) => Err(TimestampParseError::ChronoParseError(e)),
            }
        }
    }

    /// The timestamp at UTC of the given UNIX second and nanosecond, where chrono can
    /// represent that instant.
    pub fn from_unix(seconds: i64, nanoseconds: u32) -> (r: Option<Timestamp>)
        ensures
            r is Some <==> chrono_instant_exists(seconds, nanoseconds),
            r matches Some(t) ==> t == Timestamp::from_parts(seconds, nanoseconds, 0),
    {
        match chrono_from_timestamp(seconds, nanoseconds) {
            Some(p) => Some(Timestamp { seconds: p.0, nanoseconds: p.1, offset_seconds: 0 }),
            None => None,
        }
    }

    /// Formats a context diff timestamp as string in GNU format (2002-02-21 23:30:39.942229878 -0800).
    pub fn to_string(&self) -> (r: String)
        ensures
            r@ == self.gnu_text(),
    {
        proof {
            use_type_invariant(self);
        }
        chrono_format_gnu(self.seconds, self.nanoseconds, self.offset_seconds)
    }

    /// Whether two timestamps name the same instant.
    pub open spec fn same_instant(self, other: Timestamp) -> bool {
        self.utc_seconds() == other.utc_seconds() && self.subsec_nanos() == other.subsec_nanos()
    }
}

impl PartialEq for Timestamp {
    fn eq(&self, other: &Timestamp) -> (r: bool) {
        self.seconds == other.seconds && self.nanoseconds == other.nanoseconds
    }
}

impl vstd::std_specs::cmp::PartialEqSpecImpl for Timestamp {
    open spec fn obeys_eq_spec() -> bool {
        true
    }

    open spec fn eq_spec(&self, other: &Timestamp) -> bool {
        self.same_instant(*other)
    }
}

impl Eq for Timestamp {

}

impl std::str::FromStr for Timestamp {
    type Err = TimestampParseError;

    fn from_str(s: &str) -> (r: Result<Self, Self::Err>)
        ensures
            match r {
                Ok(t) => Timestamp::spec_from_text(s@) == Ok::<Timestamp, TimestampFailure>(t),
                Err(e) => Timestamp::spec_from_text(s@) == Err::<Timestamp, TimestampFailure>(e@),
            },
    {
        Timestamp::from_str(s)
    }
}

} // verus!

//! Instants in Coordinated Universal Time.
use chrono::{DateTime, FixedOffset, SecondsFormat, Utc};
use vstd::prelude::*;

verus! {

/// The first second that an instant can lie in, counted from 1970.
pub const FIRST_SECOND: i64 = -8_334_601_228_800;

/// The last second that an instant can lie in, counted from 1970.
pub const LAST_SECOND: i64 = 8_210_266_876_799;

/// The number of nanoseconds in a second.
pub const NANOS_PER_SECOND: u32 = 1_000_000_000;

/// Whether a count of seconds from 1970 and of nanoseconds within the second
/// give an instant. A second that ends a minute may be followed by a leap
/// second, whose nanoseconds count on from it.
pub open spec fn is_instant(seconds: int, nanos: int) -> bool {
    &&& FIRST_SECOND <= seconds <= LAST_SECOND
    &&& 0 <= nanos < 2 * NANOS_PER_SECOND
    &&& nanos >= NANOS_PER_SECOND ==> seconds % 60 == 59
}

/// An instant in Coordinated Universal Time.
#[derive(Clone, Copy, PartialEq, Eq, Structural, Debug)]
pub struct Timestamp {
    seconds: i64,
    nanos: u32,
}

/// The instant that an RFC 3339 text gives, as seconds from 1970 and nanoseconds.
pub uninterp spec fn rfc3339_instant(text: Seq<char>) -> Option<(int, int)>;

/// The RFC 3339 text of an instant, to the millisecond.
pub uninterp spec fn rfc3339_text(seconds: int, nanos: int) -> Seq<char>;

/// The whole milliseconds from one instant to another.
pub uninterp spec fn elapsed(
    from_seconds: int,
    from_nanos: int,
    to_seconds: int,
    to_nanos: int,
) -> int;

/// Integer division that rounds towards zero.
pub open spec fn truncated(number: int, divisor: int) -> int {
    if number < 0 {
        -((-number) / divisor)
    } else {
        number / divisor
    }
}

/// `DateTime::parse_from_rfc3339`: the instant that an RFC 3339 text gives, or
/// nothing where the text is none. What a text gives is left to the name; an
/// instant of the crate is always one in the sense of `is_instant`.
#[verifier::external_body]
fn parse_rfc3339(text: &str) -> (result: Option<(i64, u32)>)
    ensures
        match result {
            Some((seconds, nanos)) => {
                &&& rfc3339_instant(text@) == Some((seconds as int, nanos as int))
                &&& is_instant(seconds as int, nanos as int)
            },
            None => rfc3339_instant(text@) is None,
        },
{
    match DateTime::parse_from_rfc3339(text) {
        Ok(instant) => Some((instant.timestamp(), instant.timestamp_subsec_nanos())),
        Err(_) => None,
    }
}

/// `DateTime::to_rfc3339_opts` with milliseconds and a final `Z`: the text of an
/// instant, under the name.
#[verifier::external_body]
fn format_rfc3339(seconds: i64, nanos: u32) -> (result: String)
    requires
        is_instant(seconds as int, nanos as int),
    ensures
        result@ == rfc3339_text(seconds as int, nanos as int),
{
    DateTime::from_timestamp(seconds, nanos).unwrap().to_rfc3339_opts(SecondsFormat::Millis, true)
}

/// `DateTime::signed_duration_since` and `TimeDelta::num_milliseconds`: the whole
/// milliseconds from one instant to another, rounded towards zero. Outside of
/// leap seconds this is the difference of the two counts of nanoseconds; what a
/// leap second adds is left to the name.
#[verifier::external_body]
fn milliseconds_between(
    from_seconds: i64,
    from_nanos: u32,
    to_seconds: i64,
    to_nanos: u32,
) -> (result: i64)
    requires
        is_instant(from_seconds as int, from_nanos as int),
        is_instant(to_seconds as int, to_nanos as int),
    ensures
        result == elapsed(
            from_seconds as int,
            from_nanos as int,
            to_seconds as int,
            to_nanos as int,
        ),
        from_nanos < NANOS_PER_SECOND && to_nanos < NANOS_PER_SECOND ==> result == truncated(
            (to_seconds - from_seconds) * NANOS_PER_SECOND + to_nanos - from_nanos,
            1_000_000,
        ),
{
    let from = DateTime::from_timestamp(from_seconds, from_nanos).unwrap();
    let to = DateTime::from_timestamp(to_seconds, to_nanos).unwrap();
    to.signed_duration_since(from).num_milliseconds()
}

/// The text of an instant in a format, in Coordinated Universal Time; nothing where
/// the format is none.
pub uninterp spec fn utc_text(seconds: int, nanos: int, format: Seq<char>) -> Option<Seq<char>>;

/// `DateTime::<Utc>::format`: the text of an instant in a format, under the name. An
/// instant can be written in any format that is one.
#[verifier::external_body]
fn write_utc(seconds: i64, nanos: u32, format: &str) -> (result: Option<String>)
    requires
        is_instant(seconds as int, nanos as int),
    ensures
        match result {
            Some(text) => utc_text(seconds as int, nanos as int, format@) == Some(text@),
            None => utc_text(seconds as int, nanos as int, format@) is None,
        },
{
    let mut text = String::new();
    let instant = DateTime::from_timestamp(seconds, nanos).unwrap();
    match instant.format(format).write_to(&mut text) {
        Ok(()) => Some(text),
        Err(_) => None,
    }
}

/// The text of an instant in a format, some seconds east of Coordinated Universal
/// Time; nothing where the format is none.
pub uninterp spec fn zoned_text(
    seconds: int,
    nanos: int,
    offset: int,
    format: Seq<char>,
) -> Option<Seq<char>>;

/// Whether a number of seconds can lie between a local time and Coordinated Universal
/// Time: less than a day.
pub open spec fn is_offset(offset: int) -> bool {
    -86_400 < offset < 86_400
}

/// `DateTime::<FixedOffset>::format`: the text of an instant in a format, at an offset
/// from Coordinated Universal Time, under the name.
#[verifier::external_body]
fn write_zoned(seconds: i64, nanos: u32, offset: i32, format: &str) -> (result: Option<String>)
    requires
        is_instant(seconds as int, nanos as int),
        is_offset(offset as int),
    ensures
        match result {
            Some(text) => zoned_text(seconds as int, nanos as int, offset as int, format@) == Some(
                text@,
            ),
            None => zoned_text(seconds as int, nanos as int, offset as int, format@) is None,
        },
{
    let mut text = String::new();
    let zone = FixedOffset::east_opt(offset).unwrap();
    let instant = DateTime::from_timestamp(seconds, nanos).unwrap().with_timezone(&zone);
    match instant.format(format).write_to(&mut text) {
        Ok(()) => Some(text),
        Err(_) => None,
    }
}

/// `Utc::now`: the current instant. Nothing is promised of it but that it is an
/// instant outside of a leap second.
#[verifier::external_body]
fn current_instant() -> (result: (i64, u32))
    ensures
        is_instant(result.0 as int, result.1 as int),
        result.1 < NANOS_PER_SECOND,
{
    let now = Utc::now();
    (now.timestamp(), now.timestamp_subsec_nanos())
}

impl Timestamp {
    /// The seconds since 1970.
    pub closed spec fn seconds(self) -> int {
        self.seconds as int
    }

    /// The nanoseconds within the second.
    pub closed spec fn nanos(self) -> int {
        self.nanos as int
    }

    #[verifier::type_invariant]
    spec fn valid(self) -> bool {
        is_instant(self.seconds as int, self.nanos as int)
    }

    /// The milliseconds since 1970.
    pub open spec fn millis(self) -> int {
        self.seconds() * 1000 + self.nanos() / 1_000_000
    }

    /// Whether an instant lies before another.
    pub open spec fn before(self, other: Self) -> bool {
        self.seconds() < other.seconds() || (self.seconds() == other.seconds() && self.nanos()
            < other.nanos())
    }

    /// An instant from its seconds since 1970 and its nanoseconds.
    pub fn from_parts(seconds: i64, nanos: u32) -> (result: Option<Self>)
        ensures
            match result {
                Some(instant) => {
                    &&& is_instant(seconds as int, nanos as int)
                    &&& instant.seconds() == seconds
                    &&& instant.nanos() == nanos
                },
                None => !is_instant(seconds as int, nanos as int),
            },
    {
        if seconds < FIRST_SECOND || seconds > LAST_SECOND || nanos >= 2 * NANOS_PER_SECOND {
            return None;
        }
        // From the first second of all, the count of seconds is not negative.
        let offset: i64 = seconds - FIRST_SECOND;
        assert(offset % 60 == seconds % 60) by (nonlinear_arith)
            requires
                offset == seconds + 138_910_020_480 * 60,
                offset >= 0,
        ;
        if nanos >= NANOS_PER_SECOND && offset % 60 != 59 {
            return None;
        }
        Some(Timestamp { seconds, nanos })
    }

    /// An instant from its milliseconds since 1970, where it can be represented.
    pub fn from_millis(milliseconds: i64) -> (result: Option<Self>)
        ensures
            match result {
                Some(instant) => {
                    &&& FIRST_SECOND <= milliseconds as int / 1000 <= LAST_SECOND
                    &&& instant.seconds() == milliseconds as int / 1000
                    &&& instant.nanos() == (milliseconds as int % 1000) * 1_000_000
                    &&& instant.millis() == milliseconds
                },
                None => !(FIRST_SECOND <= milliseconds as int / 1000 <= LAST_SECOND),
            },
    {
        let (seconds, rest): (i64, i64) = if milliseconds >= 0 {
            (milliseconds / 1000, milliseconds % 1000)
        } else {
            let whole: i128 = -(milliseconds as i128);
            let up: i128 = (whole + 999) / 1000;
            ((-up) as i64, (up * 1000 - whole) as i64)
        };
        if seconds < FIRST_SECOND || seconds > LAST_SECOND {
            return None;
        }
        Some(Timestamp { seconds, nanos: rest as u32 * 1_000_000 })
    }

    /// The instant that an RFC 3339 text gives.
    pub fn from_rfc3339(text: &str) -> (result: Option<Self>)
        ensures
            match result {
                Some(instant) => rfc3339_instant(text@) == Some(
                    (instant.seconds(), instant.nanos()),
                ),
                None => rfc3339_instant(text@) is None,
            },
    {
        match parse_rfc3339(text) {
            Some((seconds, nanos)) => Some(Timestamp { seconds, nanos }),
            None => None,
        }
    }

    /// The RFC 3339 text of the instant, to the millisecond.
    pub fn to_rfc3339(self) -> (result: String)
        ensures
            result@ == rfc3339_text(self.seconds(), self.nanos()),
    {
        proof {
            use_type_invariant(&self);
        }
        format_rfc3339(self.seconds, self.nanos)
    }

    /// The text of the instant in a format, in Coordinated Universal Time.
    pub fn format_utc(self, format: &str) -> (text: Option<String>)
        ensures
            match text {
                Some(text) => utc_text(self.seconds(), self.nanos(), format@) == Some(text@),
                None => utc_text(self.seconds(), self.nanos(), format@) is None,
            },
    {
        proof {
            use_type_invariant(&self);
        }
        write_utc(self.seconds, self.nanos, format)
    }

    /// The text of the instant in a format, some seconds east of Coordinated
    /// Universal Time.
    pub fn format_zoned(self, offset: i32, format: &str) -> (text: Option<String>)
        requires
            is_offset(offset as int),
        ensures
            match text {
                Some(text) => zoned_text(self.seconds(), self.nanos(), offset as int, format@)
                    == Some(text@),
                None => zoned_text(self.seconds(), self.nanos(), offset as int, format@) is None,
            },
    {
        proof {
            use_type_invariant(&self);
        }
        write_zoned(self.seconds, self.nanos, offset, format)
    }

    /// The current instant, to the millisecond.
    pub fn now() -> (result: Self)
        ensures
            result.nanos() < NANOS_PER_SECOND,
            result.nanos() % 1_000_000 == 0,
    {
        let (seconds, nanos) = current_instant();
        Timestamp { seconds, nanos: nanos / 1_000_000 * 1_000_000 }
    }

    /// The current instant, as exact as the clock gives it.
    pub fn precise_now() -> (result: Self)
        ensures
            result.nanos() < NANOS_PER_SECOND,
    {
        let (seconds, nanos) = current_instant();
        Timestamp { seconds, nanos }
    }

    /// The seconds since 1970 and the nanoseconds within the second.
    pub fn parts(self) -> (result: (i64, u32))
        ensures
            result.0 == self.seconds(),
            result.1 == self.nanos(),
            is_instant(self.seconds(), self.nanos()),
    {
        proof {
            use_type_invariant(&self);
        }
        (self.seconds, self.nanos)
    }

    /// The milliseconds since 1970.
    pub fn timestamp_millis(self) -> (result: i64)
        ensures
            result == self.millis(),
    {
        proof {
            use_type_invariant(&self);
        }
        self.seconds * 1000 + (self.nanos / 1_000_000) as i64
    }

    /// Whether an instant lies before another.
    pub fn is_before(self, other: Self) -> (result: bool)
        ensures
            result == self.before(other),
    {
        self.seconds < other.seconds || (self.seconds == other.seconds && self.nanos < other.nanos)
    }

    /// The whole milliseconds from an earlier instant to this one.
    pub fn milliseconds_since(self, earlier: Self) -> (result: i64)
        ensures
            result == elapsed(
                earlier.seconds(),
                earlier.nanos(),
                self.seconds(),
                self.nanos(),
            ),
            earlier.nanos() < NANOS_PER_SECOND && self.nanos() < NANOS_PER_SECOND ==> result
                == truncated(
                (self.seconds() - earlier.seconds()) * NANOS_PER_SECOND + self.nanos()
                    - earlier.nanos(),
                1_000_000,
            ),
    {
        proof {
            use_type_invariant(&self);
            use_type_invariant(&earlier);
        }
        milliseconds_between(earlier.seconds, earlier.nanos, self.seconds, self.nanos)
    }
}

}

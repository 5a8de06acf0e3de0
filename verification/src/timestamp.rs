//! Instants on the UTC time line.

use vstd::arithmetic::div_mod::lemma_fundamental_div_mod;
use vstd::prelude::*;

verus! {

/// The first second that an instant can have: the start of the year -262143.
pub const FIRST_SECOND: i64 = -8_334_601_228_800;

/// The last second that an instant can have: the end of the year 262142.
pub const LAST_SECOND: i64 = 8_210_266_876_799;

/// A pair of seconds since 1970 and nanoseconds names an instant. Nanoseconds beyond one second
/// write a leap second, which follows the last second of a minute only.
pub open spec fn is_instant(seconds: int, nanos: int) -> bool {
    &&& FIRST_SECOND <= seconds <= LAST_SECOND
    &&& 0 <= nanos
    &&& nanos < 1_000_000_000 || (nanos < 2_000_000_000 && seconds % 60 == 59)
}

/// The nanoseconds from one instant to another. Two readings within one day count a leap second
/// that lies between them.
pub open spec fn nanos_from(earlier: (i64, u32), later: (i64, u32)) -> int {
    let clock = later.0 as int % 86_400;
    let earlier_clock = earlier.0 as int % 86_400;
    let leap: int = if clock > earlier_clock && earlier.1 >= 1_000_000_000 {
        1
    } else if clock < earlier_clock && later.1 >= 1_000_000_000 {
        -1
    } else {
        0
    };
    (later.0 - earlier.0 + leap) * 1_000_000_000 + later.1 - earlier.1
}

/// Division that drops the fraction.
pub open spec fn truncated(value: int, unit: int) -> int {
    if value >= 0 {
        value / unit
    } else {
        -((-value) / unit)
    }
}

/// Whether `chrono::DateTime::from_timestamp` has an instant for the pair.
#[verifier::external_body]
fn has_instant(seconds: i64, nanos: u32) -> (found: bool)
    ensures
        found == is_instant(seconds as int, nanos as int),
{
    chrono::DateTime::from_timestamp(seconds, nanos).is_some()
}

/// `num_seconds` of `chrono::DateTime::signed_duration_since`: the difference in whole seconds,
/// the fraction dropped.
#[verifier::external_body]
fn whole_seconds(earlier: (i64, u32), later: (i64, u32)) -> (seconds: i64)
    requires
        is_instant(earlier.0 as int, earlier.1 as int),
        is_instant(later.0 as int, later.1 as int),
    ensures
        seconds == truncated(nanos_from(earlier, later), 1_000_000_000),
{
    let from = chrono::DateTime::from_timestamp(earlier.0, earlier.1).unwrap();
    let to = chrono::DateTime::from_timestamp(later.0, later.1).unwrap();
    to.signed_duration_since(from).num_seconds()
}

/// `num_milliseconds` of `chrono::DateTime::signed_duration_since`: the difference in whole
/// milliseconds, the fraction dropped.
#[verifier::external_body]
fn whole_milliseconds(earlier: (i64, u32), later: (i64, u32)) -> (milliseconds: i64)
    requires
        is_instant(earlier.0 as int, earlier.1 as int),
        is_instant(later.0 as int, later.1 as int),
    ensures
        milliseconds == truncated(nanos_from(earlier, later), 1_000_000),
{
    let from = chrono::DateTime::from_timestamp(earlier.0, earlier.1).unwrap();
    let to = chrono::DateTime::from_timestamp(later.0, later.1).unwrap();
    to.signed_duration_since(from).num_milliseconds()
}

/// The seconds since 1970 and the nanoseconds of the instant that an RFC 3339 text writes.
pub uninterp spec fn rfc3339_instant(text: Seq<char>) -> Option<(i64, u32)>;

/// `chrono::DateTime::parse_from_rfc3339`, read off as seconds since 1970 and nanoseconds. What
/// the grammar accepts is left to the name.
#[verifier::external_body]
fn read_rfc3339(text: &str) -> (parts: Option<(i64, u32)>)
    ensures
        parts == rfc3339_instant(text@),
{
    match chrono::DateTime::parse_from_rfc3339(text) {
        Ok(instant) => Some((instant.timestamp(), instant.timestamp_subsec_nanos())),
        Err(_) => None,
    }
}

/// An instant: seconds since the start of 1970 and nanoseconds.
#[derive(Clone, Copy, Debug, PartialEq, Eq, Hash)]
pub struct Timestamp {
    seconds: i64,
    nanos: u32,
}

impl View for Timestamp {
    type V = (i64, u32);

    closed spec fn view(&self) -> (i64, u32) {
        (self.seconds, self.nanos)
    }
}

/// The instant that a pair of seconds and nanoseconds writes.
pub open spec fn instant_of(seconds: i64, nanos: u32) -> Option<(i64, u32)> {
    if is_instant(seconds as int, nanos as int) {
        Some((seconds, nanos))
    } else {
        None
    }
}

/// One instant lies before another.
pub open spec fn earlier_than(a: (i64, u32), b: (i64, u32)) -> bool {
    a.0 < b.0 || (a.0 == b.0 && a.1 < b.1)
}

impl Timestamp {
    #[verifier::type_invariant]
    spec fn well_formed(&self) -> bool {
        is_instant(self.seconds as int, self.nanos as int)
    }

    /// The instant at the given seconds and nanoseconds, if there is one.
    pub fn new(seconds: i64, nanos: u32) -> (instant: Option<Timestamp>)
        ensures
            match instant {
                Some(t) => instant_of(seconds, nanos) == Some(t@),
                None => instant_of(seconds, nanos) is None,
            },
    {
        if has_instant(seconds, nanos) {
            Some(Timestamp { seconds, nanos })
        } else {
            None
        }
    }

    /// The seconds since 1970.
    pub fn seconds(&self) -> (seconds: i64)
        ensures
            seconds == self@.0,
            is_instant(self@.0 as int, self@.1 as int),
    {
        proof {
            use_type_invariant(self);
        }
        self.seconds
    }

    /// The nanoseconds within the second.
    pub fn nanos(&self) -> (nanos: u32)
        ensures
            nanos == self@.1,
            is_instant(self@.0 as int, self@.1 as int),
    {
        proof {
            use_type_invariant(self);
        }
        self.nanos
    }

    /// Whether two readings are the same instant.
    pub fn same(&self, other: &Timestamp) -> (result: bool)
        ensures
            result == (self@ == other@),
    {
        self.seconds == other.seconds && self.nanos == other.nanos
    }

    /// Whether the instant is `other` or lies before it.
    pub fn at_or_before(&self, other: &Timestamp) -> (result: bool)
        ensures
            result == !earlier_than(other@, self@),
    {
        self.seconds < other.seconds || (self.seconds == other.seconds && self.nanos
            <= other.nanos)
    }

    /// Whole seconds from `earlier` to this instant.
    pub fn seconds_since(&self, earlier: &Timestamp) -> (seconds: i64)
        ensures
            seconds == truncated(nanos_from(earlier@, self@), 1_000_000_000),
    {
        proof {
            use_type_invariant(self);
            use_type_invariant(earlier);
        }
        whole_seconds((earlier.seconds, earlier.nanos), (self.seconds, self.nanos))
    }

    /// Whole milliseconds from `earlier` to this instant.
    pub fn milliseconds_since(&self, earlier: &Timestamp) -> (milliseconds: i64)
        ensures
            milliseconds == truncated(nanos_from(earlier@, self@), 1_000_000),
            -20_000_000_000_000_000 < milliseconds < 20_000_000_000_000_000,
    {
        proof {
            use_type_invariant(self);
            use_type_invariant(earlier);
        }
        whole_milliseconds((earlier.seconds, earlier.nanos), (self.seconds, self.nanos))
    }

    /// Whole milliseconds since 1970.
    pub fn epoch_milliseconds(&self) -> (milliseconds: i64)
        ensures
            milliseconds == self@.0 * 1000 + self@.1 / 1_000_000,
            -10_000_000_000_000_000 < milliseconds < 10_000_000_000_000_000,
    {
        proof {
            use_type_invariant(self);
        }
        self.seconds * 1000 + (self.nanos / 1_000_000) as i64
    }

    /// Reads an RFC 3339 text.
    pub fn parse(text: &str) -> (instant: Option<Timestamp>)
        ensures
            match instant {
                Some(t) => parsed_instant(rfc3339_instant(text@)) == Some(t@),
                None => parsed_instant(rfc3339_instant(text@)) is None,
            },
    {
        match read_rfc3339(text) {
            Some((seconds, nanos)) => Timestamp::new(seconds, nanos),
            None => None,
        }
    }
}

/// What is made of a reading of an RFC 3339 text.
pub open spec fn parsed_instant(parts: Option<(i64, u32)>) -> Option<(i64, u32)> {
    match parts {
        Some((seconds, nanos)) => instant_of(seconds, nanos),
        None => None,
    }
}

/// Away from leap seconds, the distance of two instants is the difference of what they count.
pub proof fn law_distance(earlier: (i64, u32), later: (i64, u32))
    requires
        earlier.1 < 1_000_000_000,
        later.1 < 1_000_000_000,
    ensures
        nanos_from(earlier, later) == (later.0 - earlier.0) * 1_000_000_000 + later.1 - earlier.1,
        earlier_than(earlier, later) <==> nanos_from(earlier, later) > 0,
{
}

/// Whole units are as many as fit, on either side of nothing.
pub proof fn law_truncated(value: int, unit: int)
    requires
        unit > 0,
    ensures
        value >= 0 ==> truncated(value, unit) * unit <= value < (truncated(value, unit) + 1) * unit,
        value <= 0 ==> (truncated(value, unit) - 1) * unit < value <= truncated(value, unit) * unit,
{
    let size = if value >= 0 {
        value
    } else {
        -value
    };
    lemma_fundamental_div_mod(size, unit);
    let q = size / unit;
    let r = size % unit;
    assert(q * unit == unit * q && (q + 1) * unit == unit * q + unit && (-q) * unit == -(unit * q)
        && (-q - 1) * unit == -(unit * q) - unit) by (nonlinear_arith);
}

} // verus!

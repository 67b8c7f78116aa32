//! Points in time as plain values: seconds since the Unix epoch, the
//! sub-second nanoseconds and the UTC offset that was in force locally.
//!
//! Calendar days are counted in local time: a timestamp's local day is the
//! number of whole days between the epoch and its local wall-clock time.

use std::str::FromStr;
use vstd::arithmetic::div_mod::lemma_hoist_over_denominator;
use vstd::prelude::*;

verus! {

pub const SECONDS_PER_DAY: i64 = 86400;

pub const NANOS_PER_SECOND: u32 = 1_000_000_000;

/// Earliest representable second: 0001-01-02T00:00:00Z, so that local
/// time stays within the four-digit years under every offset.
pub const MIN_SECS: i64 = -62_135_510_400;

/// Latest representable second: 9999-12-30T23:59:59Z.
pub const MAX_SECS: i64 = 253_402_214_399;

/// Shift (in whole days) that makes every local second count non-negative.
const DAY_SHIFT: i64 = 800_000;

#[verifier::external_type_specification]
#[verifier::external_body]
pub struct ExChronoParseError(chrono::format::ParseError);

/// What chrono's relaxed RFC 3339 parser makes of a text: seconds since the
/// epoch, sub-second nanoseconds and UTC offset in seconds.
pub uninterp spec fn parsed_timestamp(text: Seq<char>) -> Option<(i64, u32, i32)>;

/// The text chrono writes for a date-time with a fixed UTC offset.
pub uninterp spec fn timestamp_text(secs: i64, nanos: u32, offset: i32) -> Seq<char>;

/// Relies on chrono's `FromStr for DateTime<FixedOffset>` (relaxed RFC 3339,
/// e.g. `2024-01-01 23:00:00 +01:00`): the outcome depends on the text alone.
#[verifier::external_body]
fn parse_fixed_offset(text: &str) -> (r: Result<(i64, u32, i32), chrono::format::ParseError>)
    ensures
        match r {
            Ok(p) => parsed_timestamp(text@) == Some(p),
            Err(_) => parsed_timestamp(text@) is None,
        },
{
    let dt = chrono::DateTime::<chrono::FixedOffset>::from_str(text)?;
    Ok((dt.timestamp(), dt.timestamp_subsec_nanos(), dt.offset().local_minus_utc()))
}

/// Relies on chrono's `Display for DateTime<FixedOffset>`, which writes
/// `%Y-%m-%d %H:%M:%S%.f` and the offset as `+HH:MM`, built with
/// `DateTime::from_timestamp` and `FixedOffset::east_opt` (both succeed on
/// these bounds). chrono's relaxed RFC 3339 parser reads that text back to the
/// same instant and offset when the local year has four digits, the offset is
/// whole minutes and the nanoseconds are below one second; the text holds
/// digits, `-`, `:`, `.`, `+` and spaces only.
#[verifier::external_body]
fn format_fixed_offset(secs: i64, nanos: u32, offset: i32) -> (r: String)
    requires
        (Timestamp { secs, nanos, offset }).wf(),
    ensures
        r@ == timestamp_text(secs, nanos, offset),
        parsed_timestamp(r@) == Some((secs, nanos, offset)),
        !r@.contains('\t'),
{
    let zone = chrono::FixedOffset::east_opt(offset).unwrap();
    let utc = chrono::DateTime::from_timestamp(secs, nanos).unwrap();
    utc.with_timezone(&zone).to_string()
}

/// An instant together with the UTC offset (in seconds) of the local clock.
#[derive(Clone, Copy, Debug, PartialEq, Eq, Structural)]
pub struct Timestamp {
    pub secs: i64,
    pub nanos: u32,
    pub offset: i32,
}

impl Timestamp {
    /// Nanoseconds below one second, an offset of whole minutes under one
    /// day, and a second within the representable range.
    pub open spec fn wf(self) -> bool {
        &&& self.nanos < NANOS_PER_SECOND
        &&& -SECONDS_PER_DAY < self.offset < SECONDS_PER_DAY
        &&& self.offset % 60 == 0
        &&& MIN_SECS <= self.secs <= MAX_SECS
    }

    /// Nanoseconds since the Unix epoch.
    pub open spec fn instant(self) -> int {
        self.secs * NANOS_PER_SECOND + self.nanos
    }

    /// The day number of this instant on a clock with the given offset.
    pub open spec fn day_in(self, offset: int) -> int {
        (self.secs + offset) / (SECONDS_PER_DAY as int)
    }

    /// The day number of this instant on its own local clock.
    pub open spec fn local_day(self) -> int {
        self.day_in(self.offset as int)
    }

    /// The first instant of the local day after this one, at this offset.
    pub open spec fn next_midnight_spec(self) -> Timestamp {
        Timestamp {
            secs: ((self.local_day() + 1) * SECONDS_PER_DAY - self.offset) as i64,
            nanos: 0,
            offset: self.offset,
        }
    }

    /// The last nanosecond before this instant, at the same offset.
    pub open spec fn prev_nano_spec(self) -> Timestamp {
        if self.nanos == 0 {
            Timestamp { secs: (self.secs - 1) as i64, nanos: (NANOS_PER_SECOND - 1) as u32, offset: self.offset }
        } else {
            Timestamp { secs: self.secs, nanos: (self.nanos - 1) as u32, offset: self.offset }
        }
    }

    /// Builds a timestamp from its parts, if they are in range.
    pub fn from_parts(secs: i64, nanos: u32, offset: i32) -> (r: Option<Timestamp>)
        ensures
            r is Some <==> (Timestamp { secs, nanos, offset }).wf(),
            r matches Some(t) ==> t == (Timestamp { secs, nanos, offset }),
    {
        let t = Timestamp { secs, nanos, offset };
        if nanos < NANOS_PER_SECOND && -SECONDS_PER_DAY < offset as i64 && (offset as i64) < SECONDS_PER_DAY
            && offset % 60 == 0 && MIN_SECS <= secs && secs <= MAX_SECS {
            Some(t)
        } else {
            None
        }
    }

    /// Whether the parts are in range.
    pub fn is_valid(&self) -> (r: bool)
        ensures
            r == self.wf(),
    {
        Timestamp::from_parts(self.secs, self.nanos, self.offset).is_some()
    }

    /// Reads a timestamp written as chrono writes one
    /// (`2024-01-01 23:00:00 +01:00`); `None` where the text does not parse
    /// or lies out of range.
    pub fn parse(text: &str) -> (r: Option<Timestamp>)
        ensures
            match parsed_timestamp(text@) {
                Some(p) => if (Timestamp { secs: p.0, nanos: p.1, offset: p.2 }).wf() {
                    r == Some(Timestamp { secs: p.0, nanos: p.1, offset: p.2 })
                } else {
                    r is None
                },
                None => r is None,
            },
    {
        match parse_timestamp_checked(text) {
            Ok(r) => r,
            Err(_) => None,
        }
    }

    /// The text of this timestamp as chrono writes it.
    pub fn to_text(&self) -> (r: String)
        requires
            self.wf(),
        ensures
            r@ == timestamp_text(self.secs, self.nanos, self.offset),
            parsed_timestamp(r@) == Some((self.secs, self.nanos, self.offset)),
            !r@.contains('\t'),
    {
        format_fixed_offset(self.secs, self.nanos, self.offset)
    }

    /// Nanoseconds since the Unix epoch.
    pub fn instant_nanos(&self) -> (r: i128)
        ensures
            r == self.instant(),
    {
        self.secs as i128 * NANOS_PER_SECOND as i128 + self.nanos as i128
    }

    /// The day number of this instant on a clock with the given offset.
    pub fn day_at_offset(&self, offset: i32) -> (r: i64)
        requires
            MIN_SECS <= self.secs <= MAX_SECS,
            -SECONDS_PER_DAY < offset < SECONDS_PER_DAY,
        ensures
            r == self.day_in(offset as int),
    {
        let shifted = self.secs + offset as i64 + DAY_SHIFT * SECONDS_PER_DAY;
        proof {
            lemma_hoist_over_denominator(self.secs + offset, DAY_SHIFT as int, SECONDS_PER_DAY as nat);
        }
        shifted / SECONDS_PER_DAY - DAY_SHIFT
    }

    /// The day number of this instant on its own local clock.
    pub fn local_day_number(&self) -> (r: i64)
        requires
            self.wf(),
        ensures
            r == self.local_day(),
    {
        self.day_at_offset(self.offset)
    }

    /// The first instant of the next local day, on this timestamp's clock.
    pub fn next_midnight(&self) -> (r: Timestamp)
        requires
            self.wf(),
        ensures
            r == self.next_midnight_spec(),
            r.local_day() == self.local_day() + 1,
            r.instant() > self.instant(),
    {
        let day = self.local_day_number();
        let secs = (day + 1) * SECONDS_PER_DAY - self.offset as i64;
        let r = Timestamp { secs, nanos: 0, offset: self.offset };
        proof {
            let d = SECONDS_PER_DAY as int;
            let l = self.secs + self.offset;
            assert(d * (l / d) + l % d == l) by {
                vstd::arithmetic::div_mod::lemma_fundamental_div_mod(l, d);
            }
            assert(0 <= l % d < d) by {
                vstd::arithmetic::div_mod::lemma_mod_bound(l, d);
            }
            assert(r.secs + r.offset == (day + 1) * d);
            assert((d * (day + 1)) / d == day + 1) by {
                vstd::arithmetic::div_mod::lemma_div_multiples_vanish(day + 1, d);
            }
            assert((day + 1) * d == d * (day + 1)) by (nonlinear_arith);
            assert(r.secs > self.secs) by (nonlinear_arith)
                requires r.secs + r.offset == (day + 1) * d, d * day + l % d == l,
                    l == self.secs + self.offset, 0 <= l % d < d, r.offset == self.offset;
        }
        r
    }

    /// The last nanosecond before this instant, at the same offset.
    pub fn prev_nano(&self) -> (r: Timestamp)
        requires
            self.wf(),
            self.secs > MIN_SECS,
        ensures
            r == self.prev_nano_spec(),
            r.instant() == self.instant() - 1,
    {
        if self.nanos == 0 {
            Timestamp { secs: self.secs - 1, nanos: NANOS_PER_SECOND - 1, offset: self.offset }
        } else {
            Timestamp { secs: self.secs, nanos: self.nanos - 1, offset: self.offset }
        }
    }

    /// Whether this instant is no later than `other`.
    pub fn not_after(&self, other: &Timestamp) -> (r: bool)
        ensures
            r == (self.instant() <= other.instant()),
    {
        self.instant_nanos() <= other.instant_nanos()
    }

    /// Whether this is the same instant as `other`.
    pub fn same_instant(&self, other: &Timestamp) -> (r: bool)
        ensures
            r == (self.instant() == other.instant()),
    {
        self.instant_nanos() == other.instant_nanos()
    }
}

/// Reads a timestamp. `Err` carries chrono's reason; `Ok(None)` is a
/// date-time that chrono reads but that lies out of range.
pub fn parse_timestamp_checked(text: &str) -> (r: Result<Option<Timestamp>, chrono::format::ParseError>)
    ensures
        match parsed_timestamp(text@) {
            Some(p) => r is Ok && if (Timestamp { secs: p.0, nanos: p.1, offset: p.2 }).wf() {
                r == Ok::<Option<Timestamp>, chrono::format::ParseError>(Some(Timestamp { secs: p.0, nanos: p.1, offset: p.2 }))
            } else {
                r == Ok::<Option<Timestamp>, chrono::format::ParseError>(None)
            },
            None => r is Err,
        },
{
    match parse_fixed_offset(text) {
        Ok(p) => Ok(Timestamp::from_parts(p.0, p.1, p.2)),
        Err(e) => Err(e),
    }
}

/// Nanoseconds from `from` to `to` (negative when `to` is earlier).
pub fn nanos_between(from: &Timestamp, to: &Timestamp) -> (r: i128)
    ensures
        r == to.instant() - from.instant(),
{
    to.instant_nanos() - from.instant_nanos()
}

} // verus!

//! How many activities, or which time frame, a query asks for, and the
//! grammar of its text form: an optional count followed by an optional
//! unit (`3`, `2h`, `day`, `4weeks`, `1m`).

use chrono::Datelike;
use crate::timestamp::{Timestamp, MAX_SECS, MIN_SECS, SECONDS_PER_DAY};
use vstd::arithmetic::div_mod::{lemma_fundamental_div_mod, lemma_hoist_over_denominator, lemma_mod_bound};
use vstd::prelude::*;
use vstd::string::StrSliceExecFns;

verus! {

#[derive(Debug, Clone, Copy, PartialEq, Eq, Structural)]
pub enum ActivityRange {
    Count(i64),
    Timeframe(InLast),
}

#[derive(Debug, Clone, Copy, PartialEq, Eq, Structural)]
pub enum InLast {
    Hours(i64),
    Days(i64),
    Weeks(i64),
    Months(i64),
}

#[derive(Debug, Clone)]
pub enum ParseRangeError {
    /// The text after the count is no known unit.
    InvalidPostfix(String),
}

/// What `str::to_lowercase` makes of a text.
pub uninterp spec fn lower_of(s: Seq<char>) -> Seq<char>;

/// Relies on `str::to_lowercase`: the result depends on the characters alone.
#[verifier::external_body]
fn lowercase(s: &str) -> (r: String)
    ensures
        r@ == lower_of(s@),
{
    s.to_lowercase()
}

pub open spec fn is_digit(c: char) -> bool {
    '0' <= c && c <= '9'
}

/// How many ASCII digits the text starts with.
pub open spec fn digit_run(s: Seq<char>) -> int
    decreases s.len(),
{
    if s.len() == 0 || !is_digit(s[0]) {
        0
    } else {
        1 + digit_run(s.drop_first())
    }
}

/// The value of a string of decimal digits.
pub open spec fn decimal(d: Seq<char>) -> int
    decreases d.len(),
{
    if d.len() == 0 {
        0
    } else {
        10 * decimal(d.drop_last()) + (d.last() as int - '0' as int)
    }
}

/// The leading count and the rest of the text. A count that does not fit an
/// `i64` is no count: the whole text is then the rest, and the count is 0.
pub open spec fn split_count(s: Seq<char>) -> (i64, Seq<char>) {
    let k = digit_run(s);
    if k > 0 && decimal(s.subrange(0, k)) <= i64::MAX {
        (decimal(s.subrange(0, k)) as i64, s.subrange(k, s.len() as int))
    } else {
        (0, s)
    }
}

pub open spec fn range_for(number: i64, unit: Seq<char>) -> Option<ActivityRange> {
    if unit.len() == 0 {
        Some(ActivityRange::Count(number))
    } else if unit == "h"@ || unit == "hour"@ || unit == "hours"@ {
        Some(ActivityRange::Timeframe(InLast::Hours(number)))
    } else if unit == "d"@ || unit == "day"@ || unit == "days"@ {
        Some(ActivityRange::Timeframe(InLast::Days(number)))
    } else if unit == "w"@ || unit == "week"@ || unit == "weeks"@ {
        Some(ActivityRange::Timeframe(InLast::Weeks(number)))
    } else if unit == "m"@ || unit == "month"@ || unit == "months"@ {
        Some(ActivityRange::Timeframe(InLast::Months(number)))
    } else {
        None
    }
}

pub(crate) fn same_text(s: &str, lit: &str) -> (r: bool)
    ensures
        r == (s@ == lit@),
{
    let n = s.unicode_len();
    if n != lit.unicode_len() {
        return false;
    }
    let mut i: usize = 0;
    while i < n
        invariant
            n == s@.len(),
            n == lit@.len(),
            i <= n,
            forall|k: int| 0 <= k < i ==> s@[k] == lit@[k],
        decreases n - i,
    {
        if s.get_char(i) != lit.get_char(i) {
            return false;
        }
        i += 1;
    }
    proof {
        assert(s@ =~= lit@);
    }
    true
}

fn is_one_of(s: &str, a: &str, b: &str, c: &str) -> (r: bool)
    ensures
        r == (s@ == a@ || s@ == b@ || s@ == c@),
{
    same_text(s, a) || same_text(s, b) || same_text(s, c)
}

impl ActivityRange {
    /// The range for a count and its unit, given in lower case; `postfix` is
    /// the unit as written, for the error.
    pub fn from_parts(number: i64, unit: &str, postfix: &str) -> (r: Result<ActivityRange, ParseRangeError>)
        ensures
            match range_for(number, unit@) {
                Some(v) => r == Ok::<ActivityRange, ParseRangeError>(v),
                None => r matches Err(ParseRangeError::InvalidPostfix(p)) && p@ == postfix@,
            },
    {
        if unit.unicode_len() == 0 {
            Ok(ActivityRange::Count(number))
        } else if is_one_of(unit, "h", "hour", "hours") {
            Ok(ActivityRange::Timeframe(InLast::Hours(number)))
        } else if is_one_of(unit, "d", "day", "days") {
            Ok(ActivityRange::Timeframe(InLast::Days(number)))
        } else if is_one_of(unit, "w", "week", "weeks") {
            Ok(ActivityRange::Timeframe(InLast::Weeks(number)))
        } else if is_one_of(unit, "m", "month", "months") {
            Ok(ActivityRange::Timeframe(InLast::Months(number)))
        } else {
            Err(ParseRangeError::InvalidPostfix(postfix.to_owned()))
        }
    }

    /// Reads a range: a count and a unit in any case.
    pub fn parse(input: &str) -> (r: Result<ActivityRange, ParseRangeError>)
        ensures
            ({
                let (number, rest) = split_count(input@);
                match range_for(number, lower_of(rest)) {
                    Some(v) => r == Ok::<ActivityRange, ParseRangeError>(v),
                    None => r matches Err(ParseRangeError::InvalidPostfix(p)) && p@ == rest,
                }
            }),
    {
        let n = input.unicode_len();
        let mut k: usize = 0;
        let mut value: i128 = 0;
        let mut fits = true;
        while k < n && ('0' <= input.get_char(k) && input.get_char(k) <= '9')
            invariant
                n == input@.len(),
                k <= n,
                forall|j: int| 0 <= j < k ==> is_digit(#[trigger] input@[j]),
                fits ==> value == decimal(input@.subrange(0, k as int)) && 0 <= value <= i64::MAX,
                !fits ==> decimal(input@.subrange(0, k as int)) > i64::MAX,
            decreases n - k,
        {
            let c = input.get_char(k);
            let ghost prefix = input@.subrange(0, k + 1);
            proof {
                assert(prefix.drop_last() =~= input@.subrange(0, k as int));
                assert(prefix.last() == c);
                lemma_decimal_nonneg(input@.subrange(0, k as int));
            }
            if fits {
                let next = value * 10 + (c as u32 - '0' as u32) as i128;
                if next > i64::MAX as i128 {
                    fits = false;
                } else {
                    value = next;
                }
            }
            k += 1;
        }
        proof {
            lemma_digit_run(input@, k as int);
        }
        let rest = input.substring_char(k, n);
        if k > 0 && fits {
            let lowered = lowercase(rest);
            ActivityRange::from_parts(value as i64, lowered.as_str(), rest)
        } else {
            let lowered = lowercase(input);
            proof {
                assert(input@.subrange(0, n as int) =~= input@);
            }
            ActivityRange::from_parts(0, lowered.as_str(), input)
        }
    }
}

proof fn lemma_decimal_nonneg(d: Seq<char>)
    requires
        forall|j: int| 0 <= j < d.len() ==> is_digit(#[trigger] d[j]),
    ensures
        decimal(d) >= 0,
    decreases d.len(),
{
    if d.len() > 0 {
        lemma_decimal_nonneg(d.drop_last());
    }
}

proof fn lemma_digit_run(s: Seq<char>, k: int)
    requires
        0 <= k <= s.len(),
        forall|j: int| 0 <= j < k ==> is_digit(#[trigger] s[j]),
        k == s.len() || !is_digit(s[k]),
    ensures
        digit_run(s) == k,
    decreases k,
{
    if k > 0 {
        let t = s.drop_first();
        assert forall|j: int| 0 <= j < k - 1 implies is_digit(#[trigger] t[j]) by {
            assert(t[j] == s[j + 1]);
        }
        if k < s.len() {
            assert(t[k - 1] == s[k]);
        }
        lemma_digit_run(t, k - 1);
        assert(is_digit(s[0]));
    } else {
        assert(s.len() == 0 || !is_digit(s[0]));
    }
}

/// Days from 0001-01-01 (day 1) to 1970-01-01.
pub const EPOCH_CE_DAY: i64 = 719_163;

/// The year and the zero-based month of a day counted from 0001-01-01 (day
/// 1), in the proleptic Gregorian calendar.
pub uninterp spec fn year_month_of_ce_day(ce_day: i32) -> Option<(i32, u32)>;

/// The day, counted from 0001-01-01 (day 1), on which the given month
/// (one-based) of the given year begins.
pub uninterp spec fn first_ce_day_of_month(year: i32, month: u32) -> Option<i32>;

/// Relies on chrono's `NaiveDate::from_num_days_from_ce_opt`, `year` and
/// `month0`: the date of a day number, where chrono can represent it.
#[verifier::external_body]
fn calendar_year_month(ce_day: i32) -> (r: Option<(i32, u32)>)
    ensures
        r == year_month_of_ce_day(ce_day),
{
    let date = chrono::NaiveDate::from_num_days_from_ce_opt(ce_day)?;
    Some((date.year(), date.month0()))
}

/// Relies on chrono's `NaiveDate::from_ymd_opt` and
/// `NaiveDate::num_days_from_ce`: the day number of the first of a month,
/// where chrono can represent it.
#[verifier::external_body]
fn calendar_first_of_month(year: i32, month: u32) -> (r: Option<i32>)
    ensures
        r == first_ce_day_of_month(year, month),
{
    let date = chrono::NaiveDate::from_ymd_opt(year, month, 1)?;
    Some(date.num_days_from_ce())
}

/// The timestamp at the given local second on a clock with the given
/// offset, if it is in range.
pub open spec fn at_local(local_secs: int, offset: i32) -> Option<Timestamp> {
    if MIN_SECS <= local_secs - offset <= MAX_SECS {
        Some(Timestamp { secs: (local_secs - offset) as i64, nanos: 0, offset })
    } else {
        None
    }
}

/// Where a time frame that ends at `now` begins, on `now`'s clock: the start
/// of the current hour or day, or of the current week (weeks start on
/// Monday) or month, moved back by the given number of units.
pub open spec fn back_from_spec(frame: InLast, now: Timestamp) -> Option<Timestamp> {
    let local = now.secs + now.offset;
    let day = now.local_day();
    match frame {
        InLast::Hours(h) => at_local((local / 3600) * 3600 - h * 3600, now.offset),
        InLast::Days(d) => at_local((day - d) * SECONDS_PER_DAY, now.offset),
        InLast::Weeks(w) => at_local((day - 7 * w - (day + 3) % 7) * SECONDS_PER_DAY, now.offset),
        InLast::Months(m) => match year_month_of_ce_day((day + EPOCH_CE_DAY) as i32) {
            None => None,
            Some(ym) => {
                let delta = ym.1 - m;
                let year = ym.0 + delta / 12;
                let month = delta % 12 + 1;
                if i32::MIN <= year <= i32::MAX {
                    match first_ce_day_of_month(year as i32, month as u32) {
                        Some(first) => at_local((first - EPOCH_CE_DAY) * SECONDS_PER_DAY, now.offset),
                        None => None,
                    }
                } else {
                    None
                }
            },
        },
    }
}

fn at_local_exec(local_secs: i128, offset: i32) -> (r: Option<Timestamp>)
    requires
        -1_000_000_000_000_000_000_000_000_000_000 <= local_secs <= 1_000_000_000_000_000_000_000_000_000_000,
        -86400 < offset < 86400,
        offset % 60 == 0,
    ensures
        r == at_local(local_secs as int, offset),
{
    let secs = local_secs - offset as i128;
    if MIN_SECS as i128 <= secs && secs <= MAX_SECS as i128 {
        Some(Timestamp { secs: secs as i64, nanos: 0, offset })
    } else {
        None
    }
}

/// Floor division and remainder by a positive divisor, for dividends above
/// `-shift * d`.
fn floor_div_mod(x: i128, d: i128, shift: i128) -> (r: (i128, i128))
    requires
        0 < d <= 1_000_000,
        0 <= shift <= 1_000_000_000_000_000_000,
        x + shift * d >= 0,
        x <= 1_000_000_000_000_000_000_000,
    ensures
        r.0 == x as int / d as int,
        r.1 == x as int % d as int,
{
    proof {
        assert(0 <= shift * d <= 1_000_000_000_000_000_000_000_000) by (nonlinear_arith)
            requires
                0 < d <= 1_000_000,
                0 <= shift <= 1_000_000_000_000_000_000,
        ;
    }
    let shifted = x + shift * d;
    let q0 = shifted / d;
    let r0 = shifted % d;
    proof {
        lemma_fundamental_div_mod(shifted as int, d as int);
        lemma_mod_bound(shifted as int, d as int);
        assert(x == (q0 - shift) * d + r0) by (nonlinear_arith)
            requires
                shifted == d * q0 + r0,
                shifted == x + shift * d,
        ;
        vstd::arithmetic::div_mod::lemma_fundamental_div_mod_converse_div(x as int, d as int, q0 - shift, r0 as int);
        vstd::arithmetic::div_mod::lemma_fundamental_div_mod_converse_mod(x as int, d as int, q0 - shift, r0 as int);
        assert(0 <= q0 <= shifted) by {
            vstd::arithmetic::div_mod::lemma_div_pos_is_pos(shifted as int, d as int);
            vstd::arithmetic::div_mod::lemma_div_is_ordered_by_denominator(shifted as int, 1, d as int);
        }
    }
    (q0 - shift, r0)
}

impl InLast {
    /// Where this time frame begins when it ends at `now`; `None` where that
    /// lies out of range.
    pub fn back_from(&self, now: &Timestamp) -> (r: Option<Timestamp>)
        requires
            now.wf(),
        ensures
            r == back_from_spec(*self, *now),
    {
        let local = now.secs as i128 + now.offset as i128;
        let day = now.local_day_number() as i128;
        match self {
            InLast::Hours(h) => {
                let (hour, _) = floor_div_mod(local, 3600, 100_000_000_000);
                at_local_exec(hour * 3600 - *h as i128 * 3600, now.offset)
            },
            InLast::Days(d) => at_local_exec((day - *d as i128) * SECONDS_PER_DAY as i128, now.offset),
            InLast::Weeks(w) => {
                let (_, since_monday) = floor_div_mod(day + 3, 7, 1_000_000_000);
                at_local_exec((day - 7 * *w as i128 - since_monday) * SECONDS_PER_DAY as i128, now.offset)
            },
            InLast::Months(m) => match calendar_year_month((day + EPOCH_CE_DAY as i128) as i32) {
                None => None,
                Some((year0, month0)) => {
                    let delta = month0 as i128 - *m as i128;
                    let (years, month) = floor_div_mod(delta, 12, 1_000_000_000_000_000_000);
                    let year = year0 as i128 + years;
                    if i32::MIN as i128 <= year && year <= i32::MAX as i128 {
                        proof {
                            lemma_mod_bound(delta as int, 12);
                        }
                        match calendar_first_of_month(year as i32, (month + 1) as u32) {
                            Some(first) => at_local_exec(
                                (first as i128 - EPOCH_CE_DAY as i128) * SECONDS_PER_DAY as i128,
                                now.offset,
                            ),
                            None => None,
                        }
                    } else {
                        None
                    }
                },
            },
        }
    }
}

} // verus!

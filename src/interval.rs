//! Reconstructed activity intervals and their split at local midnight.
//!
//! An interval runs from a `Start` entry to an optional end (`None` while the
//! activity is still running; callers supply "now" where a concrete end is
//! needed). Splitting yields one piece per local calendar day, counted on the
//! clock of the interval's start: every piece but the last ends one
//! nanosecond before the next local midnight, and the next piece starts at
//! that midnight.

use crate::entry::{stamp_text, tab, ActivityStart, StartView};
use vstd::string::StringExecFns;
use crate::timestamp::{Timestamp, NANOS_PER_SECOND, SECONDS_PER_DAY};
use vstd::prelude::*;

verus! {

/// An interval as plain values.
pub struct ActivityView {
    pub start: StartView,
    pub end: Option<Timestamp>,
}

impl ActivityView {
    pub open spec fn start_time(self) -> Timestamp {
        self.start.time_stamp
    }

    /// The end, or the fallback while the activity is running.
    pub open spec fn end_or(self, fallback: Timestamp) -> Timestamp {
        match self.end {
            Some(e) => e,
            None => fallback,
        }
    }

    /// Length in nanoseconds, measured up to the fallback while running.
    pub open spec fn duration(self, fallback: Timestamp) -> int {
        self.end_or(fallback).instant() - self.start_time().instant()
    }

    pub open spec fn wf(self) -> bool {
        &&& self.start.time_stamp.wf()
        &&& (self.end matches Some(e) ==> e.wf())
    }
}

/// Local midnight starting the given day, on a clock with the given offset.
pub open spec fn midnight_at(day: int, offset: i32) -> Timestamp {
    Timestamp { secs: (day * SECONDS_PER_DAY - offset) as i64, nanos: 0, offset }
}

/// How many midnights lie between `t` and `stop`, on `t`'s clock.
pub open spec fn cut_count(t: Timestamp, stop: Timestamp) -> int {
    if t.local_day() < stop.day_in(t.offset as int) {
        stop.day_in(t.offset as int) - t.local_day()
    } else {
        0
    }
}

/// Where the piece with the given index starts.
pub open spec fn piece_start(t: Timestamp, i: int) -> Timestamp {
    if i == 0 {
        t
    } else {
        midnight_at(t.local_day() + i, t.offset)
    }
}

/// The pieces of the interval from `start` to `end` (or `fallback` while
/// running): one per local day, in order. All but the last end one
/// nanosecond before the following midnight; the last keeps `end`.
pub open spec fn split_spec(start: StartView, end: Option<Timestamp>, fallback: Timestamp) -> Seq<ActivityView> {
    let t = start.time_stamp;
    let stop = match end {
        Some(e) => e,
        None => fallback,
    };
    let k = cut_count(t, stop);
    Seq::new(
        (k + 1) as nat,
        |i: int|
            ActivityView {
                start: StartView { time_stamp: piece_start(t, i), ..start },
                end: if i < k {
                    Some(midnight_at(t.local_day() + i + 1, t.offset).prev_nano_spec())
                } else {
                    end
                },
            },
    )
}

/// Sum of the pieces' lengths, measuring running ones up to `fallback`.
pub open spec fn total_duration(pieces: Seq<ActivityView>, fallback: Timestamp) -> int
    decreases pieces.len(),
{
    if pieces.len() == 0 {
        0
    } else {
        pieces[0].duration(fallback) + total_duration(pieces.drop_first(), fallback)
    }
}

proof fn lemma_midnight_day(day: int, offset: i32)
    requires
        -SECONDS_PER_DAY < offset < SECONDS_PER_DAY,
        i64::MIN <= day * SECONDS_PER_DAY - offset <= i64::MAX,
    ensures
        midnight_at(day, offset).local_day() == day,
        midnight_at(day, offset).secs == day * SECONDS_PER_DAY - offset,
{
    let d = SECONDS_PER_DAY as int;
    assert((d * day) / d == day) by {
        vstd::arithmetic::div_mod::lemma_div_multiples_vanish(day, d);
    }
    assert(day * d == d * day) by (nonlinear_arith);
}

/// Bounds on midnights between two in-range timestamps.
proof fn lemma_midnight_between(t: Timestamp, stop: Timestamp, day: int)
    requires
        t.wf(),
        stop.wf(),
        t.local_day() < day <= stop.day_in(t.offset as int),
    ensures
        midnight_at(day, t.offset).wf(),
        midnight_at(day, t.offset).local_day() == day,
        midnight_at(day, t.offset).secs == day * SECONDS_PER_DAY - t.offset,
        t.instant() < midnight_at(day, t.offset).instant(),
        midnight_at(day, t.offset).instant() <= stop.instant(),
        t.secs < midnight_at(day, t.offset).secs <= stop.secs,
{
    let d = SECONDS_PER_DAY as int;
    let l = t.secs + t.offset;
    let ls = stop.secs + t.offset;
    vstd::arithmetic::div_mod::lemma_fundamental_div_mod(l, d);
    vstd::arithmetic::div_mod::lemma_mod_bound(l, d);
    vstd::arithmetic::div_mod::lemma_fundamental_div_mod(ls, d);
    vstd::arithmetic::div_mod::lemma_mod_bound(ls, d);
    let td = t.local_day();
    let sd = stop.day_in(t.offset as int);
    assert(td == l / d);
    assert(sd == ls / d);
    assert(day * d > l) by (nonlinear_arith)
        requires
            td < day,
            l == d * td + l % d,
            0 <= l % d < d,
            d > 0,
    ;
    assert(day * d <= ls) by (nonlinear_arith)
        requires
            day <= sd,
            ls == d * sd + ls % d,
            0 <= ls % d,
            d > 0,
    ;
    lemma_midnight_day(day, t.offset);
}

/// Cutting off the first piece leaves the pieces of the rest of the interval.
proof fn lemma_split_step(start: StartView, end: Option<Timestamp>, fallback: Timestamp)
    requires
        start.time_stamp.wf(),
        end matches Some(e) ==> e.wf(),
        fallback.wf(),
        cut_count(start.time_stamp, match end { Some(e) => e, None => fallback }) > 0,
    ensures
        ({
            let t = start.time_stamp;
            let m = t.next_midnight_spec();
            &&& m.wf()
            &&& m.local_day() == t.local_day() + 1
            &&& m == midnight_at(t.local_day() + 1, t.offset)
            &&& split_spec(start, end, fallback) == seq![
                ActivityView { start, end: Some(m.prev_nano_spec()) },
            ] + split_spec(StartView { time_stamp: m, ..start }, end, fallback)
        }),
{
    let t = start.time_stamp;
    let stop = match end {
        Some(e) => e,
        None => fallback,
    };
    let m = t.next_midnight_spec();
    lemma_midnight_between(t, stop, t.local_day() + 1);
    assert(m == midnight_at(t.local_day() + 1, t.offset));
    let k = cut_count(t, stop);
    let s2 = StartView { time_stamp: m, ..start };
    assert(cut_count(m, stop) == k - 1);
    let a = split_spec(start, end, fallback);
    let b = split_spec(s2, end, fallback);
    assert forall|i: int| 0 <= i < b.len() implies #[trigger] b[i] == a[i + 1] by {
        if i > 0 {
            assert(piece_start(m, i) == piece_start(t, i + 1));
        }
    }
    assert(a =~= seq![ActivityView { start, end: Some(m.prev_nano_spec()) }] + b);
}

/// Every piece is in range.
pub proof fn lemma_split_wf(start: StartView, end: Option<Timestamp>, fallback: Timestamp)
    requires
        start.time_stamp.wf(),
        end matches Some(e) ==> e.wf(),
        fallback.wf(),
    ensures
        forall|i: int| 0 <= i < split_spec(start, end, fallback).len() ==> (#[trigger] split_spec(start, end, fallback)[i]).wf(),
    decreases cut_count(start.time_stamp, match end { Some(e) => e, None => fallback }),
{
    let t = start.time_stamp;
    let stop = match end {
        Some(e) => e,
        None => fallback,
    };
    if cut_count(t, stop) > 0 {
        lemma_split_step(start, end, fallback);
        let m = t.next_midnight_spec();
        lemma_split_wf(StartView { time_stamp: m, ..start }, end, fallback);
        assert(m.wf()) by {
            lemma_midnight_between(t, stop, t.local_day() + 1);
        }
        let s = split_spec(start, end, fallback);
        assert forall|i: int| 0 <= i < s.len() implies (#[trigger] s[i]).wf() by {
            if i > 0 {
                assert(s[i] == split_spec(StartView { time_stamp: m, ..start }, end, fallback)[i - 1]);
            }
        }
    }
}

/// The pieces tile the interval: their lengths add up to the whole, less one
/// nanosecond at each midnight cut. An interval within one local day is a
/// single piece of exactly its own length.
pub proof fn lemma_split_conserves_duration(start: StartView, end: Option<Timestamp>, fallback: Timestamp)
    requires
        start.time_stamp.wf(),
        end matches Some(e) ==> e.wf(),
        fallback.wf(),
    ensures
        total_duration(split_spec(start, end, fallback), fallback) + (split_spec(start, end, fallback).len() - 1)
            == (ActivityView { start, end }).duration(fallback),
        cut_count(start.time_stamp, (ActivityView { start, end }).end_or(fallback)) == 0 ==> split_spec(start, end, fallback)
            == seq![ActivityView { start, end }],
    decreases cut_count(start.time_stamp, match end { Some(e) => e, None => fallback }),
{
    let t = start.time_stamp;
    let stop = match end {
        Some(e) => e,
        None => fallback,
    };
    let s = split_spec(start, end, fallback);
    if cut_count(t, stop) > 0 {
        lemma_split_step(start, end, fallback);
        let m = t.next_midnight_spec();
        let s2 = StartView { time_stamp: m, ..start };
        lemma_split_conserves_duration(s2, end, fallback);
        assert(s.drop_first() =~= split_spec(s2, end, fallback));
        assert(m.nanos == 0);
        assert(m.prev_nano_spec().instant() == m.instant() - 1);
        assert(s[0] == ActivityView { start, end: Some(m.prev_nano_spec()) });
        assert(s[0].duration(fallback) == m.instant() - 1 - t.instant());
        assert(total_duration(s, fallback) == s[0].duration(fallback) + total_duration(s.drop_first(), fallback));
        assert((ActivityView { start: s2, end }).duration(fallback) == stop.instant() - m.instant());
        assert(s.len() == split_spec(s2, end, fallback).len() + 1);
    } else {
        assert(s =~= seq![ActivityView { start, end }]);
        assert(s.drop_first() =~= Seq::<ActivityView>::empty());
        assert(total_duration(s.drop_first(), fallback) == 0);
        assert(total_duration(s, fallback) == s[0].duration(fallback) + total_duration(s.drop_first(), fallback));
    }
}

/// The text of an optional end: the timestamp, or nothing while running.
pub open spec fn end_text(end: Option<Timestamp>) -> Seq<char> {
    match end {
        Some(e) => stamp_text(e),
        None => Seq::empty(),
    }
}

/// The machine-readable line of an interval: start, end (empty while
/// running), name, attendance type, WBS and description, tab separated.
pub open spec fn activity_line(a: ActivityView) -> Seq<char> {
    stamp_text(a.start.time_stamp) + tab() + end_text(a.end) + tab() + a.start.name + tab() + a.start.attendance
        + tab() + a.start.wbs + tab() + a.start.description
}

/// A start entry and the end of its interval, if known.
#[derive(Clone, Debug)]
pub struct TrackedActivity {
    pub start_entry: ActivityStart,
    pub end: Option<Timestamp>,
}

impl View for TrackedActivity {
    type V = ActivityView;

    open spec fn view(&self) -> ActivityView {
        ActivityView { start: self.start_entry@, end: self.end }
    }
}

impl TrackedActivity {
    pub fn new(start_entry: ActivityStart, end: Option<Timestamp>) -> (r: Self)
        ensures
            r@ == (ActivityView { start: start_entry@, end }),
    {
        TrackedActivity { start_entry, end }
    }

    pub fn new_completed(start_entry: ActivityStart, end: Timestamp) -> (r: Self)
        ensures
            r@ == (ActivityView { start: start_entry@, end: Some(end) }),
    {
        TrackedActivity { start_entry, end: Some(end) }
    }

    pub fn new_ongoing(start_entry: ActivityStart) -> (r: Self)
        ensures
            r@ == (ActivityView { start: start_entry@, end: None }),
    {
        TrackedActivity { start_entry, end: None }
    }

    /// A copy with the same fields.
    pub fn duplicate(&self) -> (r: Self)
        ensures
            r@ == self@,
    {
        TrackedActivity { start_entry: self.start_entry.with_timestamp(self.start_entry.time_stamp), end: self.end }
    }

    /// The pieces of this interval, one per local day, drawn one at a time.
    pub fn split_on_midnight(self, end_fallback: Timestamp) -> (r: SplitActivity)
        requires
            self@.wf(),
            end_fallback.wf(),
        ensures
            r.wf(),
            r.remaining() == split_spec(self@.start, self@.end, end_fallback),
    {
        SplitActivity { current_start: Some(self.start_entry), end: self.end, end_fallback }
    }

    /// The pieces of this interval, one per local day, in order.
    pub fn midnight_pieces(&self, end_fallback: Timestamp) -> (r: Vec<TrackedActivity>)
        requires
            self@.wf(),
            end_fallback.wf(),
        ensures
            r@.map_values(|a: TrackedActivity| a@) == split_spec(self@.start, self@.end, end_fallback),
    {
        let copy = self.duplicate();
        let mut split = copy.split_on_midnight(end_fallback);
        let ghost all = split.remaining();
        let mut out: Vec<TrackedActivity> = Vec::new();
        loop
            invariant
                split.wf(),
                out@.map_values(|a: TrackedActivity| a@) + split.remaining() == all,
            ensures
                out@.map_values(|a: TrackedActivity| a@) == all,
            decreases split.remaining().len(),
        {
            let ghost before = split.remaining();
            match split.next() {
                Some(piece) => {
                    let ghost prev = out@.map_values(|a: TrackedActivity| a@);
                    out.push(piece);
                    proof {
                        assert(out@.map_values(|a: TrackedActivity| a@) =~= prev.push(before[0]));
                        assert(prev.push(before[0]) + before.drop_first() =~= prev + before);
                    }
                },
                None => {
                    proof {
                        assert(out@.map_values(|a: TrackedActivity| a@) + before =~= out@.map_values(|a: TrackedActivity| a@));
                        assert(out@.map_values(|a: TrackedActivity| a@) == all);
                    }
                    break;
                },
            }
        }
        out
    }

    /// The machine-readable line of this interval.
    pub fn to_line(&self) -> (r: String)
        requires
            self@.wf(),
        ensures
            r@ == activity_line(self@),
    {
        proof {
            reveal_strlit("\t");
            assert("\t"@ =~= tab());
        }
        let mut line = self.start_entry.time_stamp.to_text();
        line.append("\t");
        match &self.end {
            Some(e) => line.append(e.to_text().as_str()),
            None => {},
        }
        let ghost head = line@;
        line.append("\t");
        line.append(self.start_entry.activity_name.as_str());
        line.append("\t");
        line.append(self.start_entry.attendance_type.as_str());
        line.append("\t");
        line.append(self.start_entry.wbs.as_str());
        line.append("\t");
        line.append(self.start_entry.description.as_str());
        proof {
            assert(head =~= stamp_text(self@.start.time_stamp) + tab() + end_text(self.end));
            assert(line@ =~= activity_line(self@));
        }
        line
    }

    pub fn start_time(&self) -> (r: &Timestamp)
        ensures
            *r == self@.start_time(),
    {
        self.start_entry.time_stamp()
    }

    pub fn end_time(&self) -> (r: Option<&Timestamp>)
        ensures
            match self.end {
                Some(e) => r matches Some(x) && *x == e,
                None => r is None,
            },
    {
        match &self.end {
            Some(e) => Some(e),
            None => None,
        }
    }

    pub fn name(&self) -> (r: &str)
        ensures
            r@ == self@.start.name,
    {
        self.start_entry.name()
    }

    pub fn attendance(&self) -> (r: &str)
        ensures
            r@ == self@.start.attendance,
    {
        self.start_entry.attendance()
    }

    pub fn description(&self) -> (r: &str)
        ensures
            r@ == self@.start.description,
    {
        self.start_entry.description()
    }

    pub fn wbs(&self) -> (r: &str)
        ensures
            r@ == self@.start.wbs,
    {
        self.start_entry.wbs()
    }
}

/// The pieces of one interval that are still to be drawn.
pub struct SplitActivity {
    current_start: Option<ActivityStart>,
    end: Option<Timestamp>,
    end_fallback: Timestamp,
}

impl SplitActivity {
    pub closed spec fn wf(&self) -> bool {
        &&& (self.current_start matches Some(s) ==> s.time_stamp.wf())
        &&& (self.end matches Some(e) ==> e.wf())
        &&& self.end_fallback.wf()
    }

    /// The pieces still to come, in order.
    pub closed spec fn remaining(&self) -> Seq<ActivityView> {
        match self.current_start {
            Some(s) => split_spec(s@, self.end, self.end_fallback),
            None => Seq::empty(),
        }
    }

    /// Draws the next piece; `None` once all are drawn.
    pub fn next(&mut self) -> (r: Option<TrackedActivity>)
        requires
            old(self).wf(),
        ensures
            final(self).wf(),
            old(self).remaining().len() == 0 ==> r is None && final(self).remaining() == old(self).remaining(),
            old(self).remaining().len() > 0 ==> (r matches Some(a) && a@ == old(self).remaining()[0]
                && final(self).remaining() == old(self).remaining().drop_first()),
    {
        let start = match self.current_start.take() {
            Some(s) => s,
            None => {
                return None;
            },
        };
        let stop = match self.end {
            Some(e) => e,
            None => self.end_fallback,
        };
        let t = start.time_stamp;
        if t.local_day_number() < stop.day_at_offset(t.offset) {
            let next_midnight = t.next_midnight();
            proof {
                lemma_split_step(start@, self.end, self.end_fallback);
                lemma_midnight_between(t, stop, t.local_day() + 1);
            }
            self.current_start = Some(start.with_timestamp(next_midnight));
            let piece_end = next_midnight.prev_nano();
            proof {
                let s2 = StartView { time_stamp: next_midnight, ..start@ };
                assert(split_spec(start@, self.end, self.end_fallback).drop_first() =~= split_spec(
                    s2,
                    self.end,
                    self.end_fallback,
                ));
            }
            Some(TrackedActivity::new_completed(start, piece_end))
        } else {
            proof {
                assert(split_spec(start@, self.end, self.end_fallback).len() == 1);
                assert(split_spec(start@, self.end, self.end_fallback).drop_first() =~= Seq::<ActivityView>::empty());
            }
            Some(TrackedActivity::new(start, self.end))
        }
    }
}

} // verus!

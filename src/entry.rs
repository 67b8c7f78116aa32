//! One log line: a `Start` of a named activity or a bare `End` marker.
//!
//! Wire shape (tab separated):
//! `<timestamp>\t__END` or
//! `<timestamp>\t<name>\t<attendance>\t<wbs>\t<description>`.

use crate::timestamp::{parsed_timestamp, timestamp_text, Timestamp};
use vstd::prelude::*;
use vstd::string::{StrSliceExecFns, StringExecFns};

verus! {

/// The reserved activity name that marks an `End` line.
pub const END_SENTINEL: &'static str = "__END";

/// The pieces of a text between separators. A text without the separator is
/// one piece; an empty text is one empty piece.
pub open spec fn split_on(s: Seq<char>, sep: char) -> Seq<Seq<char>>
    decreases s.len(),
{
    if s.len() == 0 {
        seq![Seq::empty()]
    } else {
        let init = split_on(s.drop_last(), sep);
        if s.last() == sep {
            init.push(Seq::empty())
        } else {
            init.update(init.len() - 1, init.last().push(s.last()))
        }
    }
}

/// The fields of a line: the text between tabs.
pub open spec fn split_at_tabs(s: Seq<char>) -> Seq<Seq<char>> {
    split_on(s, '\t')
}

pub proof fn lemma_split_nonempty(s: Seq<char>, sep: char)
    ensures
        split_on(s, sep).len() >= 1,
    decreases s.len(),
{
    if s.len() > 0 {
        lemma_split_nonempty(s.drop_last(), sep);
    }
}

/// A text without tabs is a single field.
pub proof fn lemma_split_no_tab(s: Seq<char>)
    requires
        !s.contains('\t'),
    ensures
        split_at_tabs(s) == seq![s],
    decreases s.len(),
{
    if s.len() > 0 {
        let p = s.drop_last();
        assert(!p.contains('\t')) by {
            if p.contains('\t') {
                let i = choose|i: int| 0 <= i < p.len() && p[i] == '\t';
                assert(s[i] == '\t');
            }
        }
        lemma_split_no_tab(p);
        assert(s.last() != '\t') by {
            assert(s[s.len() - 1] == s.last());
        }
        assert(p.push(s.last()) =~= s);
        assert(seq![p].update(0, p.push(s.last())) =~= seq![s]);
    } else {
        assert(s =~= Seq::<char>::empty());
    }
}

/// Joining two texts with a tab joins their field lists.
pub proof fn lemma_split_join(a: Seq<char>, b: Seq<char>)
    ensures
        split_at_tabs(a + seq!['\t'] + b) == split_at_tabs(a) + split_at_tabs(b),
    decreases b.len(),
{
    lemma_split_nonempty(a, '\t');
    lemma_split_nonempty(b, '\t');
    if b.len() == 0 {
        let s = a + seq!['\t'];
        assert(s.drop_last() =~= a);
        assert(split_at_tabs(a).push(Seq::empty()) =~= split_at_tabs(a) + seq![Seq::<char>::empty()]);
        assert(a + seq!['\t'] + b =~= s);
    } else {
        let b0 = b.drop_last();
        lemma_split_join(a, b0);
        lemma_split_nonempty(b0, '\t');
        let s = a + seq!['\t'] + b;
        assert(s.drop_last() =~= a + seq!['\t'] + b0);
        assert(s.last() == b.last());
        let fa = split_at_tabs(a);
        let fb0 = split_at_tabs(b0);
        if b.last() == '\t' {
            assert((fa + fb0).push(Seq::empty()) =~= fa + fb0.push(Seq::empty()));
        } else {
            let init = fa + fb0;
            assert(init.update(init.len() - 1, init.last().push(b.last())) =~= fa + fb0.update(
                fb0.len() - 1,
                fb0.last().push(b.last()),
            ));
        }
    }
}

/// The fields of a `Start` line as plain values.
pub struct StartView {
    pub time_stamp: Timestamp,
    pub name: Seq<char>,
    pub attendance: Seq<char>,
    pub description: Seq<char>,
    pub wbs: Seq<char>,
}

/// A log entry as plain values.
pub enum EntryView {
    Start(StartView),
    End(Timestamp),
}

/// Why a line is not an entry, without the parser's own detail.
#[derive(Clone, Copy, Debug, PartialEq, Eq, Structural)]
pub enum ParseErrorKind {
    MissingTime,
    MissingName,
    MissingAttendance,
    MissingWbs,
    ParseDatetime,
    TimestampOutOfRange,
}

/// The timestamp written in a field: chrono's reading of it, if that is in
/// range.
pub open spec fn stamp_of(field: Seq<char>) -> Result<Timestamp, ParseErrorKind> {
    match parsed_timestamp(field) {
        None => Err(ParseErrorKind::ParseDatetime),
        Some(p) => {
            let t = Timestamp { secs: p.0, nanos: p.1, offset: p.2 };
            if t.wf() {
                Ok(t)
            } else {
                Err(ParseErrorKind::TimestampOutOfRange)
            }
        },
    }
}

/// What reading a line gives: the entry, or why there is none. Missing
/// fields are reported before a timestamp that cannot be read.
pub open spec fn parse_entry_spec(line: Seq<char>) -> Result<EntryView, ParseErrorKind> {
    let f = split_at_tabs(line);
    if f.len() < 1 {
        Err(ParseErrorKind::MissingTime)
    } else if f.len() < 2 {
        Err(ParseErrorKind::MissingName)
    } else if f[1] == END_SENTINEL@ {
        match stamp_of(f[0]) {
            Ok(t) => Ok(EntryView::End(t)),
            Err(e) => Err(e),
        }
    } else if f.len() < 3 {
        Err(ParseErrorKind::MissingAttendance)
    } else if f.len() < 4 {
        Err(ParseErrorKind::MissingWbs)
    } else {
        match stamp_of(f[0]) {
            Ok(t) => Ok(
                EntryView::Start(
                    StartView {
                        time_stamp: t,
                        name: f[1],
                        attendance: f[2],
                        description: if f.len() > 4 {
                            f[4]
                        } else {
                            Seq::empty()
                        },
                        wbs: f[3],
                    },
                ),
            ),
            Err(e) => Err(e),
        }
    }
}

pub open spec fn tab() -> Seq<char> {
    seq!['\t']
}

pub open spec fn stamp_text(t: Timestamp) -> Seq<char> {
    timestamp_text(t.secs, t.nanos, t.offset)
}

/// The line written for an entry.
pub open spec fn entry_text(e: EntryView) -> Seq<char> {
    match e {
        EntryView::End(t) => stamp_text(t) + tab() + END_SENTINEL@,
        EntryView::Start(s) => stamp_text(s.time_stamp) + tab() + s.name + tab() + s.attendance
            + tab() + s.wbs + tab() + s.description,
    }
}

impl EntryView {
    pub open spec fn time_stamp(self) -> Timestamp {
        match self {
            EntryView::Start(s) => s.time_stamp,
            EntryView::End(t) => t,
        }
    }

    /// An entry that reads back as itself once written: a timestamp in range,
    /// and, for a `Start`, free text without tabs and a name other than the
    /// end marker.
    pub open spec fn is_writable(self) -> bool {
        match self {
            EntryView::End(t) => t.wf(),
            EntryView::Start(s) => {
                &&& s.time_stamp.wf()
                &&& !s.name.contains('\t')
                &&& !s.attendance.contains('\t')
                &&& !s.wbs.contains('\t')
                &&& !s.description.contains('\t')
                &&& s.name != END_SENTINEL@
            },
        }
    }
}

/// The text written in place of one character of a description.
pub open spec fn sanitized_char(c: char) -> Seq<char> {
    if c == '\t' {
        seq![' ', ' ', ' ', ' ']
    } else if c == '\n' {
        seq![' ', '-', '-', ' ']
    } else {
        seq![c]
    }
}

/// A description with each tab replaced by four spaces and each newline by
/// ` -- `.
pub open spec fn sanitized(s: Seq<char>) -> Seq<char>
    decreases s.len(),
{
    if s.len() == 0 {
        Seq::empty()
    } else {
        sanitized(s.drop_last()) + sanitized_char(s.last())
    }
}

/// A sanitized text holds neither tabs nor newlines.
pub proof fn lemma_sanitized_clean(s: Seq<char>)
    ensures
        !sanitized(s).contains('\t'),
        !sanitized(s).contains('\n'),
    decreases s.len(),
{
    if s.len() > 0 {
        lemma_sanitized_clean(s.drop_last());
        let a = sanitized(s.drop_last());
        let b = sanitized_char(s.last());
        assert forall|i: int| 0 <= i < (a + b).len() implies (a + b)[i] != '\t' && (a + b)[i] != '\n' by {
            if i < a.len() {
                assert((a + b)[i] == a[i]);
                assert(!a.contains(a[i]) || a[i] != '\t');
                assert(!a.contains(a[i]) || a[i] != '\n');
            } else {
                assert((a + b)[i] == b[i - a.len()]);
            }
        }
    }
}

/// Makes free text fit on one log line: each tab becomes four spaces and
/// each newline becomes ` -- `.
pub fn sanitize_description(description: &str) -> (r: String)
    ensures
        r@ == sanitized(description@),
        !r@.contains('\t'),
        !r@.contains('\n'),
{
    let n = description.unicode_len();
    let mut out = String::new();
    let mut i: usize = 0;
    proof {
        reveal_strlit("    ");
        reveal_strlit(" -- ");
    }
    while i < n
        invariant
            n == description@.len(),
            i <= n,
            out@ == sanitized(description@.subrange(0, i as int)),
        decreases n - i,
    {
        let c = description.get_char(i);
        let ghost prefix = description@.subrange(0, i + 1);
        proof {
            assert(prefix.drop_last() =~= description@.subrange(0, i as int));
            assert(prefix.last() == c);
            assert(sanitized(prefix) == sanitized(prefix.drop_last()) + sanitized_char(c));
            reveal_strlit("    ");
            reveal_strlit(" -- ");
        }
        if c == '\t' {
            out.append("    ");
            proof {
                assert("    "@ =~= seq![' ', ' ', ' ', ' ']);
            }
        } else if c == '\n' {
            out.append(" -- ");
            proof {
                assert(" -- "@ =~= seq![' ', '-', '-', ' ']);
            }
        } else {
            let one = description.substring_char(i, i + 1);
            out.append(one);
            proof {
                assert(one@ =~= seq![c]);
            }
        }
        i += 1;
    }
    proof {
        assert(description@.subrange(0, n as int) =~= description@);
        lemma_sanitized_clean(description@);
    }
    out
}

/// Splits a text at each separator.
pub fn split_by(line: &str, sep: char) -> (r: Vec<String>)
    ensures
        r@.map_values(|f: String| f@) == split_on(line@, sep),
{
    let n = line.unicode_len();
    let mut fields: Vec<String> = Vec::new();
    let mut start: usize = 0;
    let mut i: usize = 0;
    proof {
        assert(line@.subrange(0, 0) =~= Seq::<char>::empty());
        assert(fields@.map_values(|f: String| f@).push(line@.subrange(0, 0)) =~= seq![Seq::<char>::empty()]);
    }
    while i < n
        invariant
            n == line@.len(),
            start <= i <= n,
            fields@.map_values(|f: String| f@).push(line@.subrange(start as int, i as int))
                == split_on(line@.subrange(0, i as int), sep),
        decreases n - i,
    {
        let c = line.get_char(i);
        let ghost old_fields = fields@.map_values(|f: String| f@);
        let ghost cur = line@.subrange(start as int, i as int);
        proof {
            assert(line@.subrange(0, i + 1).drop_last() =~= line@.subrange(0, i as int));
            assert(line@.subrange(0, i + 1).last() == c);
        }
        if c == sep {
            let field = line.substring_char(start, i).to_owned();
            fields.push(field);
            start = i + 1;
            proof {
                assert(fields@.map_values(|f: String| f@) =~= old_fields.push(cur));
                assert(line@.subrange(start as int, i + 1) =~= Seq::<char>::empty());
            }
        } else {
            proof {
                assert(line@.subrange(start as int, i + 1) =~= cur.push(c));
                let init = old_fields.push(cur);
                assert(init.update(init.len() - 1, init.last().push(c)) =~= old_fields.push(cur.push(c)));
            }
        }
        i += 1;
    }
    let last = line.substring_char(start, n).to_owned();
    let ghost before = fields@.map_values(|f: String| f@);
    fields.push(last);
    proof {
        assert(line@.subrange(0, n as int) =~= line@);
        assert(fields@.map_values(|f: String| f@) =~= before.push(line@.subrange(start as int, n as int)));
    }
    fields
}

/// The fields of a `Start` line.
#[derive(Clone, Debug)]
pub struct ActivityStart {
    pub time_stamp: Timestamp,
    pub activity_name: String,
    pub attendance_type: String,
    pub description: String,
    pub wbs: String,
}

impl View for ActivityStart {
    type V = StartView;

    open spec fn view(&self) -> StartView {
        StartView {
            time_stamp: self.time_stamp,
            name: self.activity_name@,
            attendance: self.attendance_type@,
            description: self.description@,
            wbs: self.wbs@,
        }
    }
}

impl ActivityStart {
    pub fn time_stamp(&self) -> (r: &Timestamp)
        ensures
            *r == self.time_stamp,
    {
        &self.time_stamp
    }

    pub fn name(&self) -> (r: &str)
        ensures
            r@ == self.activity_name@,
    {
        self.activity_name.as_str()
    }

    pub fn attendance(&self) -> (r: &str)
        ensures
            r@ == self.attendance_type@,
    {
        self.attendance_type.as_str()
    }

    pub fn description(&self) -> (r: &str)
        ensures
            r@ == self.description@,
    {
        self.description.as_str()
    }

    pub fn wbs(&self) -> (r: &str)
        ensures
            r@ == self.wbs@,
    {
        self.wbs.as_str()
    }

    /// The same activity fields at another time.
    pub fn with_timestamp(&self, time_stamp: Timestamp) -> (r: ActivityStart)
        ensures
            r@ == (StartView { time_stamp, ..self@ }),
    {
        ActivityStart {
            time_stamp,
            activity_name: self.activity_name.clone(),
            attendance_type: self.attendance_type.clone(),
            description: self.description.clone(),
            wbs: self.wbs.clone(),
        }
    }
}

/// The marker that ends the running activity.
#[derive(Clone, Copy, Debug)]
pub struct ActivityEnd {
    pub time_stamp: Timestamp,
}

impl ActivityEnd {
    pub fn time_stamp(&self) -> (r: &Timestamp)
        ensures
            *r == self.time_stamp,
    {
        &self.time_stamp
    }
}

#[derive(Clone, Debug)]
pub enum ActivityEntry {
    Start(ActivityStart),
    End(ActivityEnd),
}

impl View for ActivityEntry {
    type V = EntryView;

    open spec fn view(&self) -> EntryView {
        match self {
            ActivityEntry::Start(s) => EntryView::Start(s@),
            ActivityEntry::End(e) => EntryView::End(e.time_stamp),
        }
    }
}

#[derive(Debug)]
pub enum ParseEntryError {
    MissingTime,
    MissingName,
    MissingAttendance,
    MissingWbs,
    ParseDatetime(chrono::format::ParseError),
    /// chrono read the timestamp, but it lies outside the years this log
    /// holds, has a leap second or an offset with seconds.
    TimestampOutOfRange,
}

impl ParseEntryError {
    pub open spec fn kind(&self) -> ParseErrorKind {
        match self {
            ParseEntryError::MissingTime => ParseErrorKind::MissingTime,
            ParseEntryError::MissingName => ParseErrorKind::MissingName,
            ParseEntryError::MissingAttendance => ParseErrorKind::MissingAttendance,
            ParseEntryError::MissingWbs => ParseErrorKind::MissingWbs,
            ParseEntryError::ParseDatetime(_) => ParseErrorKind::ParseDatetime,
            ParseEntryError::TimestampOutOfRange => ParseErrorKind::TimestampOutOfRange,
        }
    }
}

impl ActivityEntry {
    /// A `Start` entry at the given time.
    pub fn new_start(
        time_stamp: Timestamp,
        activity_name: &str,
        attendance_type: &str,
        wbs: &str,
        description: &str,
    ) -> (r: Self)
        ensures
            r@ == EntryView::Start(
                StartView {
                    time_stamp,
                    name: activity_name@,
                    attendance: attendance_type@,
                    description: description@,
                    wbs: wbs@,
                },
            ),
    {
        ActivityEntry::Start(
            ActivityStart {
                time_stamp,
                activity_name: activity_name.to_owned(),
                attendance_type: attendance_type.to_owned(),
                description: description.to_owned(),
                wbs: wbs.to_owned(),
            },
        )
    }

    /// An `End` entry at the given time.
    pub fn new_end(time_stamp: Timestamp) -> (r: Self)
        ensures
            r@ == EntryView::End(time_stamp),
    {
        ActivityEntry::End(ActivityEnd { time_stamp })
    }

    /// The same entry at another time.
    pub fn with_timestamp(&self, time_stamp: Timestamp) -> (r: Self)
        ensures
            r@ == match self@ {
                EntryView::Start(s) => EntryView::Start(StartView { time_stamp, ..s }),
                EntryView::End(_) => EntryView::End(time_stamp),
            },
    {
        match self {
            ActivityEntry::Start(start) => ActivityEntry::Start(start.with_timestamp(time_stamp)),
            ActivityEntry::End(_) => ActivityEntry::End(ActivityEnd { time_stamp }),
        }
    }

    pub fn time_stamp(&self) -> (r: &Timestamp)
        ensures
            *r == self@.time_stamp(),
    {
        match self {
            ActivityEntry::Start(start) => start.time_stamp(),
            ActivityEntry::End(end) => end.time_stamp(),
        }
    }

    /// A copy with the same fields.
    pub fn clone_entry(&self) -> (r: Self)
        ensures
            r@ == self@,
    {
        match self {
            ActivityEntry::Start(start) => ActivityEntry::Start(start.with_timestamp(start.time_stamp)),
            ActivityEntry::End(end) => ActivityEntry::End(ActivityEnd { time_stamp: end.time_stamp }),
        }
    }

    /// The attendance type of a `Start`; `None` for an `End`.
    pub fn attendance_type(&self) -> (r: Option<&str>)
        ensures
            match self@ {
                EntryView::Start(s) => r matches Some(a) && a@ == s.attendance,
                EntryView::End(_) => r is None,
            },
    {
        match self {
            ActivityEntry::Start(activity_start) => Some(activity_start.attendance_type.as_str()),
            ActivityEntry::End(_) => None,
        }
    }

    /// Reads one log line.
    pub fn parse_line(line: &str) -> (r: Result<Self, ParseEntryError>)
        ensures
            match r {
                Ok(e) => parse_entry_spec(line@) == Ok::<EntryView, ParseErrorKind>(e@),
                Err(err) => parse_entry_spec(line@) == Err::<EntryView, ParseErrorKind>(err.kind()),
            },
    {
        let fields = split_by(line, '\t');
        let ghost f = split_at_tabs(line@);
        proof {
            lemma_split_nonempty(line@, '\t');
            assert(fields@.len() == f.len());
            assert forall|i: int| 0 <= i < f.len() implies fields@[i]@ == f[i] by {
                assert(fields@.map_values(|s: String| s@)[i] == fields@[i]@);
            }
        }
        if fields.len() < 1 {
            return Err(ParseEntryError::MissingTime);
        }
        if fields.len() < 2 {
            return Err(ParseEntryError::MissingName);
        }
        let end_marker = END_SENTINEL.to_owned();
        let is_end = fields[1] == end_marker;
        if !is_end && fields.len() < 3 {
            return Err(ParseEntryError::MissingAttendance);
        }
        if !is_end && fields.len() < 4 {
            return Err(ParseEntryError::MissingWbs);
        }
        let time_stamp = match crate::timestamp::parse_timestamp_checked(fields[0].as_str()) {
            Ok(Some(t)) => t,
            Ok(None) => {
                return Err(ParseEntryError::TimestampOutOfRange);
            },
            Err(e) => {
                return Err(ParseEntryError::ParseDatetime(e));
            },
        };
        if is_end {
            return Ok(ActivityEntry::End(ActivityEnd { time_stamp }));
        }
        let description = if fields.len() > 4 {
            fields[4].clone()
        } else {
            String::new()
        };
        Ok(
            ActivityEntry::Start(
                ActivityStart {
                    time_stamp,
                    activity_name: fields[1].clone(),
                    attendance_type: fields[2].clone(),
                    description,
                    wbs: fields[3].clone(),
                },
            ),
        )
    }

    /// The log line for this entry. An entry that is writable reads back as
    /// itself.
    pub fn to_string(&self) -> (r: String)
        requires
            self@.time_stamp().wf(),
        ensures
            r@ == entry_text(self@),
            self@.is_writable() ==> parse_entry_spec(r@) == Ok::<EntryView, ParseErrorKind>(self@),
    {
        proof {
            reveal_strlit("\t");
            reveal_strlit("__END");
        }
        let t = self.time_stamp();
        let mut line = t.to_text();
        let ghost stamp = line@;
        match self {
            ActivityEntry::End(_) => {
                line.append("\t");
                line.append(END_SENTINEL);
                proof {
                    assert(line@ =~= stamp + tab() + END_SENTINEL@);
                    lemma_split_no_tab(stamp);
                    lemma_split_no_tab(END_SENTINEL@);
                    lemma_split_join(stamp, END_SENTINEL@);
                    assert(stamp + tab() + END_SENTINEL@ =~= stamp + seq!['\t'] + END_SENTINEL@);
                    assert(split_at_tabs(line@) =~= seq![stamp, END_SENTINEL@]);
                }
            },
            ActivityEntry::Start(s) => {
                line.append("\t");
                line.append(s.activity_name.as_str());
                line.append("\t");
                line.append(s.attendance_type.as_str());
                line.append("\t");
                line.append(s.wbs.as_str());
                line.append("\t");
                line.append(s.description.as_str());
                proof {
                    let n = s.activity_name@;
                    let a = s.attendance_type@;
                    let w = s.wbs@;
                    let d = s.description@;
                    assert(line@ =~= stamp + tab() + n + tab() + a + tab() + w + tab() + d);
                    if self@.is_writable() {
                        lemma_split_no_tab(stamp);
                        lemma_split_no_tab(n);
                        lemma_split_no_tab(a);
                        lemma_split_no_tab(w);
                        lemma_split_no_tab(d);
                        lemma_split_join(w, d);
                        let wd = w + seq!['\t'] + d;
                        lemma_split_join(a, wd);
                        let awd = a + seq!['\t'] + wd;
                        lemma_split_join(n, awd);
                        let nawd = n + seq!['\t'] + awd;
                        lemma_split_join(stamp, nawd);
                        assert(line@ =~= stamp + seq!['\t'] + nawd);
                        assert(split_at_tabs(line@) =~= seq![stamp, n, a, w, d]);
                    }
                }
            },
        }
        line
    }
}

} // verus!

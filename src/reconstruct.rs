//! Rebuilding intervals from log entries read backwards from the end of the
//! log.
//!
//! Two queries exist. The tail query ("last n") pairs each `Start` with the
//! timestamp of the entry after it, splits the interval at local midnight and
//! keeps the newest `n` pieces. The range query ("since t") collects entries
//! back to the first one at or before `t` and replays them in order.
//!
//! Both are offered as scanners that take one entry at a time, so that the
//! caller can stop reading the log as soon as a scanner has what it needs,
//! and as plain functions over a list of entries.

use crate::entry::{ActivityEntry, ActivityStart, EntryView, StartView};
use crate::interval::{split_spec, ActivityView, TrackedActivity};
use crate::timestamp::Timestamp;
use vstd::prelude::*;

verus! {

/// The first `n` elements, or all of them where there are fewer.
pub open spec fn first_n<A>(s: Seq<A>, n: int) -> Seq<A> {
    if 0 <= n < s.len() {
        s.subrange(0, n)
    } else {
        s
    }
}

pub open spec fn entries_wf(entries: Seq<EntryView>) -> bool {
    forall|j: int| 0 <= j < entries.len() ==> (#[trigger] entries[j]).time_stamp().wf()
}

/// The pieces that the entry at index `j` (counting from the newest) adds to
/// a tail query, newest first. A `Start` ends where the next newer entry
/// begins; the newest entry, if a `Start`, is still running.
pub open spec fn tail_pieces(entries: Seq<EntryView>, j: int, now: Timestamp) -> Seq<ActivityView> {
    match entries[j] {
        EntryView::Start(s) => split_spec(
            s,
            if j == 0 {
                None
            } else {
                Some(entries[j - 1].time_stamp())
            },
            now,
        ).reverse(),
        EntryView::End(_) => Seq::empty(),
    }
}

/// The pieces of the `n` newest entries, newest first.
pub open spec fn tail_scan(entries: Seq<EntryView>, n: int, now: Timestamp) -> Seq<ActivityView>
    decreases n,
{
    if n <= 0 {
        Seq::empty()
    } else {
        tail_scan(entries, n - 1, now) + tail_pieces(entries, n - 1, now)
    }
}

/// The newest `count` pieces of the log whose entries are given newest
/// first, in chronological order.
pub open spec fn last_n_spec(entries: Seq<EntryView>, count: int, now: Timestamp) -> Seq<ActivityView> {
    first_n(tail_scan(entries, entries.len() as int, now), count).reverse()
}

proof fn lemma_tail_scan_push(entries: Seq<EntryView>, e: EntryView, n: int, now: Timestamp)
    requires
        0 <= n <= entries.len(),
    ensures
        tail_scan(entries.push(e), n, now) == tail_scan(entries, n, now),
    decreases n,
{
    if n > 0 {
        lemma_tail_scan_push(entries, e, n - 1, now);
        assert(entries.push(e)[n - 1] == entries[n - 1]);
        if n > 1 {
            assert(entries.push(e)[n - 2] == entries[n - 2]);
        }
        assert(tail_pieces(entries.push(e), n - 1, now) == tail_pieces(entries, n - 1, now));
    }
}

proof fn lemma_first_n_append<A>(x: Seq<A>, y: Seq<A>, c: int)
    requires
        0 <= c,
    ensures
        x.len() < c ==> first_n(x + y, c) == x + first_n(y, c - x.len()),
        x.len() >= c ==> first_n(x + y, c) == first_n(x, c),
{
    if x.len() < c {
        if c - x.len() < y.len() {
            assert((x + y).subrange(0, c) =~= x + y.subrange(0, c - x.len()));
        }
    } else {
        assert((x + y).subrange(0, c) =~= x.subrange(0, c));
    }
}

/// A tail query fed one entry at a time, newest first.
pub struct TailScan {
    count: usize,
    now: Timestamp,
    newest_first: Vec<TrackedActivity>,
    last_timestamp: Option<Timestamp>,
    seen: Ghost<Seq<EntryView>>,
}

impl TailScan {
    /// The entries taken so far, newest first.
    pub closed spec fn seen(&self) -> Seq<EntryView> {
        self.seen@
    }

    pub closed spec fn count(&self) -> int {
        self.count as int
    }

    pub closed spec fn now(&self) -> Timestamp {
        self.now
    }

    pub closed spec fn wf(&self) -> bool {
        &&& self.now.wf()
        &&& entries_wf(self.seen@)
        &&& self.newest_first@.map_values(|a: TrackedActivity| a@) == first_n(
            tail_scan(self.seen@, self.seen@.len() as int, self.now),
            self.count as int,
        )
        &&& self.last_timestamp == if self.seen@.len() == 0 {
            None
        } else {
            Some(self.seen@.last().time_stamp())
        }
    }

    /// A scan for the newest `count` pieces; running activities are measured
    /// up to `now`.
    pub fn new(count: usize, now: Timestamp) -> (r: Self)
        requires
            now.wf(),
        ensures
            r.wf(),
            r.seen() == Seq::<EntryView>::empty(),
            r.count() == count,
            r.now() == now,
    {
        let r = TailScan { count, now, newest_first: Vec::new(), last_timestamp: None, seen: Ghost(Seq::empty()) };
        proof {
            assert(r.newest_first@.map_values(|a: TrackedActivity| a@) =~= Seq::<ActivityView>::empty());
        }
        r
    }

    /// Whether fewer than `count` pieces have been found.
    pub fn wants_more(&self) -> (r: bool)
        requires
            self.wf(),
        ensures
            r == (tail_scan(self.seen(), self.seen().len() as int, self.now()).len() < self.count()),
    {
        proof {
            assert(self.newest_first@.map_values(|a: TrackedActivity| a@).len() == self.newest_first@.len());
        }
        self.newest_first.len() < self.count
    }

    /// Takes the next older entry.
    pub fn push_entry(&mut self, entry: ActivityEntry)
        requires
            old(self).wf(),
            entry@.time_stamp().wf(),
        ensures
            final(self).wf(),
            final(self).seen() == old(self).seen().push(entry@),
            final(self).count() == old(self).count(),
            final(self).now() == old(self).now(),
    {
        let ghost old_seen = self.seen@;
        let ghost n = old_seen.len() as int;
        let ghost new_seen = old_seen.push(entry@);
        let ghost scan_before = tail_scan(old_seen, n, self.now);
        let ghost list_before = self.newest_first@.map_values(|a: TrackedActivity| a@);
        let end_timestamp = self.last_timestamp;
        self.last_timestamp = Some(*entry.time_stamp());
        self.seen = Ghost(new_seen);
        proof {
            lemma_tail_scan_push(old_seen, entry@, n, self.now);
            assert(new_seen[n] == entry@);
            if n > 0 {
                assert(new_seen[n - 1] == old_seen.last());
            }
            assert(tail_scan(new_seen, n + 1, self.now) == scan_before + tail_pieces(new_seen, n, self.now));
            assert forall|j: int| 0 <= j < new_seen.len() implies (#[trigger] new_seen[j]).time_stamp().wf() by {
                if j < n {
                    assert(new_seen[j] == old_seen[j]);
                }
            }
        }
        match entry {
            ActivityEntry::Start(start_entry) => {
                let activity = TrackedActivity::new(start_entry, end_timestamp);
                let mut pieces = activity.midnight_pieces(self.now);
                let ghost all = pieces@.map_values(|a: TrackedActivity| a@);
                let ghost rev = all.reverse();
                proof {
                    assert(tail_pieces(new_seen, n, self.now) == rev);
                    lemma_first_n_append(scan_before, rev, self.count as int);
                }
                let ghost mut taken: int = 0;
                let ghost c0 = self.count;
                let ghost now0 = self.now;
                let ghost last0 = self.last_timestamp;
                proof {
                    assert(list_before.len() == self.newest_first@.len());
                }
                while self.newest_first.len() < self.count
                    invariant
                        0 <= taken <= all.len(),
                        self.count == c0,
                        self.now == now0,
                        self.last_timestamp == last0,
                        self.seen@ == new_seen,
                        self.newest_first@.len() == list_before.len() + taken,
                        self.newest_first@.len() <= c0,
                        list_before.len() >= c0 ==> taken == 0,
                        pieces@.map_values(|a: TrackedActivity| a@) == all.subrange(0, all.len() - taken),
                        self.newest_first@.map_values(|a: TrackedActivity| a@) == list_before + rev.subrange(0, taken),
                        list_before == first_n(scan_before, self.count as int),
                        rev == all.reverse(),
                    ensures
                        self.newest_first@.map_values(|a: TrackedActivity| a@) == list_before + rev.subrange(0, taken),
                        0 <= taken <= all.len(),
                        self.count == c0,
                        self.now == now0,
                        self.last_timestamp == last0,
                        self.seen@ == new_seen,
                        self.newest_first@.len() == list_before.len() + taken,
                        self.newest_first@.len() <= c0,
                        list_before.len() >= c0 ==> taken == 0,
                        taken == all.len() || self.newest_first.len() >= self.count,
                    decreases all.len() - taken,
                {
                    let ghost before_pieces = pieces@.map_values(|a: TrackedActivity| a@);
                    let ghost raw = pieces@;
                    match pieces.pop() {
                        Some(p) => {
                            let ghost before_list = self.newest_first@.map_values(|a: TrackedActivity| a@);
                            self.newest_first.push(p);
                            proof {
                                assert(before_pieces.len() == all.len() - taken);
                                assert(p == raw.last());
                                assert(before_pieces[raw.len() - 1] == raw[raw.len() - 1]@);
                                assert(p@ == all[all.len() - taken - 1]);
                                assert(rev[taken] == all[all.len() - 1 - taken]);
                                assert(self.newest_first@.map_values(|a: TrackedActivity| a@) =~= before_list.push(p@));
                                assert(rev.subrange(0, taken + 1) =~= rev.subrange(0, taken).push(rev[taken]));
                                assert(pieces@.map_values(|a: TrackedActivity| a@) =~= all.subrange(0, all.len() - taken - 1));
                                taken = taken + 1;
                            }
                        },
                        None => {
                            proof {
                                assert(before_pieces.len() == 0);
                            }
                            break;
                        },
                    }
                }
                proof {
                    let c = self.count as int;
                    let list = self.newest_first@.map_values(|a: TrackedActivity| a@);
                    assert(list.len() == self.newest_first@.len());
                    if scan_before.len() < c {
                        assert(list_before == scan_before);
                        if taken == all.len() {
                            assert(rev.subrange(0, taken) =~= rev);
                        } else {
                            assert(list.len() == c);
                        }
                        assert(first_n(rev, c - scan_before.len()) =~= rev.subrange(0, taken));
                    } else {
                        assert(list_before.len() == c);
                        assert(taken == 0);
                        assert(list =~= list_before);
                    }
                }
            },
            ActivityEntry::End(_) => {
                proof {
                    assert(tail_pieces(new_seen, n, self.now) =~= Seq::<ActivityView>::empty());
                    assert(scan_before + Seq::<ActivityView>::empty() =~= scan_before);
                }
            },
        }
    }

    /// The pieces found, in chronological order.
    pub fn finish(self) -> (r: Vec<TrackedActivity>)
        requires
            self.wf(),
        ensures
            r@.map_values(|a: TrackedActivity| a@) == last_n_spec(self.seen(), self.count(), self.now()),
    {
        let mut src = self.newest_first;
        let ghost all = src@.map_values(|a: TrackedActivity| a@);
        let mut out: Vec<TrackedActivity> = Vec::new();
        while src.len() > 0
            invariant
                src@.len() <= all.len(),
                src@.map_values(|a: TrackedActivity| a@) == all.subrange(0, src@.len() as int),
                out@.map_values(|a: TrackedActivity| a@) == all.reverse().subrange(0, all.len() - src@.len()),
            decreases src.len(),
        {
            let ghost k = src@.len() as int;
            let ghost before = out@.map_values(|a: TrackedActivity| a@);
            let ghost raw = src@;
            let p = src.pop().unwrap();
            proof {
                assert(p == raw.last());
                assert(raw.map_values(|a: TrackedActivity| a@)[k - 1] == raw[k - 1]@);
            }
            out.push(p);
            proof {
                assert(p@ == all[k - 1]);
                assert(all.reverse()[all.len() - k] == all[k - 1]);
                assert(out@.map_values(|a: TrackedActivity| a@) =~= before.push(p@));
                assert(all.reverse().subrange(0, all.len() - k + 1) =~= all.reverse().subrange(0, all.len() - k).push(
                    all[k - 1],
                ));
                assert(src@.map_values(|a: TrackedActivity| a@) =~= all.subrange(0, k - 1));
            }
        }
        proof {
            assert(all.reverse().subrange(0, all.len() as int) =~= all.reverse());
        }
        out
    }
}

/// The newest `count` pieces of the log whose entries are given newest
/// first, in chronological order; the newest entry, if a `Start`, is
/// measured up to `now`.
pub fn last_n_activities(entries_newest_first: &Vec<ActivityEntry>, count: usize, now: Timestamp) -> (r: Vec<TrackedActivity>)
    requires
        entries_wf(entries_newest_first@.map_values(|e: ActivityEntry| e@)),
        now.wf(),
    ensures
        r@.map_values(|a: TrackedActivity| a@) == last_n_spec(
            entries_newest_first@.map_values(|e: ActivityEntry| e@),
            count as int,
            now,
        ),
{
    let ghost es = entries_newest_first@.map_values(|e: ActivityEntry| e@);
    let mut scan = TailScan::new(count, now);
    let mut i: usize = 0;
    while i < entries_newest_first.len()
        invariant
            i <= entries_newest_first.len(),
            es == entries_newest_first@.map_values(|e: ActivityEntry| e@),
            entries_wf(es),
            scan.wf(),
            scan.seen() == es.subrange(0, i as int),
            scan.count() == count,
            scan.now() == now,
        decreases entries_newest_first.len() - i,
    {
        let entry = entries_newest_first[i].clone_entry();
        proof {
            assert(es[i as int] == entries_newest_first@[i as int]@);
        }
        scan.push_entry(entry);
        proof {
            assert(es.subrange(0, i + 1) =~= es.subrange(0, i as int).push(es[i as int]));
        }
        i += 1;
    }
    proof {
        assert(es.subrange(0, i as int) =~= es);
    }
    scan.finish()
}

/// Whether the collected entries reach back to `start_time`: the oldest
/// one lies at or before it.
pub open spec fn reaches(collected: Seq<EntryView>, start_time: Timestamp) -> bool {
    collected.len() > 0 && collected.last().time_stamp().instant() <= start_time.instant()
}

/// The entries (newest first) that a range query reads: all of them back to
/// and including the first one at or before `start_time`, so that an
/// activity already running at `start_time` is seen.
pub open spec fn entries_since_spec(entries: Seq<EntryView>, start_time: Timestamp) -> Seq<EntryView>
    decreases entries.len(),
{
    if entries.len() == 0 {
        Seq::empty()
    } else {
        let p = entries_since_spec(entries.drop_last(), start_time);
        if reaches(p, start_time) {
            p
        } else {
            p.push(entries.last())
        }
    }
}

/// Whether a piece is kept by a range query: it ends at or after the start of
/// the range, or is still running.
pub open spec fn ends_in_range(p: ActivityView, start_time: Timestamp) -> bool {
    match p.end {
        Some(e) => start_time.instant() <= e.instant(),
        None => true,
    }
}

pub open spec fn in_range(start_time: Timestamp) -> spec_fn(ActivityView) -> bool {
    |p: ActivityView| ends_in_range(p, start_time)
}

/// The pieces between the entry at index `i - 1` and the one at `i`
/// (chronological indices): the interval of a `Start`, split at midnight,
/// without the pieces that end before `start_time`.
pub open spec fn since_pieces(entries: Seq<EntryView>, i: int, start_time: Timestamp) -> Seq<ActivityView> {
    match entries[i - 1] {
        EntryView::Start(s) => split_spec(s, Some(entries[i].time_stamp()), entries[i].time_stamp()).filter(
            in_range(start_time)),
        EntryView::End(_) => Seq::empty(),
    }
}

/// The completed pieces among the first `n` entries (chronological).
pub open spec fn since_scan(entries: Seq<EntryView>, n: int, start_time: Timestamp) -> Seq<ActivityView>
    decreases n,
{
    if n <= 1 {
        Seq::empty()
    } else {
        since_scan(entries, n - 1, start_time) + since_pieces(entries, n - 1, start_time)
    }
}

/// What a range query yields for entries given oldest first: the completed
/// pieces that reach into the range, then the last `Start`, if it is the
/// newest entry, as a running activity.
pub open spec fn activities_since_spec(entries: Seq<EntryView>, start_time: Timestamp) -> Seq<ActivityView> {
    let done = since_scan(entries, entries.len() as int, start_time);
    if entries.len() > 0 {
        match entries.last() {
            EntryView::Start(s) => done.push(ActivityView { start: s, end: None }),
            EntryView::End(_) => done,
        }
    } else {
        done
    }
}

/// The entry collection of a range query, fed one entry at a time, newest
/// first.
pub struct EntriesSince {
    start_time: Timestamp,
    newest_first: Vec<ActivityEntry>,
    seen: Ghost<Seq<EntryView>>,
}

impl EntriesSince {
    /// The entries offered so far, newest first.
    pub closed spec fn seen(&self) -> Seq<EntryView> {
        self.seen@
    }

    pub closed spec fn start_time(&self) -> Timestamp {
        self.start_time
    }

    pub closed spec fn wf(&self) -> bool {
        self.newest_first@.map_values(|e: ActivityEntry| e@) == entries_since_spec(self.seen@, self.start_time)
    }

    pub fn new(start_time: Timestamp) -> (r: Self)
        ensures
            r.wf(),
            r.seen() == Seq::<EntryView>::empty(),
            r.start_time() == start_time,
    {
        let r = EntriesSince { start_time, newest_first: Vec::new(), seen: Ghost(Seq::empty()) };
        proof {
            assert(r.newest_first@.map_values(|e: ActivityEntry| e@) =~= Seq::<EntryView>::empty());
        }
        r
    }

    /// Whether the entries do not yet reach back to the start of the range.
    pub fn wants_more(&self) -> (r: bool)
        requires
            self.wf(),
        ensures
            r == !reaches(entries_since_spec(self.seen(), self.start_time()), self.start_time()),
    {
        let n = self.newest_first.len();
        proof {
            assert(self.newest_first@.map_values(|e: ActivityEntry| e@).len() == n);
        }
        if n == 0 {
            true
        } else {
            proof {
                assert(self.newest_first@.map_values(|e: ActivityEntry| e@)[n - 1] == self.newest_first@[n - 1]@);
            }
            !self.newest_first[n - 1].time_stamp().not_after(&self.start_time)
        }
    }

    /// Offers the next older entry; it is kept while more are wanted.
    pub fn push_entry(&mut self, entry: ActivityEntry)
        requires
            old(self).wf(),
        ensures
            final(self).wf(),
            final(self).seen() == old(self).seen().push(entry@),
            final(self).start_time() == old(self).start_time(),
    {
        let ghost new_seen = self.seen@.push(entry@);
        proof {
            assert(new_seen.drop_last() =~= self.seen@);
        }
        if self.wants_more() {
            let ghost before = self.newest_first@.map_values(|e: ActivityEntry| e@);
            self.newest_first.push(entry);
            proof {
                assert(self.newest_first@.map_values(|e: ActivityEntry| e@) =~= before.push(new_seen.last()));
            }
        }
        self.seen = Ghost(new_seen);
    }

    /// The collected entries, oldest first.
    pub fn finish(self) -> (r: Vec<ActivityEntry>)
        requires
            self.wf(),
        ensures
            r@.map_values(|e: ActivityEntry| e@) == entries_since_spec(self.seen(), self.start_time()).reverse(),
    {
        let mut src = self.newest_first;
        let ghost all = src@.map_values(|e: ActivityEntry| e@);
        let mut out: Vec<ActivityEntry> = Vec::new();
        while src.len() > 0
            invariant
                src@.len() <= all.len(),
                src@.map_values(|e: ActivityEntry| e@) == all.subrange(0, src@.len() as int),
                out@.map_values(|e: ActivityEntry| e@) == all.reverse().subrange(0, all.len() - src@.len()),
            decreases src.len(),
        {
            let ghost k = src@.len() as int;
            let ghost before = out@.map_values(|e: ActivityEntry| e@);
            let ghost raw = src@;
            let e = src.pop().unwrap();
            proof {
                assert(e == raw.last());
                assert(raw.map_values(|e: ActivityEntry| e@)[k - 1] == raw[k - 1]@);
            }
            out.push(e);
            proof {
                assert(all.reverse()[all.len() - k] == all[k - 1]);
                assert(out@.map_values(|e: ActivityEntry| e@) =~= before.push(all[k - 1]));
                assert(all.reverse().subrange(0, all.len() - k + 1) =~= all.reverse().subrange(0, all.len() - k).push(
                    all[k - 1],
                ));
                assert(src@.map_values(|e: ActivityEntry| e@) =~= all.subrange(0, k - 1));
            }
        }
        proof {
            assert(all.reverse().subrange(0, all.len() as int) =~= all.reverse());
        }
        out
    }
}

/// The entries (newest first) that a range query reads, oldest first.
pub fn backwards_entries_since(entries_newest_first: &Vec<ActivityEntry>, start_time: Timestamp) -> (r: Vec<ActivityEntry>)
    ensures
        r@.map_values(|e: ActivityEntry| e@) == entries_since_spec(
            entries_newest_first@.map_values(|e: ActivityEntry| e@),
            start_time,
        ).reverse(),
{
    let ghost es = entries_newest_first@.map_values(|e: ActivityEntry| e@);
    let mut scan = EntriesSince::new(start_time);
    let mut i: usize = 0;
    while i < entries_newest_first.len()
        invariant
            i <= entries_newest_first.len(),
            es == entries_newest_first@.map_values(|e: ActivityEntry| e@),
            scan.wf(),
            scan.seen() == es.subrange(0, i as int),
            scan.start_time() == start_time,
        decreases entries_newest_first.len() - i,
    {
        let entry = entries_newest_first[i].clone_entry();
        proof {
            assert(es[i as int] == entries_newest_first@[i as int]@);
        }
        scan.push_entry(entry);
        proof {
            assert(es.subrange(0, i + 1) =~= es.subrange(0, i as int).push(es[i as int]));
        }
        i += 1;
    }
    proof {
        assert(es.subrange(0, i as int) =~= es);
    }
    scan.finish()
}

/// Replays entries given oldest first: each `Start` followed by another
/// entry becomes a completed interval, split at midnight, of which the pieces
/// that end before `start_time` are dropped; a `Start` that is the newest
/// entry becomes a running activity.
pub fn activities_since(entries_oldest_first: &Vec<ActivityEntry>, start_time: Timestamp) -> (r: Vec<TrackedActivity>)
    requires
        entries_wf(entries_oldest_first@.map_values(|e: ActivityEntry| e@)),
    ensures
        r@.map_values(|a: TrackedActivity| a@) == activities_since_spec(
            entries_oldest_first@.map_values(|e: ActivityEntry| e@),
            start_time,
        ),
{
    let ghost es = entries_oldest_first@.map_values(|e: ActivityEntry| e@);
    let mut activities: Vec<TrackedActivity> = Vec::new();
    let mut last_activity_start: Option<ActivityStart> = None;
    let mut i: usize = 0;
    while i < entries_oldest_first.len()
        invariant
            i <= entries_oldest_first.len(),
            es == entries_oldest_first@.map_values(|e: ActivityEntry| e@),
            entries_wf(es),
            activities@.map_values(|a: TrackedActivity| a@) == since_scan(es, i as int, start_time),
            i == 0 ==> last_activity_start is None,
            i > 0 ==> match es[i - 1] {
                EntryView::Start(s) => last_activity_start matches Some(l) && l@ == s,
                EntryView::End(_) => last_activity_start is None,
            },
        decreases entries_oldest_first.len() - i,
    {
        let entry = &entries_oldest_first[i];
        proof {
            assert(es[i as int] == entry@);
            assert(entry@.time_stamp().wf());
        }
        let ghost before = activities@.map_values(|a: TrackedActivity| a@);
        let t = *entry.time_stamp();
        match last_activity_start {
            Some(last) => {
                proof {
                    assert(es[i - 1].time_stamp().wf());
                }
                let completed = TrackedActivity::new_completed(last, t);
                let pieces = completed.midnight_pieces(t);
                let ghost all = pieces@.map_values(|a: TrackedActivity| a@);
                let mut k: usize = 0;
                while k < pieces.len()
                    invariant
                        k <= pieces.len(),
                        all == pieces@.map_values(|a: TrackedActivity| a@),
                        activities@.map_values(|a: TrackedActivity| a@) == before + all.subrange(0, k as int).filter(in_range(start_time)),
                    decreases pieces.len() - k,
                {
                    let piece = &pieces[k];
                    proof {
                        assert(all[k as int] == piece@);
                        assert(all.subrange(0, k + 1).drop_last() =~= all.subrange(0, k as int));
                        assert(all.subrange(0, k + 1).last() == piece@);
                    }
                    let keep = match piece.end_time() {
                        Some(e) => start_time.not_after(e),
                        None => true,
                    };
                    proof {
                        assert(keep == ends_in_range(piece@, start_time));
                        let sub = all.subrange(0, k + 1);
                        assert(sub.len() > 0);
                        assert(sub.drop_last() =~= all.subrange(0, k as int));
                        assert(sub.last() == piece@);
                        assert(all.subrange(0, k as int).push(piece@) =~= sub);
                        all.subrange(0, k as int).lemma_filter_push(piece@, in_range(start_time));
                        assert(sub.filter(in_range(start_time)) == if in_range(start_time)(piece@) {
                            all.subrange(0, k as int).filter(in_range(start_time)).push(piece@)
                        } else {
                            all.subrange(0, k as int).filter(in_range(start_time))
                        });
                    }
                    if keep {
                        let ghost prev = activities@.map_values(|a: TrackedActivity| a@);
                        activities.push(piece.duplicate());
                        proof {
                            assert(activities@.map_values(|a: TrackedActivity| a@) =~= prev.push(piece@));
                        }
                    }
                    k += 1;
                }
                proof {
                    assert(all.subrange(0, pieces.len() as int) =~= all);
                    assert(since_pieces(es, i as int, start_time) == all.filter(in_range(start_time)));
                }
            },
            None => {
                proof {
                    if i > 0 {
                        assert(since_pieces(es, i as int, start_time) =~= Seq::<ActivityView>::empty());
                    }
                    assert(before + Seq::<ActivityView>::empty() =~= before);
                }
            },
        }
        last_activity_start = match entry {
            ActivityEntry::Start(activity_start) => Some(activity_start.with_timestamp(activity_start.time_stamp)),
            ActivityEntry::End(_) => None,
        };
        i += 1;
    }
    match last_activity_start {
        Some(last) => {
            let ghost before = activities@.map_values(|a: TrackedActivity| a@);
            activities.push(TrackedActivity::new_ongoing(last));
            proof {
                assert(activities@.map_values(|a: TrackedActivity| a@) =~= before.push(
                    activities@[activities@.len() - 1]@,
                ));
            }
        },
        None => {},
    }
    activities
}

} // verus!

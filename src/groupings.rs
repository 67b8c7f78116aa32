//! Daily totals per key ("collapsed" activities) and attendance ranges.

use crate::entry::{stamp_text, tab};
use crate::entry::StartView;
use crate::interval::{cut_count, end_text, lemma_split_conserves_duration, split_spec, ActivityView, TrackedActivity};
use vstd::string::StringExecFns;
use crate::timestamp::{nanos_between, Timestamp};
use vstd::prelude::*;

verus! {

/// What pieces are grouped by: WBS, attendance type, description and local
/// calendar day.
pub struct GroupKey {
    pub wbs: Seq<char>,
    pub attendance: Seq<char>,
    pub description: Seq<char>,
    pub day: int,
}

pub open spec fn key_of(p: ActivityView) -> GroupKey {
    GroupKey {
        wbs: p.start.wbs,
        attendance: p.start.attendance,
        description: p.start.description,
        day: p.start_time().local_day(),
    }
}

/// All pieces of the given intervals, in order.
pub open spec fn all_pieces(acts: Seq<ActivityView>, fallback: Timestamp) -> Seq<ActivityView>
    decreases acts.len(),
{
    if acts.len() == 0 {
        Seq::empty()
    } else {
        all_pieces(acts.drop_last(), fallback) + split_spec(acts.last().start, acts.last().end, fallback)
    }
}

pub open spec fn has_key(pieces: Seq<ActivityView>, key: GroupKey) -> bool {
    exists|j: int| 0 <= j < pieces.len() && key_of(#[trigger] pieces[j]) == key
}

/// Total length of the pieces with the given key.
pub open spec fn group_sum(pieces: Seq<ActivityView>, key: GroupKey, fallback: Timestamp) -> int
    decreases pieces.len(),
{
    if pieces.len() == 0 {
        0
    } else {
        group_sum(pieces.drop_last(), key, fallback) + if key_of(pieces.last()) == key {
            pieces.last().duration(fallback)
        } else {
            0
        }
    }
}

/// The start of the first piece with the given key.
pub open spec fn first_start(pieces: Seq<ActivityView>, key: GroupKey) -> Timestamp
    decreases pieces.len(),
{
    if pieces.len() == 0 {
        arbitrary()
    } else if has_key(pieces.drop_last(), key) {
        first_start(pieces.drop_last(), key)
    } else {
        pieces.last().start_time()
    }
}

pub open spec fn abs(x: int) -> int {
    if x < 0 {
        -x
    } else {
        x
    }
}

/// Sum of the absolute lengths of the pieces.
pub open spec fn abs_total(pieces: Seq<ActivityView>, fallback: Timestamp) -> int
    decreases pieces.len(),
{
    if pieces.len() == 0 {
        0
    } else {
        abs_total(pieces.drop_last(), fallback) + abs(pieces.last().duration(fallback))
    }
}

proof fn lemma_abs_total_prefix(pieces: Seq<ActivityView>, j: int, fallback: Timestamp)
    requires
        0 <= j <= pieces.len(),
    ensures
        0 <= abs_total(pieces.subrange(0, j), fallback) <= abs_total(pieces, fallback),
    decreases pieces.len() - j,
{
    if j < pieces.len() {
        lemma_abs_total_prefix(pieces, j + 1, fallback);
        let s = pieces.subrange(0, j + 1);
        assert(s.drop_last() =~= pieces.subrange(0, j));
        lemma_abs_total_nonneg(pieces.subrange(0, j), fallback);
    } else {
        assert(pieces.subrange(0, j) =~= pieces);
        lemma_abs_total_nonneg(pieces, fallback);
    }
}

proof fn lemma_abs_total_nonneg(pieces: Seq<ActivityView>, fallback: Timestamp)
    ensures
        abs_total(pieces, fallback) >= 0,
    decreases pieces.len(),
{
    if pieces.len() > 0 {
        lemma_abs_total_nonneg(pieces.drop_last(), fallback);
    }
}

proof fn lemma_group_sum_absent(pieces: Seq<ActivityView>, key: GroupKey, fallback: Timestamp)
    requires
        !has_key(pieces, key),
    ensures
        group_sum(pieces, key, fallback) == 0,
    decreases pieces.len(),
{
    if pieces.len() > 0 {
        let p = pieces.drop_last();
        assert(!has_key(p, key)) by {
            if has_key(p, key) {
                let j = choose|j: int| 0 <= j < p.len() && key_of(#[trigger] p[j]) == key;
                assert(pieces[j] == p[j]);
            }
        }
        assert(key_of(pieces[pieces.len() - 1]) != key);
        lemma_group_sum_absent(p, key, fallback);
    }
}

/// Pieces grouped under one key for one day.
#[derive(Clone, Debug)]
pub struct CollapsedActivity {
    pub attendance_type: String,
    pub description: String,
    /// Total length in nanoseconds.
    pub duration: i128,
    pub start_of_first: Timestamp,
    pub wbs: String,
}

pub struct CollapsedView {
    pub attendance: Seq<char>,
    pub description: Seq<char>,
    pub duration: int,
    pub start_of_first: Timestamp,
    pub wbs: Seq<char>,
}

impl View for CollapsedActivity {
    type V = CollapsedView;

    open spec fn view(&self) -> CollapsedView {
        CollapsedView {
            attendance: self.attendance_type@,
            description: self.description@,
            duration: self.duration as int,
            start_of_first: self.start_of_first,
            wbs: self.wbs@,
        }
    }
}

impl CollapsedView {
    pub open spec fn key(self) -> GroupKey {
        GroupKey {
            wbs: self.wbs,
            attendance: self.attendance,
            description: self.description,
            day: self.start_of_first.local_day(),
        }
    }
}

impl CollapsedActivity {
    pub fn attendance(&self) -> (r: &str)
        ensures
            r@ == self.attendance_type@,
    {
        self.attendance_type.as_str()
    }

    pub fn description(&self) -> (r: &str)
        ensures
            r@ == self.description@,
    {
        self.description.as_str()
    }

    /// Total length in nanoseconds.
    pub fn duration(&self) -> (r: i128)
        ensures
            r == self.duration,
    {
        self.duration
    }

    pub fn start_time(&self) -> (r: Timestamp)
        ensures
            r == self.start_of_first,
    {
        self.start_of_first
    }

    pub fn wbs(&self) -> (r: &str)
        ensures
            r@ == self.wbs@,
    {
        self.wbs.as_str()
    }
}

/// The groups that collapsing yields: one per key among the pieces, each
/// with the total length and the first start of its pieces, in order of
/// that start.
#[verifier::opaque]
pub open spec fn is_collapse_of(r: Seq<CollapsedView>, pieces: Seq<ActivityView>, fallback: Timestamp) -> bool {
    &&& forall|a: int, b: int| 0 <= a < b < r.len() ==> (#[trigger] r[a]).key() != (#[trigger] r[b]).key()
    &&& forall|a: int|
        0 <= a < r.len() ==> {
            &&& has_key(pieces, (#[trigger] r[a]).key())
            &&& r[a].duration == group_sum(pieces, r[a].key(), fallback)
            &&& r[a].start_of_first == first_start(pieces, r[a].key())
        }
    &&& forall|j: int| 0 <= j < pieces.len() ==> exists|a: int| 0 <= a < r.len() && (#[trigger] r[a]).key() == key_of(#[trigger] pieces[j])
    &&& forall|a: int, b: int|
        0 <= a < b < r.len() ==> (#[trigger] r[a]).start_of_first.instant() <= (#[trigger] r[b]).start_of_first.instant()
}

/// The index of the group with the key of `p`, if there is one.
fn find_group(groups: &Vec<CollapsedActivity>, p: &TrackedActivity) -> (r: Option<usize>)
    requires
        p@.wf(),
        forall|a: int| 0 <= a < groups@.len() ==> (#[trigger] groups@[a]).start_of_first.wf(),
    ensures
        match r {
            Some(i) => i < groups@.len() && groups@[i as int]@.key() == key_of(p@),
            None => forall|a: int| 0 <= a < groups@.len() ==> (#[trigger] groups@[a])@.key() != key_of(p@),
        },
{
    let day = p.start_time().local_day_number();
    let mut g: usize = 0;
    while g < groups.len()
        invariant
            g <= groups@.len(),
            p@.wf(),
            day == p@.start_time().local_day(),
            forall|a: int| 0 <= a < groups@.len() ==> (#[trigger] groups@[a]).start_of_first.wf(),
            forall|a: int| 0 <= a < g ==> (#[trigger] groups@[a])@.key() != key_of(p@),
        decreases groups.len() - g,
    {
        let c = &groups[g];
        if c.wbs == p.start_entry.wbs && c.attendance_type == p.start_entry.attendance_type && c.description
            == p.start_entry.description && c.start_of_first.local_day_number() == day {
            return Some(g);
        }
        g += 1;
    }
    None
}

/// Where a group starting at `t` goes: after every group that starts no
/// later.
fn find_slot(groups: &Vec<CollapsedActivity>, t: &Timestamp) -> (r: usize)
    requires
        forall|a: int, b: int|
            0 <= a < b < groups@.len() ==> (#[trigger] groups@[a]).start_of_first.instant()
                <= (#[trigger] groups@[b]).start_of_first.instant(),
    ensures
        r <= groups@.len(),
        forall|a: int| 0 <= a < r ==> (#[trigger] groups@[a]).start_of_first.instant() <= t.instant(),
        forall|a: int| r <= a < groups@.len() ==> (#[trigger] groups@[a]).start_of_first.instant() > t.instant(),
{
    let mut g: usize = 0;
    while g < groups.len()
        invariant
            g <= groups@.len(),
            forall|a: int| 0 <= a < g ==> (#[trigger] groups@[a]).start_of_first.instant() <= t.instant(),
            forall|a: int, b: int|
                0 <= a < b < groups@.len() ==> (#[trigger] groups@[a]).start_of_first.instant()
                    <= (#[trigger] groups@[b]).start_of_first.instant(),
        decreases groups.len() - g,
    {
        if !groups[g].start_of_first.not_after(t) {
            proof {
                assert forall|a: int| g <= a < groups@.len() implies (#[trigger] groups@[a]).start_of_first.instant() > t.instant() by {
                    if a > g {
                        assert(groups@[g as int].start_of_first.instant() <= groups@[a].start_of_first.instant());
                    }
                }
            }
            return g;
        }
        g += 1;
    }
    g
}

proof fn lemma_collapse_sorted(gv: Seq<CollapsedView>, done: Seq<ActivityView>, fallback: Timestamp)
    requires
        is_collapse_of(gv, done, fallback),
    ensures
        forall|a: int, b: int| 0 <= a < b < gv.len() ==> (#[trigger] gv[a]).start_of_first.instant() <= (#[trigger] gv[b]).start_of_first.instant(),
{
    reveal(is_collapse_of);
}

proof fn lemma_collapse_empty(done: Seq<ActivityView>, fallback: Timestamp)
    requires
        done.len() == 0,
    ensures
        is_collapse_of(Seq::empty(), done, fallback),
{
    reveal(is_collapse_of);
}

/// Whether the lengths of all pieces of the intervals, taken as absolute
/// values, add up to no more than `i128::MAX` nanoseconds, so that
/// `collapse_activities` can sum them.
pub fn collapse_fits(activities: &[TrackedActivity], end_fallback: Timestamp) -> (r: bool)
    requires
        forall|i: int| 0 <= i < activities@.len() ==> (#[trigger] activities@[i])@.wf(),
        end_fallback.wf(),
    ensures
        r == (abs_total(all_pieces(activities@.map_values(|a: TrackedActivity| a@), end_fallback), end_fallback)
            <= i128::MAX),
{
    let ghost acts = activities@.map_values(|a: TrackedActivity| a@);
    let mut total: i128 = 0;
    let mut i: usize = 0;
    while i < activities.len()
        invariant
            i <= activities@.len(),
            acts == activities@.map_values(|a: TrackedActivity| a@),
            forall|k: int| 0 <= k < activities@.len() ==> (#[trigger] activities@[k])@.wf(),
            end_fallback.wf(),
            total == abs_total(all_pieces(acts.subrange(0, i as int), end_fallback), end_fallback),
            0 <= total,
        decreases activities.len() - i,
    {
        let split = activities[i].midnight_pieces(end_fallback);
        let ghost sv = split@.map_values(|a: TrackedActivity| a@);
        let ghost before = all_pieces(acts.subrange(0, i as int), end_fallback);
        let mut k: usize = 0;
        proof {
            assert(before + sv.subrange(0, 0) =~= before);
        }
        while k < split.len()
            invariant
                k <= split@.len(),
                i < activities@.len(),
                acts == activities@.map_values(|a: TrackedActivity| a@),
                before == all_pieces(acts.subrange(0, i as int), end_fallback),
                sv == split_spec(activities@[i as int]@.start, activities@[i as int]@.end, end_fallback),
                sv == split@.map_values(|a: TrackedActivity| a@),
                total == abs_total(before + sv.subrange(0, k as int), end_fallback),
                0 <= total,
                end_fallback.wf(),
                forall|x: int| 0 <= x < sv.len() ==> (#[trigger] sv[x]).wf(),
            decreases split.len() - k,
        {
            let piece = &split[k];
            proof {
                assert(sv[k as int] == piece@);
            }
            let stop = match piece.end_time() {
                Some(e) => *e,
                None => end_fallback,
            };
            let d = nanos_between(piece.start_time(), &stop);
            let a = if d < 0 { -d } else { d };
            proof {
                let s2 = before + sv.subrange(0, k + 1);
                assert(s2.drop_last() =~= before + sv.subrange(0, k as int));
                assert(s2.last() == piece@);
                assert(a == abs(piece@.duration(end_fallback)));
            }
            if total > i128::MAX - a {
                proof {
                    let sub = acts.subrange(0, i + 1);
                    assert(sub.drop_last() =~= acts.subrange(0, i as int));
                    assert(sub.last() == activities@[i as int]@);
                    let whole = before + sv;
                    assert(all_pieces(sub, end_fallback) == whole);
                    assert(before + sv.subrange(0, k + 1) =~= whole.subrange(0, before.len() + k + 1));
                    lemma_abs_total_grows(before + sv.subrange(0, k + 1), whole, end_fallback);
                    lemma_all_pieces_grows(acts, i + 1, end_fallback);
                    lemma_abs_total_grows(whole, all_pieces(acts, end_fallback), end_fallback);
                }
                return false;
            }
            total = total + a;
            k += 1;
        }
        proof {
            crate::interval::lemma_split_wf(activities@[i as int]@.start, activities@[i as int]@.end, end_fallback);
            assert(sv.subrange(0, sv.len() as int) =~= sv);
            let sub = acts.subrange(0, i + 1);
            assert(sub.drop_last() =~= acts.subrange(0, i as int));
            assert(sub.last() == activities@[i as int]@);
        }
        i += 1;
    }
    proof {
        assert(acts.subrange(0, activities@.len() as int) =~= acts);
    }
    true
}

/// Extending a list of pieces does not lower their absolute total.
proof fn lemma_abs_total_grows(a: Seq<ActivityView>, b: Seq<ActivityView>, fallback: Timestamp)
    requires
        a.len() <= b.len(),
        a == b.subrange(0, a.len() as int),
    ensures
        abs_total(a, fallback) <= abs_total(b, fallback),
{
    lemma_abs_total_prefix(b, a.len() as int, fallback);
}

/// The pieces of a prefix of the intervals are a prefix of all pieces.
proof fn lemma_all_pieces_grows(acts: Seq<ActivityView>, i: int, fallback: Timestamp)
    requires
        0 <= i <= acts.len(),
    ensures
        ({
            let p = all_pieces(acts.subrange(0, i), fallback);
            let q = all_pieces(acts, fallback);
            p.len() <= q.len() && p == q.subrange(0, p.len() as int)
        }),
    decreases acts.len() - i,
{
    if i < acts.len() {
        lemma_all_pieces_grows(acts, i + 1, fallback);
        let s = acts.subrange(0, i + 1);
        assert(s.drop_last() =~= acts.subrange(0, i));
        let p = all_pieces(acts.subrange(0, i), fallback);
        let p1 = all_pieces(s, fallback);
        let q = all_pieces(acts, fallback);
        assert(p1 == p + split_spec(s.last().start, s.last().end, fallback));
        assert(p =~= p1.subrange(0, p.len() as int));
        assert(p =~= q.subrange(0, p.len() as int));
    } else {
        assert(acts.subrange(0, i) =~= acts);
        let q = all_pieces(acts, fallback);
        assert(q.subrange(0, q.len() as int) =~= q);
    }
}

/// Adding a piece to an existing group keeps the grouping exact.
proof fn lemma_collapse_add(
    gv: Seq<CollapsedView>,
    gv2: Seq<CollapsedView>,
    done: Seq<ActivityView>,
    pv: ActivityView,
    gi: int,
    fallback: Timestamp,
)
    requires
        is_collapse_of(gv, done, fallback),
        0 <= gi < gv.len(),
        gv2.len() == gv.len(),
        gv[gi].key() == key_of(pv),
        forall|a: int| 0 <= a < gv2.len() && a != gi ==> #[trigger] gv2[a] == gv[a],
        gv2[gi] == (CollapsedView { duration: gv[gi].duration + pv.duration(fallback), ..gv[gi] }),
    ensures
        is_collapse_of(gv2, done.push(pv), fallback),
{
    reveal(is_collapse_of);
    let done2 = done.push(pv);
    assert(done2.drop_last() =~= done);
    assert forall|a: int| 0 <= a < gv2.len() implies (#[trigger] gv2[a]).key() == gv[a].key() by {}
    assert forall|a: int| 0 <= a < gv2.len() implies {
        &&& has_key(done2, (#[trigger] gv2[a]).key())
        &&& gv2[a].duration == group_sum(done2, gv2[a].key(), fallback)
        &&& gv2[a].start_of_first == first_start(done2, gv2[a].key())
    } by {
        let k = gv[a].key();
        assert(has_key(done, k));
        let w = choose|w: int| 0 <= w < done.len() && key_of(#[trigger] done[w]) == k;
        assert(done2[w] == done[w]);
        if a != gi {
            assert(gv[a].key() != gv[gi].key());
        }
    }
    assert forall|w: int| 0 <= w < done2.len() implies exists|a: int| 0 <= a < gv2.len() && (#[trigger] gv2[a]).key() == key_of(#[trigger] done2[w]) by {
        if w < done.len() {
            assert(done2[w] == done[w]);
            let a = choose|a: int| 0 <= a < gv.len() && (#[trigger] gv[a]).key() == key_of(done[w]);
            assert(gv2[a].key() == gv[a].key());
        } else {
            assert(gv2[gi].key() == key_of(done2[w]));
        }
    }
    assert forall|a: int, b: int| 0 <= a < b < gv2.len() implies (#[trigger] gv2[a]).key() != (#[trigger] gv2[b]).key() && gv2[a].start_of_first.instant() <= gv2[b].start_of_first.instant() by {
        assert(gv[a].key() != gv[b].key());
    }
}

/// Opening a group for a piece whose key is new keeps the grouping exact.
proof fn lemma_collapse_new(
    gv: Seq<CollapsedView>,
    done: Seq<ActivityView>,
    pv: ActivityView,
    slot: int,
    g: CollapsedView,
    fallback: Timestamp,
)
    requires
        is_collapse_of(gv, done, fallback),
        0 <= slot <= gv.len(),
        forall|a: int| 0 <= a < gv.len() ==> (#[trigger] gv[a]).key() != key_of(pv),
        forall|a: int| 0 <= a < slot ==> (#[trigger] gv[a]).start_of_first.instant() <= pv.start_time().instant(),
        forall|a: int| slot <= a < gv.len() ==> (#[trigger] gv[a]).start_of_first.instant() > pv.start_time().instant(),
        g == (CollapsedView {
            attendance: pv.start.attendance,
            description: pv.start.description,
            duration: pv.duration(fallback),
            start_of_first: pv.start_time(),
            wbs: pv.start.wbs,
        }),
    ensures
        is_collapse_of(gv.insert(slot, g), done.push(pv), fallback),
{
    reveal(is_collapse_of);
    let done2 = done.push(pv);
    let gv2 = gv.insert(slot, g);
    assert(done2.drop_last() =~= done);
    assert(g.key() == key_of(pv));
    assert(!has_key(done, key_of(pv))) by {
        if has_key(done, key_of(pv)) {
            let w = choose|w: int| 0 <= w < done.len() && key_of(#[trigger] done[w]) == key_of(pv);
            let a = choose|a: int| 0 <= a < gv.len() && (#[trigger] gv[a]).key() == key_of(done[w]);
        }
    }
    lemma_group_sum_absent(done, key_of(pv), fallback);
    assert forall|a: int| 0 <= a < gv2.len() implies {
        &&& has_key(done2, (#[trigger] gv2[a]).key())
        &&& gv2[a].duration == group_sum(done2, gv2[a].key(), fallback)
        &&& gv2[a].start_of_first == first_start(done2, gv2[a].key())
    } by {
        if a == slot {
            assert(done2[done.len() as int] == pv);
        } else {
            let b = if a < slot {
                a
            } else {
                a - 1
            };
            assert(gv2[a] == gv[b]);
            let k = gv[b].key();
            assert(has_key(done, k));
            let w = choose|w: int| 0 <= w < done.len() && key_of(#[trigger] done[w]) == k;
            assert(done2[w] == done[w]);
        }
    }
    assert forall|w: int| 0 <= w < done2.len() implies exists|a: int| 0 <= a < gv2.len() && (#[trigger] gv2[a]).key() == key_of(#[trigger] done2[w]) by {
        if w < done.len() {
            assert(done2[w] == done[w]);
            let a = choose|a: int| 0 <= a < gv.len() && (#[trigger] gv[a]).key() == key_of(done[w]);
            if a < slot {
                assert(gv2[a] == gv[a]);
            } else {
                assert(gv2[a + 1] == gv[a]);
            }
        } else {
            assert(gv2[slot] == g);
        }
    }
    assert forall|a: int, b: int| 0 <= a < b < gv2.len() implies (#[trigger] gv2[a]).key() != (#[trigger] gv2[b]).key() && gv2[a].start_of_first.instant() <= gv2[b].start_of_first.instant() by {
        let a0 = if a < slot { a } else { a - 1 };
        let b0 = if b < slot { b } else { b - 1 };
        if a != slot && b != slot {
            assert(gv2[a] == gv[a0]);
            assert(gv2[b] == gv[b0]);
        } else if a == slot {
            assert(gv2[b] == gv[b0]);
        } else {
            assert(gv2[a] == gv[a0]);
        }
    }
}

/// Splits every interval at midnight and groups the pieces by WBS,
/// attendance type, description and local day, summing their lengths
/// (running pieces up to `end_fallback`). Groups come in order of their first
/// start; groups with the same first start keep the order in which their
/// keys first appear.
pub fn collapse_activities(activities: &[TrackedActivity], end_fallback: Timestamp) -> (r: Vec<CollapsedActivity>)
    requires
        forall|i: int| 0 <= i < activities@.len() ==> (#[trigger] activities@[i])@.wf(),
        end_fallback.wf(),
        abs_total(all_pieces(activities@.map_values(|a: TrackedActivity| a@), end_fallback), end_fallback) <= i128::MAX,
    ensures
        is_collapse_of(
            r@.map_values(|c: CollapsedActivity| c@),
            all_pieces(activities@.map_values(|a: TrackedActivity| a@), end_fallback),
            end_fallback,
        ),
{
    let ghost acts = activities@.map_values(|a: TrackedActivity| a@);
    let mut pieces: Vec<TrackedActivity> = Vec::new();
    let mut i: usize = 0;
    while i < activities.len()
        invariant
            i <= activities@.len(),
            acts == activities@.map_values(|a: TrackedActivity| a@),
            forall|k: int| 0 <= k < activities@.len() ==> (#[trigger] activities@[k])@.wf(),
            end_fallback.wf(),
            pieces@.map_values(|a: TrackedActivity| a@) == all_pieces(acts.subrange(0, i as int), end_fallback),
            forall|k: int| 0 <= k < pieces@.len() ==> (#[trigger] pieces@[k])@.wf(),
        decreases activities.len() - i,
    {
        let split = activities[i].midnight_pieces(end_fallback);
        proof {
            crate::interval::lemma_split_wf(activities@[i as int]@.start, activities@[i as int]@.end, end_fallback);
            let sv = split@.map_values(|a: TrackedActivity| a@);
            assert forall|k: int| 0 <= k < split@.len() implies (#[trigger] split@[k])@.wf() by {
                assert(sv[k] == split@[k]@);
            }
        }
        let ghost before = pieces@.map_values(|a: TrackedActivity| a@);
        let mut k: usize = 0;
        while k < split.len()
            invariant
                k <= split@.len(),
                pieces@.map_values(|a: TrackedActivity| a@) == before + split@.map_values(|a: TrackedActivity| a@).subrange(0, k as int),
                forall|x: int| 0 <= x < split@.len() ==> (#[trigger] split@[x])@.wf(),
                forall|x: int| 0 <= x < pieces@.len() ==> (#[trigger] pieces@[x])@.wf(),
            decreases split.len() - k,
        {
            let ghost prev = pieces@.map_values(|a: TrackedActivity| a@);
            pieces.push(split[k].duplicate());
            proof {
                let sv = split@.map_values(|a: TrackedActivity| a@);
                assert(sv[k as int] == split@[k as int]@);
                assert(pieces@.map_values(|a: TrackedActivity| a@) =~= prev.push(sv[k as int]));
                assert(sv.subrange(0, k + 1) =~= sv.subrange(0, k as int).push(sv[k as int]));
            }
            k += 1;
        }
        proof {
            let sub = acts.subrange(0, i + 1);
            assert(sub.drop_last() =~= acts.subrange(0, i as int));
            assert(sub.last() == activities@[i as int]@);
            assert(split@.map_values(|a: TrackedActivity| a@).subrange(0, split@.len() as int) =~= split@.map_values(
                |a: TrackedActivity| a@,
            ));
        }
        i += 1;
    }
    proof {
        assert(acts.subrange(0, activities@.len() as int) =~= acts);
    }
    let ghost all = pieces@.map_values(|a: TrackedActivity| a@);
    proof {
        assert forall|k: int| 0 <= k < all.len() implies (#[trigger] all[k]).wf() by {
            assert(all[k] == pieces@[k]@);
        }
        assert(all.subrange(0, 0) =~= Seq::<ActivityView>::empty());
        lemma_collapse_empty(all.subrange(0, 0), end_fallback);
    }
    let mut groups: Vec<CollapsedActivity> = Vec::new();
    proof {
        assert(groups@.map_values(|c: CollapsedActivity| c@) =~= Seq::<CollapsedView>::empty());
    }
    let mut j: usize = 0;
    while j < pieces.len()
        invariant
            j <= pieces@.len(),
            all == pieces@.map_values(|a: TrackedActivity| a@),
            all == all_pieces(acts, end_fallback),
            abs_total(all, end_fallback) <= i128::MAX,
            end_fallback.wf(),
            forall|k: int| 0 <= k < all.len() ==> (#[trigger] all[k]).wf(),
            is_collapse_of(groups@.map_values(|c: CollapsedActivity| c@), all.subrange(0, j as int), end_fallback),
            forall|a: int|
                0 <= a < groups@.len() ==> abs((#[trigger] groups@[a]).duration as int) <= abs_total(
                    all.subrange(0, j as int),
                    end_fallback,
                ),
            forall|a: int| 0 <= a < groups@.len() ==> (#[trigger] groups@[a]).start_of_first.wf(),
        decreases pieces.len() - j,
    {
        let ghost done = all.subrange(0, j as int);
        let ghost done2 = all.subrange(0, j + 1);
        let ghost gv = groups@.map_values(|c: CollapsedActivity| c@);
        let p = &pieces[j];
        let ghost pv = p@;
        let ghost key = key_of(pv);
        proof {
            assert(all[j as int] == pv);
            assert(done2.drop_last() =~= done);
            assert(done2.last() == pv);
            assert(done2 =~= done.push(pv));
            lemma_abs_total_prefix(all, j + 1, end_fallback);
            lemma_abs_total_nonneg(done, end_fallback);
        }
        let stop = match p.end_time() {
            Some(e) => *e,
            None => end_fallback,
        };
        let d = nanos_between(p.start_time(), &stop);
        proof {
            assert(d == pv.duration(end_fallback));
            assert(abs_total(done2, end_fallback) == abs_total(done, end_fallback) + abs(d as int));
        }
        match find_group(&groups, p) {
            Some(gi) => {
                let ghost old_g = groups@[gi as int];
                let ghost old_groups = groups@;
                proof {
                    assert(gv[gi as int] == old_g@);
                    assert(abs(old_g.duration as int) <= abs_total(done, end_fallback));
                }
                let total = groups[gi].duration + d;
                groups[gi].duration = total;
                let ghost gv2 = groups@.map_values(|c: CollapsedActivity| c@);
                proof {
                    assert forall|a: int| 0 <= a < gv2.len() && a != gi implies #[trigger] gv2[a] == gv[a] by {
                        assert(groups@[a] == old_groups[a]);
                    }
                    lemma_collapse_add(gv, gv2, done, pv, gi as int, end_fallback);
                    assert forall|a: int| 0 <= a < groups@.len() implies abs((#[trigger] groups@[a]).duration as int) <= abs_total(
                        done2,
                        end_fallback,
                    ) by {
                        if a != gi {
                            assert(groups@[a] == old_groups[a]);
                        }
                    }
                }
            },
            None => {
                proof {
                    lemma_collapse_sorted(gv, done, end_fallback);
                    assert forall|a: int, b: int| 0 <= a < b < groups@.len() implies (#[trigger] groups@[a]).start_of_first.instant()
                        <= (#[trigger] groups@[b]).start_of_first.instant() by {
                        assert(gv[a] == groups@[a]@);
                        assert(gv[b] == groups@[b]@);
                    }
                }
                let slot = find_slot(&groups, p.start_time());
                let group = CollapsedActivity {
                    attendance_type: p.start_entry.attendance_type.clone(),
                    description: p.start_entry.description.clone(),
                    duration: d,
                    start_of_first: *p.start_time(),
                    wbs: p.start_entry.wbs.clone(),
                };
                let ghost old_groups = groups@;
                groups.insert(slot, group);
                proof {
                    let gv2 = groups@.map_values(|c: CollapsedActivity| c@);
                    assert(gv2 =~= gv.insert(slot as int, group@));
                    assert forall|a: int| 0 <= a < gv.len() implies (#[trigger] gv[a]).key() != key_of(pv) by {
                        assert(gv[a] == old_groups[a]@);
                    }
                    assert forall|a: int| 0 <= a < slot implies (#[trigger] gv[a]).start_of_first.instant() <= pv.start_time().instant() by {
                        assert(gv[a] == old_groups[a]@);
                    }
                    assert forall|a: int| slot <= a < gv.len() implies (#[trigger] gv[a]).start_of_first.instant() > pv.start_time().instant() by {
                        assert(gv[a] == old_groups[a]@);
                    }
                    lemma_collapse_new(gv, done, pv, slot as int, group@, end_fallback);
                    assert forall|a: int| 0 <= a < groups@.len() implies abs((#[trigger] groups@[a]).duration as int) <= abs_total(
                        done2,
                        end_fallback,
                    ) && groups@[a].start_of_first.wf() by {
                        if a < slot {
                            assert(groups@[a] == old_groups[a]);
                        } else if a > slot {
                            assert(groups@[a] == old_groups[a - 1]);
                        }
                    }
                }
            },
        }
        j += 1;
    }
    proof {
        assert(all.subrange(0, pieces@.len() as int) =~= all);
    }
    groups
}

/// When no two pieces share a key, collapsing changes nothing further: each
/// piece is a group of its own, with its own start and length.
pub proof fn lemma_collapse_distinct_keys_fixpoint(pieces: Seq<ActivityView>, fallback: Timestamp, j: int)
    requires
        forall|a: int, b: int| 0 <= a < b < pieces.len() ==> key_of(#[trigger] pieces[a]) != key_of(#[trigger] pieces[b]),
        0 <= j < pieces.len(),
    ensures
        group_sum(pieces, key_of(pieces[j]), fallback) == pieces[j].duration(fallback),
        first_start(pieces, key_of(pieces[j])) == pieces[j].start_time(),
    decreases pieces.len(),
{
    let p = pieces.drop_last();
    let k = key_of(pieces[j]);
    if j == pieces.len() - 1 {
        assert(!has_key(p, k)) by {
            if has_key(p, k) {
                let w = choose|w: int| 0 <= w < p.len() && key_of(#[trigger] p[w]) == k;
                assert(pieces[w] == p[w]);
            }
        }
        lemma_group_sum_absent(p, k, fallback);
    } else {
        assert(p[j] == pieces[j]);
        assert forall|a: int, b: int| 0 <= a < b < p.len() implies key_of(#[trigger] p[a]) != key_of(#[trigger] p[b]) by {
            assert(p[a] == pieces[a]);
            assert(p[b] == pieces[b]);
        }
        lemma_collapse_distinct_keys_fixpoint(p, fallback, j);
        assert(key_of(pieces.last()) != k) by {
            assert(pieces.last() == pieces[pieces.len() - 1]);
        }
        assert(has_key(p, k));
    }
}

/// The instant `d` nanoseconds after `t`, on `t`'s clock.
pub open spec fn shifted(t: Timestamp, d: int) -> Timestamp {
    let x = t.instant() + d;
    Timestamp { secs: (x / 1_000_000_000) as i64, nanos: (x % 1_000_000_000) as u32, offset: t.offset }
}

/// A group taken as an interval: from its first start, as long as its total.
pub open spec fn group_interval(c: CollapsedView) -> ActivityView {
    ActivityView {
        start: StartView {
            time_stamp: c.start_of_first,
            name: Seq::empty(),
            attendance: c.attendance,
            description: c.description,
            wbs: c.wbs,
        },
        end: Some(shifted(c.start_of_first, c.duration)),
    }
}

proof fn lemma_all_pieces_single_day(acts: Seq<ActivityView>, fallback: Timestamp)
    requires
        fallback.wf(),
        forall|i: int| 0 <= i < acts.len() ==> (#[trigger] acts[i]).wf() && cut_count(acts[i].start_time(), acts[i].end_or(fallback)) == 0,
    ensures
        all_pieces(acts, fallback) == acts,
    decreases acts.len(),
{
    if acts.len() > 0 {
        let p = acts.drop_last();
        assert forall|i: int| 0 <= i < p.len() implies (#[trigger] p[i]).wf() && cut_count(p[i].start_time(), p[i].end_or(fallback)) == 0 by {
            assert(p[i] == acts[i]);
        }
        lemma_all_pieces_single_day(p, fallback);
        let a = acts.last();
        assert(a == acts[acts.len() - 1]);
        lemma_split_conserves_duration(a.start, a.end, fallback);
        assert(split_spec(a.start, a.end, fallback) == seq![ActivityView { start: a.start, end: a.end }]);
        assert(p + seq![a] =~= acts);
    }
}

/// Re-collapsing collapsed output changes nothing: each group, taken as an
/// interval from its first start as long as its total, collapses to itself.
/// This holds where each such interval lies within one local day, as the
/// groups of non-overlapping pieces do; a total longer than the rest of its
/// day would be split again.
pub proof fn lemma_recollapse_fixpoint(r: Seq<CollapsedView>, pieces: Seq<ActivityView>, fallback: Timestamp)
    requires
        is_collapse_of(r, pieces, fallback),
        fallback.wf(),
        forall|i: int|
            0 <= i < r.len() ==> {
                &&& 0 <= (#[trigger] r[i]).duration < 86_400_000_000_000
                &&& group_interval(r[i]).wf()
                &&& cut_count(r[i].start_of_first, shifted(r[i].start_of_first, r[i].duration)) == 0
            },
    ensures
        is_collapse_of(r, all_pieces(r.map_values(|c: CollapsedView| group_interval(c)), fallback), fallback),
{
    reveal(is_collapse_of);
    let acts = r.map_values(|c: CollapsedView| group_interval(c));
    assert forall|i: int| 0 <= i < acts.len() implies (#[trigger] acts[i]).wf() && cut_count(acts[i].start_time(), acts[i].end_or(fallback)) == 0 by {
        assert(acts[i] == group_interval(r[i]));
    }
    lemma_all_pieces_single_day(acts, fallback);
    assert forall|i: int| 0 <= i < acts.len() implies key_of(#[trigger] acts[i]) == r[i].key() by {
        assert(acts[i] == group_interval(r[i]));
    }
    assert forall|a: int, b: int| 0 <= a < b < acts.len() implies key_of(#[trigger] acts[a]) != key_of(#[trigger] acts[b]) by {
        assert(key_of(acts[a]) == r[a].key());
        assert(key_of(acts[b]) == r[b].key());
    }
    assert forall|i: int| 0 <= i < r.len() implies {
        &&& has_key(acts, (#[trigger] r[i]).key())
        &&& r[i].duration == group_sum(acts, r[i].key(), fallback)
        &&& r[i].start_of_first == first_start(acts, r[i].key())
    } by {
        assert(key_of(acts[i]) == r[i].key());
        lemma_collapse_distinct_keys_fixpoint(acts, fallback, i);
        let t = r[i].start_of_first;
        let x = t.instant() + r[i].duration;
        assert(t.wf());
        vstd::arithmetic::div_mod::lemma_fundamental_div_mod(x, 1_000_000_000);
        vstd::arithmetic::div_mod::lemma_mod_bound(x, 1_000_000_000);
        assert(t.secs * 1_000_000_000 <= x < (t.secs + 86_401) * 1_000_000_000);
        assert(t.secs <= x / 1_000_000_000 <= t.secs + 86_400) by {
            vstd::arithmetic::div_mod::lemma_fundamental_div_mod_converse_div(
                x,
                1_000_000_000,
                x / 1_000_000_000,
                x % 1_000_000_000,
            );
            assert(1_000_000_000 * (x / 1_000_000_000) <= x);
            assert(x < 1_000_000_000 * (x / 1_000_000_000) + 1_000_000_000);
            assert(t.secs <= x / 1_000_000_000) by (nonlinear_arith)
                requires
                    t.secs * 1_000_000_000 <= x,
                    x < 1_000_000_000 * (x / 1_000_000_000) + 1_000_000_000,
            ;
            assert(x / 1_000_000_000 <= t.secs + 86_400) by (nonlinear_arith)
                requires
                    x < (t.secs + 86_401) * 1_000_000_000,
                    1_000_000_000 * (x / 1_000_000_000) <= x,
            ;
        }
        assert(shifted(t, r[i].duration).instant() == x);
        assert(acts[i] == group_interval(r[i]));
        assert(acts[i].duration(fallback) == r[i].duration);
    }
    assert forall|j: int| 0 <= j < acts.len() implies exists|a: int| 0 <= a < r.len() && (#[trigger] r[a]).key() == key_of(#[trigger] acts[j]) by {
        assert(key_of(acts[j]) == r[j].key());
    }
}

/// A span of time with one attendance type.
#[derive(Clone, Debug)]
pub struct AttendanceRange {
    pub start: Timestamp,
    pub end: Option<Timestamp>,
    pub attendance_type: String,
}

pub struct RangeView {
    pub start: Timestamp,
    pub end: Option<Timestamp>,
    pub attendance: Seq<char>,
}

impl View for AttendanceRange {
    type V = RangeView;

    open spec fn view(&self) -> RangeView {
        RangeView { start: self.start, end: self.end, attendance: self.attendance_type@ }
    }
}

/// The machine-readable line of a range: start, end (empty while open) and
/// attendance type, tab separated.
pub open spec fn range_line(g: RangeView) -> Seq<char> {
    stamp_text(g.start) + tab() + end_text(g.end) + tab() + g.attendance
}

impl AttendanceRange {
    /// The machine-readable line of this range.
    pub fn to_line(&self) -> (r: String)
        requires
            self.start.wf(),
            self.end matches Some(e) ==> e.wf(),
        ensures
            r@ == range_line(self@),
    {
        proof {
            reveal_strlit("\t");
            assert("\t"@ =~= tab());
        }
        let mut line = self.start.to_text();
        line.append("\t");
        match &self.end {
            Some(e) => line.append(e.to_text().as_str()),
            None => {},
        }
        let ghost head = line@;
        line.append("\t");
        line.append(self.attendance_type.as_str());
        proof {
            assert(head =~= stamp_text(self.start) + tab() + end_text(self.end));
            assert(line@ =~= range_line(self@));
        }
        line
    }

    pub fn start_time(&self) -> (r: &Timestamp)
        ensures
            *r == self.start,
    {
        &self.start
    }

    pub fn end_time(&self) -> (r: Option<&Timestamp>)
        ensures
            match self.end {
                Some(e) => r matches Some(x) && *x == e,
                None => r is None,
            },
    {
        match &self.end {
            Some(e) => Some(e),
            None => None,
        }
    }

    pub fn attendance(&self) -> (r: &str)
        ensures
            r@ == self.attendance_type@,
    {
        self.attendance_type.as_str()
    }
}

/// The span an interval covers, with its attendance type.
pub open spec fn span_of(a: ActivityView) -> RangeView {
    RangeView { start: a.start_time(), end: a.end, attendance: a.start.attendance }
}

/// Whether `next` continues `prev`: it starts at the very instant `prev`
/// ends, with the same attendance type.
pub open spec fn continues(prev: RangeView, next: RangeView) -> bool {
    &&& prev.end matches Some(e) && e.instant() == next.start.instant()
    &&& prev.attendance == next.attendance
}

/// Merges each span that continues the range before it into that range.
pub open spec fn merge_spans(spans: Seq<RangeView>) -> Seq<RangeView>
    decreases spans.len(),
{
    if spans.len() == 0 {
        Seq::empty()
    } else {
        let prev = merge_spans(spans.drop_last());
        let next = spans.last();
        if prev.len() > 0 && continues(prev.last(), next) {
            prev.update(prev.len() - 1, RangeView { end: next.end, ..prev.last() })
        } else {
            prev.push(next)
        }
    }
}

/// No span continues the one before it.
pub open spec fn no_continuation(spans: Seq<RangeView>) -> bool {
    forall|i: int| 0 < i < spans.len() ==> !continues(spans[i - 1], #[trigger] spans[i])
}

proof fn lemma_merge_maximal(spans: Seq<RangeView>)
    ensures
        no_continuation(merge_spans(spans)),
        spans.len() > 0 ==> merge_spans(spans).len() > 0,
    decreases spans.len(),
{
    if spans.len() > 0 {
        let prev = merge_spans(spans.drop_last());
        lemma_merge_maximal(spans.drop_last());
        let r = merge_spans(spans);
        assert forall|i: int| 0 < i < r.len() implies !continues(r[i - 1], #[trigger] r[i]) by {
            if i < prev.len() - 1 {
                assert(r[i] == prev[i]);
                assert(r[i - 1] == prev[i - 1]);
            } else if i == prev.len() - 1 {
                assert(r[i - 1] == prev[i - 1]);
                assert(r[i].start == prev[i].start);
                assert(r[i].attendance == prev[i].attendance);
            }
        }
    }
}

proof fn lemma_merge_unchanged(spans: Seq<RangeView>)
    requires
        no_continuation(spans),
    ensures
        merge_spans(spans) == spans,
    decreases spans.len(),
{
    if spans.len() > 0 {
        let p = spans.drop_last();
        assert forall|i: int| 0 < i < p.len() implies !continues(p[i - 1], #[trigger] p[i]) by {
            assert(p[i] == spans[i]);
            assert(p[i - 1] == spans[i - 1]);
        }
        lemma_merge_unchanged(p);
        if p.len() > 0 {
            assert(!continues(spans[spans.len() - 2], spans[spans.len() - 1]));
            assert(p.last() == spans[spans.len() - 2]);
        }
        assert(p.push(spans.last()) =~= spans);
    }
}

/// Merging ranges that are already merged changes nothing further.
pub proof fn lemma_merge_idempotent(spans: Seq<RangeView>)
    ensures
        merge_spans(merge_spans(spans)) == merge_spans(spans),
{
    lemma_merge_maximal(spans);
    lemma_merge_unchanged(merge_spans(spans));
}

/// Merges chronologically adjacent intervals that follow each other without
/// a gap and share an attendance type into ranges.
pub fn get_attendance_ranges(activities: &[TrackedActivity]) -> (r: Vec<AttendanceRange>)
    ensures
        r@.map_values(|g: AttendanceRange| g@) == merge_spans(
            activities@.map_values(|a: TrackedActivity| span_of(a@)),
        ),
{
    let ghost spans = activities@.map_values(|a: TrackedActivity| span_of(a@));
    let mut ranges: Vec<AttendanceRange> = Vec::new();
    let mut last_range: Option<AttendanceRange> = None;
    let mut i: usize = 0;
    while i < activities.len()
        invariant
            i <= activities@.len(),
            spans == activities@.map_values(|a: TrackedActivity| span_of(a@)),
            ({
                let merged = merge_spans(spans.subrange(0, i as int));
                match last_range {
                    None => i == 0 && ranges@.len() == 0,
                    Some(l) => merged.len() > 0 && ranges@.map_values(|g: AttendanceRange| g@) == merged.drop_last()
                        && l@ == merged.last(),
                }
            }),
        decreases activities.len() - i,
    {
        let activity = &activities[i];
        let ghost sub = spans.subrange(0, i + 1);
        let ghost next = span_of(activity@);
        proof {
            assert(sub.drop_last() =~= spans.subrange(0, i as int));
            assert(spans[i as int] == next);
            assert(sub.last() == next);
        }
        let fresh = AttendanceRange {
            start: *activity.start_time(),
            end: activity.end,
            attendance_type: activity.start_entry.attendance_type.clone(),
        };
        match last_range {
            Some(last) => {
                let follows_directly = match last.end {
                    Some(e) => e.same_instant(activity.start_time()),
                    None => false,
                };
                let same_type = activity.start_entry.attendance_type == last.attendance_type;
                if follows_directly && same_type {
                    last_range = Some(AttendanceRange { end: activity.end, ..last });
                } else {
                    let ghost before = ranges@.map_values(|g: AttendanceRange| g@);
                    let ghost lv = last@;
                    ranges.push(last);
                    last_range = Some(fresh);
                    proof {
                        assert(ranges@.map_values(|g: AttendanceRange| g@) =~= before.push(lv));
                        let merged = merge_spans(spans.subrange(0, i as int));
                        assert(merged.drop_last().push(merged.last()) =~= merged);
                    }
                }
            },
            None => {
                last_range = Some(fresh);
                proof {
                    assert(spans.subrange(0, 0) =~= Seq::<RangeView>::empty());
                    assert(ranges@.map_values(|g: AttendanceRange| g@) =~= Seq::<RangeView>::empty());
                    assert(merge_spans(sub).drop_last() =~= Seq::<RangeView>::empty());
                }
            },
        }
        i += 1;
    }
    match last_range {
        Some(l) => {
            let ghost before = ranges@.map_values(|g: AttendanceRange| g@);
            let ghost lv = l@;
            ranges.push(l);
            proof {
                assert(ranges@.map_values(|g: AttendanceRange| g@) =~= before.push(lv));
                let merged = merge_spans(spans.subrange(0, i as int));
                assert(merged.drop_last().push(merged.last()) =~= merged);
                assert(spans.subrange(0, i as int) =~= spans);
            }
        },
        None => {
            proof {
                assert(spans.subrange(0, i as int) =~= spans);
                assert(ranges@.map_values(|g: AttendanceRange| g@) =~= Seq::<RangeView>::empty());
            }
        },
    }
    ranges
}

} // verus!

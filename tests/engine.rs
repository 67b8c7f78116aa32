use timetrack::entry::{ActivityEntry, ActivityStart};
use timetrack::groupings::{collapse_activities, collapse_fits, get_attendance_ranges};
use timetrack::interval::TrackedActivity;
use timetrack::reconstruct::{activities_since, backwards_entries_since, last_n_activities, EntriesSince, TailScan};
use timetrack::timestamp::{nanos_between, Timestamp};

const HOUR: i128 = 3_600_000_000_000;
const MINUTE: i128 = 60_000_000_000;

fn ts(text: &str) -> Timestamp {
    Timestamp::parse(text).expect("valid timestamp")
}

fn start(at: &str, name: &str, attendance: &str, wbs: &str, description: &str) -> ActivityStart {
    match ActivityEntry::new_start(ts(at), name, attendance, wbs, description) {
        ActivityEntry::Start(s) => s,
        ActivityEntry::End(_) => unreachable!(),
    }
}

fn activity(from: &str, to: Option<&str>, name: &str, attendance: &str) -> TrackedActivity {
    TrackedActivity::new(start(from, name, attendance, "W", ""), to.map(ts))
}

fn begin(at: &str, name: &str) -> ActivityEntry {
    ActivityEntry::new_start(ts(at), name, "office", "W", "")
}

fn finish(at: &str) -> ActivityEntry {
    ActivityEntry::new_end(ts(at))
}

fn duration(a: &TrackedActivity, now: Timestamp) -> i128 {
    nanos_between(a.start_time(), a.end_time().unwrap_or(&now))
}

#[test]
fn split_across_midnight_gives_two_pieces() {
    let a = activity("2024-01-01 23:00:00 +00:00", Some("2024-01-02 01:00:00 +00:00"), "A", "office");
    let now = ts("2024-01-03 00:00:00 +00:00");
    let pieces = a.midnight_pieces(now);
    assert_eq!(pieces.len(), 2);
    assert_eq!(*pieces[0].start_time(), ts("2024-01-01 23:00:00 +00:00"));
    assert_eq!(pieces[0].end_time().unwrap().to_text(), "2024-01-01 23:59:59.999999999 +00:00");
    assert_eq!(*pieces[1].start_time(), ts("2024-01-02 00:00:00 +00:00"));
    assert_eq!(*pieces[1].end_time().unwrap(), ts("2024-01-02 01:00:00 +00:00"));
    assert_eq!(pieces[1].name(), "A");
}

#[test]
fn split_same_day_is_one_piece() {
    let a = activity("2024-01-01 09:00:00 +00:00", Some("2024-01-01 17:00:00 +00:00"), "A", "office");
    let now = ts("2024-01-03 00:00:00 +00:00");
    let pieces = a.midnight_pieces(now);
    assert_eq!(pieces.len(), 1);
    assert_eq!(duration(&pieces[0], now), 8 * HOUR);
}

#[test]
fn split_conserves_duration_over_several_days() {
    let now = ts("2024-01-10 00:00:00 +00:00");
    let a = activity("2024-01-01 20:00:00 +00:00", Some("2024-01-04 04:00:00 +00:00"), "A", "office");
    let pieces = a.midnight_pieces(now);
    assert_eq!(pieces.len(), 4);
    let total: i128 = pieces.iter().map(|p| duration(p, now)).sum();
    assert_eq!(total + (pieces.len() as i128 - 1), duration(&a, now));
}

#[test]
fn split_running_activity_uses_fallback() {
    let a = activity("2024-01-01 22:00:00 +00:00", None, "A", "office");
    let now = ts("2024-01-02 02:00:00 +00:00");
    let pieces = a.midnight_pieces(now);
    assert_eq!(pieces.len(), 2);
    assert!(pieces[0].end_time().is_some());
    assert!(pieces[1].end_time().is_none());
    assert_eq!(duration(&pieces[1], now), 2 * HOUR);
}

#[test]
fn split_iterator_is_exhausted_once() {
    let a = activity("2024-01-01 23:00:00 +00:00", Some("2024-01-02 01:00:00 +00:00"), "A", "office");
    let mut split = a.split_on_midnight(ts("2024-01-03 00:00:00 +00:00"));
    assert!(split.next().is_some());
    assert!(split.next().is_some());
    assert!(split.next().is_none());
    assert!(split.next().is_none());
}

#[test]
fn split_counts_days_at_the_start_offset() {
    let a = activity("2024-01-01 23:30:00 +01:00", Some("2024-01-01 23:10:00 +00:00"), "A", "office");
    let pieces = a.midnight_pieces(ts("2024-01-05 00:00:00 +00:00"));
    assert_eq!(pieces.len(), 2);
    assert_eq!(*pieces[1].start_time(), ts("2024-01-02 00:00:00 +01:00"));
}

#[test]
fn last_two_of_three_entries() {
    let newest_first = vec![
        finish("2024-01-01 12:00:00 +00:00"),
        begin("2024-01-01 11:00:00 +00:00", "B"),
        begin("2024-01-01 10:00:00 +00:00", "A"),
    ];
    let now = ts("2024-01-01 13:00:00 +00:00");
    let r = last_n_activities(&newest_first, 2, now);
    assert_eq!(r.len(), 2);
    assert_eq!(r[0].name(), "A");
    assert_eq!(*r[0].start_time(), ts("2024-01-01 10:00:00 +00:00"));
    assert_eq!(*r[0].end_time().unwrap(), ts("2024-01-01 11:00:00 +00:00"));
    assert_eq!(r[1].name(), "B");
    assert_eq!(*r[1].start_time(), ts("2024-01-01 11:00:00 +00:00"));
    assert_eq!(*r[1].end_time().unwrap(), ts("2024-01-01 12:00:00 +00:00"));
}

#[test]
fn last_one_is_running() {
    let newest_first = vec![begin("2024-01-01 11:00:00 +00:00", "B"), begin("2024-01-01 10:00:00 +00:00", "A")];
    let now = ts("2024-01-01 13:00:00 +00:00");
    let r = last_n_activities(&newest_first, 1, now);
    assert_eq!(r.len(), 1);
    assert_eq!(r[0].name(), "B");
    assert!(r[0].end_time().is_none());
    assert!(last_n_activities(&newest_first, 0, now).is_empty());
    assert!(last_n_activities(&Vec::new(), 3, now).is_empty());
}

#[test]
fn last_n_takes_trailing_midnight_pieces() {
    let newest_first = vec![
        finish("2024-01-02 02:00:00 +00:00"),
        begin("2024-01-01 22:00:00 +00:00", "Night"),
        begin("2024-01-01 10:00:00 +00:00", "Day"),
    ];
    let now = ts("2024-01-03 00:00:00 +00:00");
    let r = last_n_activities(&newest_first, 1, now);
    assert_eq!(r.len(), 1);
    assert_eq!(*r[0].start_time(), ts("2024-01-02 00:00:00 +00:00"));
    let all = last_n_activities(&newest_first, 10, now);
    assert_eq!(all.len(), 3);
    assert_eq!(all[0].name(), "Day");
}

#[test]
fn tail_scan_stops_wanting_entries() {
    let now = ts("2024-01-01 13:00:00 +00:00");
    let mut scan = TailScan::new(1, now);
    assert!(scan.wants_more());
    scan.push_entry(finish("2024-01-01 12:00:00 +00:00"));
    assert!(scan.wants_more());
    scan.push_entry(begin("2024-01-01 11:00:00 +00:00", "B"));
    assert!(!scan.wants_more());
    let r = scan.finish();
    assert_eq!(r.len(), 1);
    assert_eq!(r[0].name(), "B");
}

#[test]
fn range_query_keeps_running_activity_open() {
    let newest_first = vec![
        begin("2024-01-01 09:00:00 +00:00", "C"),
        finish("2024-01-01 07:30:00 +00:00"),
        begin("2024-01-01 07:00:00 +00:00", "B"),
    ];
    let since = ts("2024-01-01 08:00:00 +00:00");
    let entries = backwards_entries_since(&newest_first, since);
    assert_eq!(entries.len(), 2);
    let r = activities_since(&entries, since);
    assert_eq!(r.len(), 1);
    assert_eq!(r[0].name(), "C");
    assert!(r[0].end_time().is_none());
    let now = ts("2024-01-01 10:30:00 +00:00");
    assert_eq!(duration(&r[0], now), 90 * MINUTE);
    let collapsed = collapse_activities(&r, now);
    assert_eq!(collapsed.len(), 1);
    assert_eq!(collapsed[0].duration(), 90 * MINUTE);
    assert_eq!(r[0].to_line(), "2024-01-01 09:00:00 +00:00		C	office	W	");
}

#[test]
fn range_query_includes_activity_running_at_start() {
    let newest_first = vec![
        finish("2024-01-01 12:00:00 +00:00"),
        begin("2024-01-01 10:00:00 +00:00", "B"),
        begin("2024-01-01 07:00:00 +00:00", "A"),
        begin("2024-01-01 05:00:00 +00:00", "Z"),
    ];
    let since = ts("2024-01-01 08:00:00 +00:00");
    let entries = backwards_entries_since(&newest_first, since);
    assert_eq!(entries.len(), 3);
    let r = activities_since(&entries, since);
    assert_eq!(r.len(), 2);
    assert_eq!(r[0].name(), "A");
    assert_eq!(*r[0].end_time().unwrap(), ts("2024-01-01 10:00:00 +00:00"));
    assert_eq!(r[1].name(), "B");
}

#[test]
fn range_query_drops_pieces_before_start() {
    let oldest_first = vec![begin("2024-01-01 22:00:00 +00:00", "Night"), finish("2024-01-02 02:00:00 +00:00")];
    let r = activities_since(&oldest_first, ts("2024-01-02 00:00:00 +00:00"));
    assert_eq!(r.len(), 1);
    assert_eq!(*r[0].start_time(), ts("2024-01-02 00:00:00 +00:00"));
}

#[test]
fn entries_since_stops_at_boundary() {
    let mut scan = EntriesSince::new(ts("2024-01-01 08:00:00 +00:00"));
    assert!(scan.wants_more());
    scan.push_entry(begin("2024-01-01 09:00:00 +00:00", "C"));
    assert!(scan.wants_more());
    scan.push_entry(begin("2024-01-01 08:00:00 +00:00", "B"));
    assert!(!scan.wants_more());
    scan.push_entry(begin("2024-01-01 07:00:00 +00:00", "A"));
    let r = scan.finish();
    assert_eq!(r.len(), 2);
    assert_eq!(*r[0].time_stamp(), ts("2024-01-01 08:00:00 +00:00"));
}

#[test]
fn collapse_groups_same_key_same_day() {
    let acts = vec![
        TrackedActivity::new(
            start("2024-01-01 09:00:00 +00:00", "A", "office", "W", "d"),
            Some(ts("2024-01-01 09:30:00 +00:00")),
        ),
        TrackedActivity::new(
            start("2024-01-01 10:00:00 +00:00", "B", "office", "W", "d"),
            Some(ts("2024-01-01 10:45:00 +00:00")),
        ),
    ];
    let r = collapse_activities(&acts, ts("2024-01-02 00:00:00 +00:00"));
    assert_eq!(r.len(), 1);
    assert_eq!(r[0].duration(), 75 * MINUTE);
    assert_eq!(r[0].start_time(), ts("2024-01-01 09:00:00 +00:00"));
    assert_eq!(r[0].wbs(), "W");
    assert_eq!(r[0].attendance(), "office");
    assert_eq!(r[0].description(), "d");
}

#[test]
fn collapse_separates_keys_and_days() {
    let acts = vec![
        TrackedActivity::new(
            start("2024-01-01 09:00:00 +00:00", "A", "office", "W", ""),
            Some(ts("2024-01-01 10:00:00 +00:00")),
        ),
        TrackedActivity::new(
            start("2024-01-01 10:00:00 +00:00", "A", "remote", "W", ""),
            Some(ts("2024-01-01 11:00:00 +00:00")),
        ),
        TrackedActivity::new(start("2024-01-01 23:00:00 +00:00", "A", "office", "W", ""), None),
    ];
    let now = ts("2024-01-02 01:00:00 +00:00");
    let r = collapse_activities(&acts, now);
    assert_eq!(r.len(), 3);
    assert_eq!(r[0].duration(), 2 * HOUR - 1);
    assert_eq!(r[1].attendance(), "remote");
    assert_eq!(r[1].duration(), HOUR);
    assert_eq!(r[2].start_time(), ts("2024-01-02 00:00:00 +00:00"));
    assert_eq!(r[2].duration(), HOUR);
    assert!(collapse_activities(&[], now).is_empty());
}

#[test]
fn collapse_orders_by_first_start() {
    let acts = vec![
        TrackedActivity::new(
            start("2024-01-02 09:00:00 +00:00", "A", "office", "W", ""),
            Some(ts("2024-01-02 10:00:00 +00:00")),
        ),
        TrackedActivity::new(
            start("2024-01-01 09:00:00 +00:00", "A", "office", "W", ""),
            Some(ts("2024-01-01 10:00:00 +00:00")),
        ),
    ];
    let r = collapse_activities(&acts, ts("2024-01-03 00:00:00 +00:00"));
    assert_eq!(r.len(), 2);
    assert_eq!(r[0].start_time(), ts("2024-01-01 09:00:00 +00:00"));
}

#[test]
fn collapse_of_distinct_keys_changes_nothing() {
    let acts = vec![
        TrackedActivity::new(
            start("2024-01-01 09:00:00 +00:00", "A", "office", "W1", ""),
            Some(ts("2024-01-01 09:20:00 +00:00")),
        ),
        TrackedActivity::new(
            start("2024-01-01 10:00:00 +00:00", "B", "office", "W2", ""),
            Some(ts("2024-01-01 10:40:00 +00:00")),
        ),
    ];
    let now = ts("2024-01-02 00:00:00 +00:00");
    let r = collapse_activities(&acts, now);
    assert_eq!(r.len(), 2);
    for (c, a) in r.iter().zip(acts.iter()) {
        assert_eq!(c.start_time(), *a.start_time());
        assert_eq!(c.duration(), duration(a, now));
        assert_eq!(c.wbs(), a.wbs());
    }
}

#[test]
fn attendance_ranges_merge_contiguous_same_type() {
    let acts = vec![
        activity("2024-01-01 09:00:00 +00:00", Some("2024-01-01 10:00:00 +00:00"), "A", "office"),
        activity("2024-01-01 10:00:00 +00:00", Some("2024-01-01 11:00:00 +00:00"), "B", "office"),
        activity("2024-01-01 11:00:00 +00:00", Some("2024-01-01 12:00:00 +00:00"), "C", "remote"),
    ];
    let r = get_attendance_ranges(&acts);
    assert_eq!(r.len(), 2);
    assert_eq!(*r[0].start_time(), ts("2024-01-01 09:00:00 +00:00"));
    assert_eq!(*r[0].end_time().unwrap(), ts("2024-01-01 11:00:00 +00:00"));
    assert_eq!(r[0].attendance(), "office");
    assert_eq!(*r[1].start_time(), ts("2024-01-01 11:00:00 +00:00"));
    assert_eq!(*r[1].end_time().unwrap(), ts("2024-01-01 12:00:00 +00:00"));
    assert_eq!(r[1].attendance(), "remote");
}

#[test]
fn attendance_ranges_split_on_gap_and_open_end() {
    let acts = vec![
        activity("2024-01-01 09:00:00 +00:00", Some("2024-01-01 10:00:00 +00:00"), "A", "office"),
        activity("2024-01-01 10:30:00 +00:00", None, "B", "office"),
        activity("2024-01-01 11:00:00 +00:00", Some("2024-01-01 12:00:00 +00:00"), "C", "office"),
    ];
    let r = get_attendance_ranges(&acts);
    assert_eq!(r.len(), 3);
    assert!(r[1].end_time().is_none());
    assert!(get_attendance_ranges(&[]).is_empty());
}

#[test]
fn attendance_ranges_merging_again_changes_nothing() {
    let acts = vec![
        activity("2024-01-01 09:00:00 +00:00", Some("2024-01-01 10:00:00 +00:00"), "A", "office"),
        activity("2024-01-01 10:00:00 +00:00", Some("2024-01-01 11:00:00 +00:00"), "B", "office"),
        activity("2024-01-01 11:00:00 +00:00", Some("2024-01-01 12:00:00 +00:00"), "C", "remote"),
    ];
    let once = get_attendance_ranges(&acts);
    let again_input: Vec<TrackedActivity> = once
        .iter()
        .map(|g| TrackedActivity::new(start(&g.start_time().to_text(), "x", g.attendance(), "W", ""), g.end_time().copied()))
        .collect();
    let twice = get_attendance_ranges(&again_input);
    assert_eq!(twice.len(), once.len());
    for (a, b) in once.iter().zip(twice.iter()) {
        assert_eq!(a.start_time(), b.start_time());
        assert_eq!(a.end_time(), b.end_time());
        assert_eq!(a.attendance(), b.attendance());
    }
}

#[test]
fn lines_of_intervals_and_ranges() {
    let done = activity("2024-01-01 09:00:00 +00:00", Some("2024-01-01 10:00:00 +00:00"), "A", "office");
    assert_eq!(done.to_line(), "2024-01-01 09:00:00 +00:00\t2024-01-01 10:00:00 +00:00\tA\toffice\tW\t");
    let running = activity("2024-01-01 10:00:00 +00:00", None, "B", "remote");
    assert_eq!(running.to_line(), "2024-01-01 10:00:00 +00:00\t\tB\tremote\tW\t");
    let ranges = get_attendance_ranges(&[done, running]);
    assert_eq!(ranges[0].to_line(), "2024-01-01 09:00:00 +00:00\t2024-01-01 10:00:00 +00:00\toffice");
    assert_eq!(ranges[1].to_line(), "2024-01-01 10:00:00 +00:00\t\tremote");
}

#[test]
fn collapse_fits_for_ordinary_logs() {
    let acts = vec![
        activity("2024-01-01 09:00:00 +00:00", Some("2024-01-01 10:00:00 +00:00"), "A", "office"),
        activity("0001-01-02 00:00:00 +00:00", Some("9999-12-30 23:00:00 +00:00"), "B", "office"),
    ];
    assert!(collapse_fits(&acts, ts("2024-01-02 00:00:00 +00:00")));
    assert!(collapse_fits(&[], ts("2024-01-02 00:00:00 +00:00")));
}

#[test]
fn recollapsing_collapsed_output_changes_nothing() {
    let acts = vec![
        TrackedActivity::new(
            start("2024-01-01 09:00:00 +00:00", "A", "office", "W", "d"),
            Some(ts("2024-01-01 09:30:00 +00:00")),
        ),
        TrackedActivity::new(
            start("2024-01-01 10:00:00 +00:00", "B", "office", "W", "d"),
            Some(ts("2024-01-01 10:45:00 +00:00")),
        ),
        TrackedActivity::new(
            start("2024-01-01 11:00:00 +00:00", "C", "remote", "X", ""),
            Some(ts("2024-01-01 12:00:00 +00:00")),
        ),
    ];
    let now = ts("2024-01-02 00:00:00 +00:00");
    let once = collapse_activities(&acts, now);
    let again: Vec<TrackedActivity> = once
        .iter()
        .map(|c| {
            let begin = c.start_time();
            let end_nanos = begin.instant_nanos() + c.duration();
            let end = Timestamp::from_parts(
                end_nanos.div_euclid(1_000_000_000) as i64,
                end_nanos.rem_euclid(1_000_000_000) as u32,
                begin.offset,
            )
            .unwrap();
            TrackedActivity::new(start(&begin.to_text(), "", c.attendance(), c.wbs(), c.description()), Some(end))
        })
        .collect();
    let twice = collapse_activities(&again, now);
    assert_eq!(twice.len(), once.len());
    for (a, b) in once.iter().zip(twice.iter()) {
        assert_eq!(a.start_time(), b.start_time());
        assert_eq!(a.duration(), b.duration());
        assert_eq!(a.wbs(), b.wbs());
        assert_eq!(a.attendance(), b.attendance());
        assert_eq!(a.description(), b.description());
    }
}

use timetrack::entry::{sanitize_description, ActivityEntry, ParseEntryError};
use timetrack::timestamp::Timestamp;

fn ts(text: &str) -> Timestamp {
    Timestamp::parse(text).expect("valid timestamp")
}

#[test]
fn timestamp_parse_reads_parts() {
    let t = ts("2024-01-01 23:00:00 +01:00");
    assert_eq!(t.secs, 1_704_146_400);
    assert_eq!(t.nanos, 0);
    assert_eq!(t.offset, 3600);
}

#[test]
fn timestamp_parse_accepts_rfc3339_with_t_and_fraction() {
    let t = ts("2024-01-02T00:00:00.5Z");
    assert_eq!(t.secs, 1_704_153_600);
    assert_eq!(t.nanos, 500_000_000);
    assert_eq!(t.offset, 0);
}

#[test]
fn timestamp_parse_rejects_garbage() {
    assert!(Timestamp::parse("yesterday").is_none());
    assert!(Timestamp::parse("").is_none());
}

#[test]
fn timestamp_text_round_trips() {
    let t = ts("2024-03-05 07:08:09.123456789 -05:30");
    let text = t.to_text();
    assert_eq!(text, "2024-03-05 07:08:09.123456789 -05:30");
    assert_eq!(Timestamp::parse(&text), Some(t));
}

#[test]
fn timestamp_from_parts_checks_range() {
    assert!(Timestamp::from_parts(0, 0, 0).is_some());
    assert!(Timestamp::from_parts(0, 1_000_000_000, 0).is_none());
    assert!(Timestamp::from_parts(0, 0, 86_400).is_none());
    assert!(Timestamp::from_parts(0, 0, 30).is_none());
    assert!(Timestamp::from_parts(i64::MAX, 0, 0).is_none());
}

#[test]
fn local_day_follows_offset() {
    let t = ts("2024-01-01 23:30:00 +01:00");
    assert_eq!(t.local_day_number(), 19723);
    let u = ts("2024-01-01 22:30:00 +00:00");
    assert_eq!(u.local_day_number(), 19723);
    assert_eq!(t.day_at_offset(7200), 19724);
    let before_epoch = ts("1969-12-31 23:59:59 +00:00");
    assert_eq!(before_epoch.local_day_number(), -1);
}

#[test]
fn next_midnight_and_previous_nanosecond() {
    let t = ts("2024-01-01 23:00:00 +01:00");
    let m = t.next_midnight();
    assert_eq!(m, ts("2024-01-02 00:00:00 +01:00"));
    let p = m.prev_nano();
    assert_eq!(p.to_text(), "2024-01-01 23:59:59.999999999 +01:00");
}

#[test]
fn parse_start_line() {
    let e = ActivityEntry::parse_line("2024-01-01 10:00:00 +00:00\tcoding\toffice\tWBS-1\tfix bug").unwrap();
    match e {
        ActivityEntry::Start(s) => {
            assert_eq!(s.time_stamp, ts("2024-01-01 10:00:00 +00:00"));
            assert_eq!(s.name(), "coding");
            assert_eq!(s.attendance(), "office");
            assert_eq!(s.wbs(), "WBS-1");
            assert_eq!(s.description(), "fix bug");
        }
        ActivityEntry::End(_) => panic!("expected a start"),
    }
}

#[test]
fn parse_start_line_without_description() {
    let e = ActivityEntry::parse_line("2024-01-01 10:00:00 +00:00\tcoding\toffice\tWBS-1").unwrap();
    match e {
        ActivityEntry::Start(s) => assert_eq!(s.description(), ""),
        ActivityEntry::End(_) => panic!("expected a start"),
    }
}

#[test]
fn parse_end_line() {
    let e = ActivityEntry::parse_line("2024-01-01 12:00:00 +00:00\t__END").unwrap();
    match e {
        ActivityEntry::End(end) => assert_eq!(*end.time_stamp(), ts("2024-01-01 12:00:00 +00:00")),
        ActivityEntry::Start(_) => panic!("expected an end"),
    }
}

#[test]
fn parse_errors_in_order() {
    assert!(matches!(ActivityEntry::parse_line("2024-01-01 10:00:00 +00:00"), Err(ParseEntryError::MissingName)));
    assert!(matches!(ActivityEntry::parse_line(""), Err(ParseEntryError::MissingName)));
    assert!(matches!(
        ActivityEntry::parse_line("2024-01-01 10:00:00 +00:00\tcoding"),
        Err(ParseEntryError::MissingAttendance)
    ));
    assert!(matches!(
        ActivityEntry::parse_line("2024-01-01 10:00:00 +00:00\tcoding\toffice"),
        Err(ParseEntryError::MissingWbs)
    ));
    assert!(matches!(
        ActivityEntry::parse_line("not a time\tcoding\toffice\tW"),
        Err(ParseEntryError::ParseDatetime(_))
    ));
    assert!(matches!(ActivityEntry::parse_line("x\tA"), Err(ParseEntryError::MissingAttendance)));
    assert!(matches!(ActivityEntry::parse_line("x\tA\toffice"), Err(ParseEntryError::MissingWbs)));
    assert!(matches!(ActivityEntry::parse_line("x\t__END"), Err(ParseEntryError::ParseDatetime(_))));
    assert!(matches!(ActivityEntry::parse_line("x"), Err(ParseEntryError::MissingName)));
    assert!(matches!(
        ActivityEntry::parse_line("2024-01-01 10:00:00 +00:00:30\tcoding\toffice\tW"),
        Err(ParseEntryError::ParseDatetime(_)) | Err(ParseEntryError::TimestampOutOfRange)
    ));
    assert!(matches!(
        ActivityEntry::parse_line("2024-06-30 23:59:60 +00:00\t__END"),
        Err(ParseEntryError::TimestampOutOfRange)
    ));
}

#[test]
fn format_start_and_end() {
    let t = ts("2024-01-01 10:00:00 +02:00");
    let start = ActivityEntry::new_start(t, "coding", "office", "WBS-1", "fix bug");
    assert_eq!(start.to_string(), "2024-01-01 10:00:00 +02:00\tcoding\toffice\tWBS-1\tfix bug");
    let end = ActivityEntry::new_end(t);
    assert_eq!(end.to_string(), "2024-01-01 10:00:00 +02:00\t__END");
}

#[test]
fn entry_round_trip() {
    let t = ts("2024-02-29 08:15:30.25 +05:45");
    let entries = vec![
        ActivityEntry::new_start(t, "a/b", "remote", "X-9", ""),
        ActivityEntry::new_start(t, "coding", "office", "WBS-1", "with -- dashes"),
        ActivityEntry::new_end(t),
    ];
    for e in entries {
        let line = e.to_string();
        let back = ActivityEntry::parse_line(&line).unwrap();
        assert_eq!(back.to_string(), line);
        assert_eq!(*back.time_stamp(), *e.time_stamp());
        assert_eq!(back.attendance_type(), e.attendance_type());
    }
}

#[test]
fn sanitize_replaces_tabs_and_newlines() {
    assert_eq!(sanitize_description("a\tb\nc"), "a    b -- c");
    assert_eq!(sanitize_description(""), "");
    assert_eq!(sanitize_description("plain"), "plain");
}

#[test]
fn with_timestamp_keeps_fields() {
    let e = ActivityEntry::new_start(ts("2024-01-01 10:00:00 +00:00"), "n", "a", "w", "d");
    let moved = e.with_timestamp(ts("2024-01-02 10:00:00 +00:00"));
    assert_eq!(moved.to_string(), "2024-01-02 10:00:00 +00:00\tn\ta\tw\td");
    assert_eq!(moved.attendance_type(), Some("a"));
    assert_eq!(ActivityEntry::new_end(ts("2024-01-01 10:00:00 +00:00")).attendance_type(), None);
}

use timetrack::entry::ActivityEntry;
use timetrack::session::{plan_end, plan_start, StartError};
use timetrack::timestamp::Timestamp;

fn ts(text: &str) -> Timestamp {
    Timestamp::parse(text).expect("valid timestamp")
}

fn known() -> Vec<(String, String)> {
    vec![("office".to_string(), "at the office".to_string()), ("remote".to_string(), String::new())]
}

#[test]
fn start_uses_asked_attendance_and_sanitized_description() {
    let now = ts("2024-01-01 10:00:00 +00:00");
    let e = plan_start(now, "coding", "W", Some("default"), Some("remote"), Some("a\tb"), None, "office", &known()).unwrap();
    assert_eq!(e.to_string(), "2024-01-01 10:00:00 +00:00\tcoding\tremote\tW\ta    b");
}

#[test]
fn start_keeps_attendance_of_running_activity() {
    let now = ts("2024-01-01 10:00:00 +00:00");
    let last = ActivityEntry::new_start(ts("2024-01-01 09:00:00 +00:00"), "x", "remote", "W", "");
    let e = plan_start(now, "coding", "W", Some("line1\nline2"), None, None, Some(&last), "office", &known()).unwrap();
    assert_eq!(e.attendance_type(), Some("remote"));
    assert_eq!(e.to_string(), "2024-01-01 10:00:00 +00:00\tcoding\tremote\tW\tline1 -- line2");
}

#[test]
fn start_falls_back_to_default_attendance() {
    let now = ts("2024-01-01 10:00:00 +00:00");
    let last = ActivityEntry::new_end(ts("2024-01-01 09:00:00 +00:00"));
    let e = plan_start(now, "coding", "W", None, None, None, Some(&last), "office", &known()).unwrap();
    assert_eq!(e.attendance_type(), Some("office"));
    assert_eq!(e.to_string(), "2024-01-01 10:00:00 +00:00\tcoding\toffice\tW\t");
}

#[test]
fn start_rejects_unknown_attendance() {
    let now = ts("2024-01-01 10:00:00 +00:00");
    match plan_start(now, "coding", "W", None, Some("beach"), None, None, "office", &known()) {
        Err(StartError::UnknownAttendance(a)) => assert_eq!(a, "beach"),
        Ok(_) => panic!("expected an error"),
    }
}

#[test]
fn end_only_when_running() {
    let now = ts("2024-01-01 10:00:00 +00:00");
    let running = ActivityEntry::new_start(ts("2024-01-01 09:00:00 +00:00"), "x", "office", "W", "");
    let ended = ActivityEntry::new_end(ts("2024-01-01 09:30:00 +00:00"));
    let e = plan_end(now, Some(&running)).unwrap();
    assert_eq!(e.to_string(), "2024-01-01 10:00:00 +00:00\t__END");
    assert!(plan_end(now, Some(&ended)).is_none());
    assert!(plan_end(now, None).is_none());
}

#[test]
fn time_delta_text() {
    const S: i128 = 1_000_000_000;
    assert_eq!(timetrack::duration_text::format_time_delta(0), "0s");
    assert_eq!(timetrack::duration_text::format_time_delta(59 * S + 999_999_999), "59s");
    assert_eq!(timetrack::duration_text::format_time_delta((86400 + 2 * 3600 + 3 * 60 + 4) * S), "1d 2h 3m 4s");
    assert_eq!(timetrack::duration_text::format_time_delta((86400 + 5) * S), "1d 5s");
    assert_eq!(timetrack::duration_text::format_time_delta(3 * 3600 * S), "3h 0s");
    assert_eq!(timetrack::duration_text::format_time_delta(-5 * S - 1), "-5s");
    assert_eq!(timetrack::duration_text::format_time_delta(-S / 2), "0s");
}

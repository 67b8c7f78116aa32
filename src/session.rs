//! The decisions behind starting and ending an activity: which attendance
//! type and description a new `Start` gets, and whether there is anything
//! to end.

use crate::activity_range::same_text;
use crate::entry::{sanitize_description, sanitized, ActivityEntry, EntryView, StartView};
use crate::timestamp::Timestamp;
use vstd::prelude::*;

verus! {

#[derive(Debug, Clone)]
pub enum StartError {
    /// The chosen attendance type is not among the configured ones.
    UnknownAttendance(String),
}

pub open spec fn opt_view(o: Option<&str>) -> Option<Seq<char>> {
    match o {
        Some(s) => Some(s@),
        None => None,
    }
}

/// The attendance type of a new `Start`: the one asked for, else the one of
/// the running activity, else the configured default.
pub open spec fn chosen_attendance(asked: Option<Seq<char>>, last: Option<EntryView>, default: Seq<char>) -> Seq<char> {
    match asked {
        Some(a) => a,
        None => match last {
            Some(EntryView::Start(s)) => s.attendance,
            _ => default,
        },
    }
}

/// The description of a new `Start`: the one asked for, else the activity's
/// default, made to fit on one line; empty where there is neither.
pub open spec fn chosen_description(asked: Option<Seq<char>>, default: Option<Seq<char>>) -> Seq<char> {
    match asked {
        Some(d) => sanitized(d),
        None => match default {
            Some(d) => sanitized(d),
            None => Seq::empty(),
        },
    }
}

pub open spec fn is_known(code: Seq<char>, known: Seq<(String, String)>) -> bool {
    exists|i: int| 0 <= i < known.len() && (#[trigger] known[i]).0@ == code
}

/// The `Start` entry for a new activity, or the attendance type that is
/// not configured.
pub fn plan_start(
    now: Timestamp,
    activity_name: &str,
    wbs: &str,
    default_description: Option<&str>,
    attendance: Option<&str>,
    description: Option<&str>,
    last_entry: Option<&ActivityEntry>,
    default_attendance: &str,
    known_attendance: &Vec<(String, String)>,
) -> (r: Result<ActivityEntry, StartError>)
    ensures
        ({
            let last = match last_entry {
                Some(e) => Some(e@),
                None => None,
            };
            let chosen = chosen_attendance(opt_view(attendance), last, default_attendance@);
            if is_known(chosen, known_attendance@) {
                r matches Ok(e) && e@ == EntryView::Start(
                    StartView {
                        time_stamp: now,
                        name: activity_name@,
                        attendance: chosen,
                        description: chosen_description(opt_view(description), opt_view(default_description)),
                        wbs: wbs@,
                    },
                )
            } else {
                r matches Err(StartError::UnknownAttendance(a)) && a@ == chosen
            }
        }),
{
    let last_attendance = match last_entry {
        Some(e) => e.attendance_type(),
        None => None,
    };
    let chosen = match attendance {
        Some(a) => a,
        None => match last_attendance {
            Some(a) => a,
            None => default_attendance,
        },
    };
    let mut known = false;
    let mut i: usize = 0;
    while i < known_attendance.len()
        invariant
            i <= known_attendance@.len(),
            known == exists|k: int| 0 <= k < i && (#[trigger] known_attendance@[k]).0@ == chosen@,
        decreases known_attendance.len() - i,
    {
        if same_text(known_attendance[i].0.as_str(), chosen) {
            known = true;
        }
        i += 1;
    }
    if !known {
        return Err(StartError::UnknownAttendance(chosen.to_owned()));
    }
    let text = match description {
        Some(d) => sanitize_description(d),
        None => match default_description {
            Some(d) => sanitize_description(d),
            None => String::new(),
        },
    };
    Ok(ActivityEntry::new_start(now, activity_name, chosen, wbs, text.as_str()))
}

/// The `End` entry that stops the running activity; `None` when nothing is
/// running.
pub fn plan_end(now: Timestamp, last_entry: Option<&ActivityEntry>) -> (r: Option<ActivityEntry>)
    ensures
        match last_entry {
            Some(e) => match e@ {
                EntryView::Start(_) => r matches Some(x) && x@ == EntryView::End(now),
                EntryView::End(_) => r is None,
            },
            None => r is None,
        },
{
    match last_entry {
        Some(ActivityEntry::Start(_)) => Some(ActivityEntry::new_end(now)),
        _ => None,
    }
}

} // verus!

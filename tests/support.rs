use timetrack::activity_range::{ActivityRange, InLast};
use timetrack::format_string::{EvalError, FormatString, FormatStringPart};
use timetrack::printable::{AlignedList, AnsiiColor, ListPrintOptions, Table, TableCharOptions, TablePrintOptions};
use timetrack::trackable::{Activity, ActivityCategory, ActivityItemRef, ActivityLeaf, LookupError, ParseActivityErr, PrintableActivityItem};

fn vars(pairs: &[(&str, &str)]) -> Vec<(String, String)> {
    pairs.iter().map(|(k, v)| (k.to_string(), v.to_string())).collect()
}

#[test]
fn evaluate_fills_variables() {
    let f = FormatString {
        parts: vec![
            FormatStringPart::Literal("report-".to_string()),
            FormatStringPart::Variable("year".to_string()),
            FormatStringPart::Literal("-".to_string()),
            FormatStringPart::Variable("month".to_string()),
        ],
    };
    let r = f.evaluate(&vars(&[("year", "2024"), ("month", "01"), ("year", "1999")])).unwrap();
    assert_eq!(r, "report-2024-01");
}

#[test]
fn evaluate_reports_missing_variable() {
    let f = FormatString { parts: vec![FormatStringPart::Variable("day".to_string())] };
    match f.evaluate(&vars(&[("year", "2024")])) {
        Err(EvalError::VarNotFound { requested }) => assert_eq!(requested, "day"),
        Ok(_) => panic!("expected an error"),
    }
    assert_eq!(FormatString { parts: vec![] }.evaluate(&vars(&[])).unwrap(), "");
}

#[test]
fn activity_line_parses() {
    let a = Activity::parse_line("work/project/coding\tWBS-7\tdefault text").unwrap();
    assert_eq!(a.leaf_name(), "coding");
    assert_eq!(a.wbs(), "WBS-7");
    assert_eq!(a.description(), Some("default text"));
    assert_eq!(a.full_path(), "work/project/coding");
    let b = Activity::parse_line("meeting\tWBS-1\t").unwrap();
    assert_eq!(b.description(), None);
    assert_eq!(b.full_path(), "meeting");
}

#[test]
fn activity_line_errors() {
    assert!(matches!(Activity::parse_line("coding"), Err(ParseActivityErr::MissingWbs)));
    assert!(matches!(Activity::parse_line("work/\tW"), Err(ParseActivityErr::NoNameInPath)));
    assert!(matches!(Activity::parse_line("\tW"), Err(ParseActivityErr::NoNameInPath)));
}

#[test]
fn builtin_idle_activity() {
    let idle = Activity::builtin_idle();
    assert_eq!(idle.full_path(), "idle");
    assert_eq!(idle.wbs(), "Idle");
    assert_eq!(idle.description(), None);
    assert_eq!(idle.leaf.name(), "idle");
    assert_eq!(idle.leaf.wbs(), "Idle");
    assert_eq!(idle.leaf.description(), None);
}

#[test]
fn table_char_sets() {
    let s = TableCharOptions::sharp();
    assert_eq!(s.caps.unwrap().dr, '┌');
    assert_eq!(s.v, '│');
    let r = TableCharOptions::rounded();
    assert_eq!(r.caps.unwrap().ul, '╯');
    let m = TableCharOptions::ascii_markdown();
    assert!(m.caps.is_none());
    assert_eq!(m.hv, '|');
    assert_eq!(TableCharOptions::default(), m);
}

#[test]
fn options_are_replaced() {
    let mut t: Table<String, String> = Table::new(vec!["k".to_string()], vec![vec!["v".to_string()]]);
    let opts = TablePrintOptions { colors: None, chars: TableCharOptions::rounded() };
    t.with_options(opts);
    assert_eq!(t.options, opts);
    assert_eq!(t.keys, vec!["k".to_string()]);
    let mut l: AlignedList<String, String> = AlignedList::new(vec!["k".to_string()], vec!["v".to_string()]);
    assert_eq!(l.options.bullet, "-> ");
    l.with_options(ListPrintOptions { bullet: "* ".to_string(), colors: None });
    assert_eq!(l.options.bullet, "* ");
    assert_eq!(AnsiiColor::Blue.code(), "34");
    assert_eq!(AnsiiColor::default(), AnsiiColor::Plain);
}

#[test]
fn range_values() {
    let r = ActivityRange::Timeframe(InLast::Days(3));
    assert_eq!(r, ActivityRange::Timeframe(InLast::Days(3)));
    assert_ne!(r, ActivityRange::Count(3));
}

#[test]
fn range_parse_units() {
    assert_eq!(ActivityRange::parse("0").unwrap(), ActivityRange::Count(0));
    assert_eq!(ActivityRange::parse("12").unwrap(), ActivityRange::Count(12));
    assert_eq!(ActivityRange::parse("3h").unwrap(), ActivityRange::Timeframe(InLast::Hours(3)));
    assert_eq!(ActivityRange::parse("2Days").unwrap(), ActivityRange::Timeframe(InLast::Days(2)));
    assert_eq!(ActivityRange::parse("week").unwrap(), ActivityRange::Timeframe(InLast::Weeks(0)));
    assert_eq!(ActivityRange::parse("1MONTHS").unwrap(), ActivityRange::Timeframe(InLast::Months(1)));
    assert_eq!(ActivityRange::parse("").unwrap(), ActivityRange::Count(0));
}

#[test]
fn range_parse_errors() {
    match ActivityRange::parse("5years") {
        Err(timetrack::activity_range::ParseRangeError::InvalidPostfix(p)) => assert_eq!(p, "years"),
        Ok(_) => panic!("expected an error"),
    }
    match ActivityRange::parse("99999999999999999999") {
        Err(timetrack::activity_range::ParseRangeError::InvalidPostfix(p)) => assert_eq!(p, "99999999999999999999"),
        Ok(_) => panic!("expected an error"),
    }
    assert!(ActivityRange::from_parts(4, "hours", "HOURS").is_ok());
    assert!(ActivityRange::from_parts(4, "HOURS", "HOURS").is_err());
}

#[test]
fn template_parse_forms() {
    let f = FormatString::parse("a$$b-${year}_$month.csv").unwrap();
    assert_eq!(f.parts.len(), 5);
    assert!(matches!(&f.parts[0], FormatStringPart::Literal(s) if s == "a$b-"));
    assert!(matches!(&f.parts[1], FormatStringPart::Variable(s) if s == "year"));
    assert!(matches!(&f.parts[2], FormatStringPart::Literal(s) if s == "_"));
    assert!(matches!(&f.parts[3], FormatStringPart::Variable(s) if s == "month"));
    assert!(matches!(&FormatString::parse("$month.csv").unwrap().parts[1], FormatStringPart::Literal(s) if s == ".csv"));
    assert_eq!(FormatString::parse("").unwrap().parts.len(), 0);
}

#[test]
fn template_parse_failures() {
    assert_eq!(FormatString::parse("abc${year").unwrap_err(), "${year");
    assert_eq!(FormatString::parse("x $ y").unwrap_err(), "$ y");
    assert_eq!(FormatString::parse("$").unwrap_err(), "$");
}

#[test]
fn template_text_round_trips() {
    let text = "report_$$_${employee_number}${year}";
    let f = FormatString::parse(text).unwrap();
    assert_eq!(f.to_text(), "report_$$_${employee_number}${year}");
    let g = FormatString::parse(&f.to_text()).unwrap();
    assert_eq!(g.to_text(), f.to_text());
    let vars = vars(&[("employee_number", "42"), ("year", "2024")]);
    assert_eq!(f.evaluate(&vars).unwrap(), "report_$_422024");
}

fn at(text: &str) -> timetrack::timestamp::Timestamp {
    timetrack::timestamp::Timestamp::parse(text).unwrap()
}

#[test]
fn back_from_hours_days_weeks() {
    let now = at("2024-01-03 14:25:00 +01:00");
    assert_eq!(InLast::Hours(0).back_from(&now), Some(at("2024-01-03 14:00:00 +01:00")));
    assert_eq!(InLast::Hours(3).back_from(&now), Some(at("2024-01-03 11:00:00 +01:00")));
    assert_eq!(InLast::Days(0).back_from(&now), Some(at("2024-01-03 00:00:00 +01:00")));
    assert_eq!(InLast::Days(2).back_from(&now), Some(at("2024-01-01 00:00:00 +01:00")));
    assert_eq!(InLast::Weeks(0).back_from(&now), Some(at("2024-01-01 00:00:00 +01:00")));
    assert_eq!(InLast::Weeks(1).back_from(&now), Some(at("2023-12-25 00:00:00 +01:00")));
}

#[test]
fn back_from_months() {
    let now = at("2024-03-15 08:00:00 -05:00");
    assert_eq!(InLast::Months(0).back_from(&now), Some(at("2024-03-01 00:00:00 -05:00")));
    assert_eq!(InLast::Months(3).back_from(&now), Some(at("2023-12-01 00:00:00 -05:00")));
    assert_eq!(InLast::Months(14).back_from(&now), Some(at("2023-01-01 00:00:00 -05:00")));
    assert_eq!(InLast::Months(-10).back_from(&now), Some(at("2025-01-01 00:00:00 -05:00")));
}

#[test]
fn back_from_out_of_range() {
    let now = at("2024-03-15 08:00:00 +00:00");
    assert_eq!(InLast::Days(i64::MAX).back_from(&now), None);
    assert_eq!(InLast::Hours(i64::MIN).back_from(&now), None);
    assert_eq!(InLast::Months(i64::MAX).back_from(&now), None);
}

#[test]
fn hierarchy_lookup() {
    let leaf = |name: &str, wbs: &str| ActivityLeaf { name: name.to_string(), wbs: wbs.to_string(), default_description: None };
    let project = ActivityCategory { branches: vec![], leafs: vec![leaf("coding", "W1"), leaf("design", "W2")] };
    let root = ActivityCategory { branches: vec![("project".to_string(), project)], leafs: vec![leaf("idle", "Idle")] };
    let path = |p: &[&str]| p.iter().map(|s| s.to_string()).collect::<Vec<_>>();
    match root.get_item_at(&path(&["project", "design"])) {
        Ok(ActivityItemRef::Leaf(l)) => assert_eq!(l.wbs(), "W2"),
        _ => panic!("expected a leaf"),
    }
    match root.get_item_at(&path(&["project"])) {
        Ok(ActivityItemRef::Category(c)) => assert_eq!(c.leafs.len(), 2),
        _ => panic!("expected a category"),
    }
    assert!(matches!(root.get_item_at(&path(&[])), Ok(ActivityItemRef::Category(_))));
    assert!(matches!(root.get_item_at(&path(&["idle", "x"])), Err(LookupError::NotACategory { depth: 1 })));
    assert!(matches!(root.get_item_at(&path(&["project", "nope"])), Err(LookupError::NoSuchItem { depth: 1 })));
}

#[test]
fn table_renders_plain() {
    let mut t: Table<String, String> = Table::new(
        vec!["Name".to_string(), "Hours".to_string()],
        vec![vec!["coding".to_string(), "x".to_string()], vec!["1.50".to_string(), "12.25".to_string()]],
    );
    assert_eq!(t.render(), "|Name   | Hours |\n|--------|-------|\n| coding | 1.50  |\n| x      | 12.25 |".replace("|Name   |", "| Name   |"));
    t.with_options(TablePrintOptions { colors: None, chars: TableCharOptions::rounded() });
    let text = t.render();
    assert!(text.starts_with("╭────────┬───────╮\n│ Name   │ Hours │\n├────────┼───────┤"));
    assert!(text.ends_with("╰────────┴───────╯"));
}

#[test]
fn table_renders_colors() {
    let mut t: Table<String, String> = Table::new(vec!["K".to_string()], vec![vec!["v".to_string()]]);
    t.with_options(TablePrintOptions {
        colors: Some(timetrack::printable::ColorOptions { headers: AnsiiColor::Blue, lines: AnsiiColor::Plain }),
        chars: TableCharOptions::ascii_markdown(),
    });
    assert_eq!(t.render(), "\u{1b}[0m| \u{1b}[34mK \u{1b}[0m|\n|---|\u{1b}[0m\n\u{1b}[0m| \u{1b}[0mv \u{1b}[0m|\u{1b}[0m");
}

#[test]
fn list_renders_aligned_and_skips_empty() {
    let l: AlignedList<String, String> = AlignedList::new(
        vec!["Description".to_string(), "WBS".to_string(), "Date".to_string()],
        vec!["fix".to_string(), "W-1".to_string(), String::new()],
    );
    assert_eq!(l.render(), "-> Description : fix\n-> WBS         : W-1");
    let empty: AlignedList<String, String> = AlignedList::new(vec![], vec![]);
    assert_eq!(empty.render(), "");
}

#[test]
fn printable_rows() {

    let a = Activity::parse_line("work/coding\tW-3\tdesc").unwrap();
    let row = PrintableActivityItem::Activity(&a);
    assert_eq!(row.display_name(), "work/coding");
    assert_eq!(row.wbs(), Some("W-3"));
    assert_eq!(row.description(), Some("desc"));
    let cat = PrintableActivityItem::CategoryName("work");
    assert_eq!(cat.display_name(), "work/");
    assert_eq!(cat.wbs(), None);
    let leaf = PrintableActivityItem::ActivityLeaf(&a.leaf);
    assert_eq!(leaf.display_name(), "coding");
    assert_eq!(leaf.description(), Some("desc"));
}

#[test]
fn activity_lines() {
    let a = Activity::parse_line("work/coding\tW-3\tdesc").unwrap();
    assert_eq!(a.to_line(), "work/coding\tW-3\tdesc");
    assert_eq!(a.leaf.to_line(), "coding\tW-3\tdesc");
    let b = Activity::parse_line("meeting\tW-1").unwrap();
    assert_eq!(b.to_line(), "meeting\tW-1\t");
    assert_eq!(PrintableActivityItem::CategoryName("work").to_line(), "work/\t\t");
    assert_eq!(PrintableActivityItem::Activity(&a).to_line(), "work/coding\tW-3\tdesc");
    let top = Activity::from_leaf(a.leaf.clone());
    assert_eq!(top.full_path(), "coding");
}

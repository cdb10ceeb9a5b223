use std::cell::RefCell;

use timeledger::hours::format_hours;
use timeledger::output::{Log, LogLevel, Out, Output};
use timeledger::timeledger::{LedgerError, Timeledger};

struct Sink {
    lines: RefCell<Vec<String>>,
}

impl Output for Sink {
    fn write(&self, line: &str) {
        self.lines.borrow_mut().push(line.to_string());
    }
}

impl Log for Sink {
    fn log(&self, _level: LogLevel, message: &str) {
        self.lines.borrow_mut().push(message.to_string());
    }
}

impl Out for Sink {}

fn sink() -> Sink {
    Sink { lines: RefCell::new(vec![]) }
}

const ONE_DAY: &str = r#"{ "timeledger": [ { "2019-08-05": [
    [ "09:30", "09:40", "Task A", "a" ],
    [ "09:41", "10:40", "Task B", "b" ],
    [ "10:41", "10:50", "Task C", "a", "c" ]
] } ] }"#;

#[test]
fn rounding_half_away_from_zero() {
    assert_eq!(format_hours(125), "2.08");
    assert_eq!(format_hours(90), "1.5");
    assert_eq!(format_hours(80), "1.33");
    assert_eq!(format_hours(60), "1");
    assert_eq!(format_hours(0), "0");
    assert_eq!(format_hours(1), "0.02");
    assert_eq!(format_hours(-90), "-1.5");
    assert_eq!(format_hours(-125), "-2.08");
}

#[test]
fn day_total_of_eighty_minutes() {
    let json = String::from(
        r#"{ "timeledger": [ { "2019-08-05": [
            [ "09:30", "09:40", "Task A", "tag1" ],
            [ "09:40", "10:40", "Task B", "tag2" ],
            [ "10:40", "10:50", "Task C", "tag3" ]
        ] } ] }"#,
    );
    let out = sink();
    let ledger = Timeledger::from_json(&out, &json).unwrap();
    let report = ledger.report_hours_per_day();
    assert!(report.contains("2019-08-05: 1.33hrs\n"));
}

#[test]
fn day_report_layout() {
    let out = sink();
    let ledger = Timeledger::from_json(&out, &String::from(ONE_DAY)).unwrap();
    assert_eq!(
        ledger.report_hours_per_day(),
        "# ------------- #\n# Hours per Day #\n# ------------- #\n2019-08-05: 1.3hrs\n# ------------- #\n"
    );
    assert!(out.lines.borrow().is_empty());
    assert!(ledger.is_valid());
}

#[test]
fn reports_are_read_only() {
    let out = sink();
    let ledger = Timeledger::from_json(&out, &String::from(ONE_DAY)).unwrap();
    let first = ledger.report_hours_per_day();
    let _ = ledger.report_hours_per_week();
    let _ = ledger.report_hours_per_tag();
    assert_eq!(ledger.report_hours_per_day(), first);
}

#[test]
fn tag_report_by_total() {
    let out = sink();
    let ledger = Timeledger::from_json(&out, &String::from(ONE_DAY)).unwrap();
    assert_eq!(
        ledger.report_hours_per_tag(),
        "# ------------- #\n# Hours per Tag #\n# ------------- #\nc: 0.15hrs\na: 0.32hrs\nb: 0.98hrs\n# ------------- #\n"
    );
}

#[test]
fn tag_report_equal_totals_keep_first_appearance() {
    let json = String::from(
        r#"{ "timeledger": [ { "2019-08-05": [
            [ "09:00", "10:00", "Task A", "zeta", "alpha" ]
        ] } ] }"#,
    );
    let out = sink();
    let ledger = Timeledger::from_json(&out, &json).unwrap();
    assert_eq!(
        ledger.report_hours_per_tag(),
        "# ------------- #\n# Hours per Tag #\n# ------------- #\nzeta: 1hrs\nalpha: 1hrs\n# ------------- #\n"
    );
}

#[test]
fn week_report_merges_and_sorts_weeks() {
    let json = String::from(
        r#"{ "timeledger": [
            { "2019-08-14": [ [ "09:00", "10:30", "Task A" ] ] },
            { "2019-08-07": [ [ "09:00", "10:00", "Task B" ] ] },
            { "2019-08-05": [ [ "09:00", "09:30", "Task C" ] ] },
            { "2019-08-11": [] }
        ] }"#,
    );
    let out = sink();
    let ledger = Timeledger::from_json(&out, &json).unwrap();
    assert!(ledger.weeks_representable());
    assert_eq!(
        ledger.report_hours_per_week(),
        "# -------------- #\n# Hours per Week #\n# -------------- #\n2019-08-05: 1.5hrs\n2019-08-12: 1.5hrs\n# -------------- #\n"
    );
    assert!(!ledger.is_valid());
}

#[test]
fn one_day_ledger_has_no_order_warning() {
    let out = sink();
    let ledger = Timeledger::from_json(&out, &String::from(ONE_DAY)).unwrap();
    assert!(ledger.diagnostics().is_empty());
}

#[test]
fn increasing_days_have_no_warning() {
    let json = String::from(
        r#"{ "timeledger": [
            { "2019-08-05": [ [ "09:00", "10:00", "Task A" ] ] },
            { "2019-08-06": [ [ "09:00", "10:00", "Task A" ] ] },
            { "2019-08-09": [] }
        ] }"#,
    );
    let out = sink();
    let ledger = Timeledger::from_json(&out, &json).unwrap();
    assert!(ledger.is_valid());
    assert!(out.lines.borrow().is_empty());
}

#[test]
fn repeated_date_is_out_of_order() {
    let json = String::from(
        r#"{ "timeledger": [
            { "2019-08-05": [] },
            { "2019-08-05": [] }
        ] }"#,
    );
    let out = sink();
    let ledger = Timeledger::from_json(&out, &json).unwrap();
    assert!(!ledger.is_valid());
    assert_eq!(
        ledger.diagnostics(),
        vec![
            "2019-08-05 00:00:00 UTC appears before 2019-08-05 00:00:00 UTC".to_string(),
            "Ledger contains at least one issue, e.g. days or tasks are out of order, or tasks overlap".to_string(),
        ]
    );
}

#[test]
fn overlap_on_a_single_day_is_reported() {
    let json = String::from(
        r#"{ "timeledger": [ { "2019-08-05": [
            [ "12:30", "14:40", "Task A" ],
            [ "09:40", "10:39", "Task B" ],
            [ "10:40", "10:50", "Task C" ]
        ] } ] }"#,
    );
    let out = sink();
    let ledger = Timeledger::from_json(&out, &json).unwrap();
    assert_eq!(out.lines.borrow().len(), 3);
    assert_eq!(ledger.diagnostics().len(), 3);
    assert!(!ledger.is_valid());
}

#[test]
fn blocks_with_several_dates_go_in_date_order() {
    let json = String::from(
        r#"{ "timeledger": [ { "2019-08-06": [], "2019-08-05": [] } ] }"#,
    );
    let out = sink();
    let ledger = Timeledger::from_json(&out, &json).unwrap();
    assert!(ledger.is_valid());
    assert_eq!(
        ledger.report_hours_per_day(),
        "# ------------- #\n# Hours per Day #\n# ------------- #\n2019-08-05: 0hrs\n2019-08-06: 0hrs\n# ------------- #\n"
    );
}

#[test]
fn not_json_is_a_syntax_error() {
    let out = sink();
    let r = Timeledger::from_json(&out, &String::from("{ not json"));
    assert!(matches!(r, Err(LedgerError::Syntax(_))));
    let r = Timeledger::from_json(&out, &String::from(r#"{ "timeledger": 3 }"#));
    assert!(matches!(r, Err(LedgerError::Syntax(_))));
}

#[test]
fn missing_timeledger_member() {
    let out = sink();
    let r = Timeledger::from_json(&out, &String::from(r#"{ "other": [] }"#));
    assert!(matches!(r, Err(LedgerError::NoTimeledger)));
}

#[test]
fn unknown_members_are_ignored() {
    let out = sink();
    let r = Timeledger::from_json(&out, &String::from(r#"{ "note": 1, "timeledger": [] }"#));
    assert!(r.is_ok());
}

#[test]
fn short_task_tuple() {
    let out = sink();
    let r = Timeledger::from_json(&out, &String::from(r#"{ "timeledger": [ { "2019-08-05": [ [ "09:00", "10:00" ] ] } ] }"#));
    match r {
        Err(LedgerError::IncompleteTask(d)) => assert_eq!(d, "2019-08-05"),
        _ => panic!("expected an incomplete task"),
    }
}

#[test]
fn bad_date() {
    let out = sink();
    let r = Timeledger::from_json(&out, &String::from(r#"{ "timeledger": [ { "2019-13-05": [] } ] }"#));
    match r {
        Err(LedgerError::InvalidDate(d)) => assert_eq!(d, "2019-13-05"),
        _ => panic!("expected an invalid date"),
    }
}

#[test]
fn bad_time() {
    let out = sink();
    let r = Timeledger::from_json(&out, &String::from(r#"{ "timeledger": [ { "2019-08-05": [ [ "09:00", "25:00", "Task" ] ] } ] }"#));
    match r {
        Err(LedgerError::InvalidTime(t)) => assert_eq!(t, "2019-08-05T25:00:00Z"),
        _ => panic!("expected an invalid time"),
    }
}

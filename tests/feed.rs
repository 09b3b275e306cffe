use scheduler::catalog::{load_feed, subjects_from_records};
use scheduler::code::Code;
use scheduler::error::{InvariantViolation, ParseError};
use scheduler::feed::{
    CommissionTime, CommissionTimes, Date, Day, Span, SubjectCommission, SubjectCommissions,
    SubjectType, Time,
};
use scheduler::week::DaysOfTheWeek;

fn json_text(s: &str) -> String {
    serde_json::from_str::<String>(s).unwrap()
}

#[test]
fn test_deserialize_day() {
    assert_eq!(Day::parse(&json_text("\"MONDAY\"")).unwrap(), Day::Monday);
    assert_eq!(Day::parse(&json_text("\"monday\"")).unwrap(), Day::Monday);
    assert_eq!(Day::parse(&json_text("\"Monday\"")).unwrap(), Day::Monday);
}

#[test]
fn mod_deserialize_day() {
    assert_eq!(Day::parse(&json_text("\"MONDAY\"")).unwrap(), Day::Monday);
    assert_eq!(Day::parse(&json_text("\"monday\"")).unwrap(), Day::Monday);
    assert_eq!(Day::parse(&json_text("\"Monday\"")).unwrap(), Day::Monday);
}

#[test]
fn test_deserialize_time() {
    assert_eq!(Time::parse(&json_text("\"00:00\"")).unwrap(), Time { hours: 0, minutes: 0 });
    assert_eq!(Time::parse(&json_text("\"04:10\"")).unwrap(), Time { hours: 4, minutes: 10 });
    assert_eq!(Time::parse(&json_text("\"14:12\"")).unwrap(), Time { hours: 14, minutes: 12 });
}

#[test]
fn mod_deserialize_time() {
    assert_eq!(Time::parse(&json_text("\"00:00\"")).unwrap(), Time { hours: 0, minutes: 0 });
    assert_eq!(Time::parse(&json_text("\"04:10\"")).unwrap(), Time { hours: 4, minutes: 10 });
    assert_eq!(Time::parse(&json_text("\"14:12\"")).unwrap(), Time { hours: 14, minutes: 12 });
}

#[test]
fn test_deserialize_code() {
    assert_eq!(Code::parse(&json_text("\"00.00\"")).unwrap(), Code { high: 0, low: 0 });
    assert_eq!(Code::parse(&json_text("\"04.10\"")).unwrap(), Code { high: 4, low: 10 });
    assert_eq!(Code::parse(&json_text("\"14.12\"")).unwrap(), Code { high: 14, low: 12 });
}

#[test]
fn mod_deserialize_code() {
    assert_eq!(Code::parse(&json_text("\"00.00\"")).unwrap(), Code { high: 0, low: 0 });
    assert_eq!(Code::parse(&json_text("\"04.10\"")).unwrap(), Code { high: 4, low: 10 });
    assert_eq!(Code::parse(&json_text("\"14.12\"")).unwrap(), Code { high: 14, low: 12 });
}

#[test]
fn serialize_code() {
    assert_eq!(
        serde_json::to_string(&Code { high: 0, low: 0 }.to_string()).unwrap(),
        "\"00.00\"",
    );
    assert_eq!(
        serde_json::to_string(&Code { high: 4, low: 10 }.to_string()).unwrap(),
        "\"04.10\"",
    );
    assert_eq!(
        serde_json::to_string(&Code { high: 14, low: 12 }.to_string()).unwrap(),
        "\"14.12\"",
    );
}

#[test]
fn test_deserialize_date() {
    assert_eq!(Date::parse(&json_text("\"10/7/22\"")).unwrap(), Date { day: 10, month: 7, year: 22 });
    assert_eq!(Date::parse(&json_text("\"7/9/12\"")).unwrap(), Date { day: 7, month: 9, year: 12 });
}

#[test]
fn mod_deserialize_date() {
    assert_eq!(Date::parse(&json_text("\"10/7/22\"")).unwrap(), Date { day: 10, month: 7, year: 22 });
    assert_eq!(Date::parse(&json_text("\"7/9/12\"")).unwrap(), Date { day: 7, month: 9, year: 12 });
}

#[test]
fn feed_text_errors() {
    assert_eq!(Date::parse("10/7"), Err(ParseError::FieldCount));
    assert_eq!(Date::parse("10/7/22/1"), Err(ParseError::FieldCount));
    assert_eq!(Date::parse("10/x/22"), Err(ParseError::InvalidNumber));
    assert_eq!(Date::parse("10//22"), Err(ParseError::InvalidNumber));
    assert_eq!(Day::parse("Mon"), Err(ParseError::UnknownDay));
    assert_eq!(Day::parse("sUnDaY"), Ok(Day::Sunday));
    assert_eq!(Day::parse("WEDNESDAY"), Ok(Day::Wednesday));
    assert_eq!(Day::Friday.to_upper_name(), "FRIDAY");
    assert_eq!(Time::parse("1830"), Err(ParseError::MissingSeparator));
    assert_eq!(Time::parse("99:99"), Ok(Time { hours: 99, minutes: 99 }));
}

fn meeting(day: Day, from: (u8, u8), to: (u8, u8), building: &str) -> CommissionTime {
    CommissionTime {
        day,
        classroom: None,
        building: building.to_owned(),
        span: Span {
            start: Time { hours: from.0, minutes: from.1 },
            end: Time { hours: to.0, minutes: to.1 },
        },
    }
}

fn record(code: (u8, u8), name: &str, commission: &str, times: Vec<CommissionTime>) -> SubjectCommission {
    SubjectCommission {
        subject_code: Code { high: code.0, low: code.1 },
        subject_name: name.to_owned(),
        subject_type: SubjectType::Normal,
        course_start: Date { day: 1, month: 3, year: 22 },
        course_end: Date { day: 1, month: 7, year: 22 },
        commission_name: commission.to_owned(),
        commission_id: "1".to_owned(),
        quota: 30,
        enrolled_students: 10,
        course_commission_times: CommissionTimes(times),
    }
}

#[test]
fn records_become_subjects() {
    let records = vec![
        record((61, 23), "Macro", "A", vec![
            meeting(Day::Tuesday, (18, 0), (21, 0), "External"),
            meeting(Day::Monday, (9, 0), (10, 30), "Main"),
        ]),
        record((61, 23), "Macro", "B", vec![meeting(Day::Friday, (8, 0), (11, 0), "Main")]),
        record((72, 1), "Algebra", "S", vec![]),
        record((61, 23), "Macro", "C", vec![]),
    ];
    let subjects = subjects_from_records(&records).unwrap();
    assert_eq!(subjects.len(), 2);
    assert_eq!(subjects[0].code, Code { high: 61, low: 23 });
    assert_eq!(subjects[0].name, "Macro");
    assert_eq!(subjects[0].credits, 4);
    assert_eq!(subjects[0].commissions.len(), 3);
    assert_eq!(subjects[0].commissions[1].names, vec!["B".to_owned()]);
    assert_eq!(subjects[0].commissions[2].names, vec!["C".to_owned()]);
    assert_eq!(subjects[0].commissions[2].subject, 0);
    assert_eq!(subjects[1].name, "Algebra");
    assert_eq!(subjects[1].credits, 0);
    assert_eq!(subjects[1].commissions[0].subject, 1);
    let a = &subjects[0].commissions[0];
    assert_eq!(a.subject, 0);
    assert_eq!(a.schedule.day(DaysOfTheWeek::Monday).len(), 1);
    assert_eq!(a.schedule.day(DaysOfTheWeek::Tuesday).len(), 1);
    assert_eq!(a.schedule.day(DaysOfTheWeek::Sunday).len(), 0);
    let tuesday = &a.schedule.day(DaysOfTheWeek::Tuesday).tasks()[0];
    assert_eq!(tuesday.span.to_string(), "18:00 - 21:00");
    assert_eq!(tuesday.info.buildings[0].name, "External");
}

#[test]
fn bad_meetings_refuse_the_feed() {
    let late = vec![record((1, 1), "X", "A", vec![meeting(Day::Monday, (25, 0), (26, 0), "M")])];
    assert_eq!(subjects_from_records(&late).unwrap_err(), InvariantViolation::InvalidTime);
    let backwards = vec![record((1, 1), "X", "A", vec![meeting(Day::Monday, (10, 0), (9, 0), "M")])];
    assert_eq!(subjects_from_records(&backwards).unwrap_err(), InvariantViolation::EmptySpan);
    let first_wins = SubjectCommissions(vec![
        record((1, 1), "X", "A", vec![meeting(Day::Monday, (10, 0), (10, 0), "M")]),
        record((1, 1), "X", "B", vec![meeting(Day::Monday, (10, 0), (10, 70), "M")]),
    ]);
    assert_eq!(load_feed(&first_wins).unwrap_err(), InvariantViolation::EmptySpan);
}

#[test]
fn records_apart_still_form_one_subject() {
    let records = vec![
        record((1, 1), "A", "a1", vec![]),
        record((2, 2), "B", "b1", vec![]),
        record((1, 1), "A", "a2", vec![]),
        record((1, 1), "Other name", "x", vec![]),
    ];
    let subjects = subjects_from_records(&records).unwrap();
    assert_eq!(subjects.len(), 3);
    assert_eq!(subjects[0].commissions.len(), 2);
    assert_eq!(subjects[0].commissions[1].names, vec!["a2".to_owned()]);
    assert_eq!(subjects[0].commissions[1].subject, 0);
    assert_eq!(subjects[1].code, Code { high: 2, low: 2 });
    assert_eq!(subjects[2].name, "Other name");
}

#[test]
fn credits_count_weekly_minutes() {
    let records = vec![record((1, 1), "A", "a", vec![
        meeting(Day::Monday, (8, 0), (9, 30), "M"),
        meeting(Day::Thursday, (8, 0), (9, 30), "M"),
    ])];
    assert_eq!(subjects_from_records(&records).unwrap()[0].credits, 3);
    let long = vec![record((1, 1), "A", "a", (0..7).map(|_| meeting(Day::Monday, (0, 0), (24, 0), "M")).collect())];
    assert_eq!(subjects_from_records(&long).unwrap()[0].credits, 168);
}

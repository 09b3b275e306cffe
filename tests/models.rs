use scheduler::code::Code;
use scheduler::code_list::codes_from_text;
use scheduler::collidable::Collidable;
use scheduler::combinable::Combinable;
use scheduler::day::Day;
use scheduler::error::{InvariantViolation, ParseError};
use scheduler::span::Span;
use scheduler::subjects::{Building, Subject, SubjectCommision, TaskInfo};
use scheduler::summable::Summable;
use scheduler::task::Task;
use scheduler::time::Time;
use scheduler::week::{DaysOfTheWeek, Week};
use std::collections::HashSet;

fn t(s: &str) -> Time {
    Time::parse(s).unwrap()
}

fn week_with_monday<T>(day: Day<T>) -> Week<T> {
    let mut w = Week::empty();
    w.set_day(DaysOfTheWeek::Monday, day);
    w
}

#[test]
fn parse_time() {
    let time = Time::parse("03:40").unwrap();
    assert_eq!(time.hour, 3);
    assert_eq!(time.minutes, 40);
    assert_eq!(
        time,
        Time {
            hour: 3,
            minutes: 40
        }
    );
}

#[test]
fn time_ordering() {
    assert!(Time::new(3, 40) < Time::new(3, 41));
    assert!(Time::new(3, 40) < Time::new(4, 40));
}

#[test]
fn collide_spans() {
    let time1 = Time::new(1, 0);
    let time2 = Time::new(2, 0);
    let time3 = Time::new(3, 0);
    let time4 = Time::new(4, 0);
    let time5 = Time::new(5, 0);
    assert!(!Span::collides(
        &Span::new(time1, time2),
        &Span::new(time2, time3)
    ),);
    assert!(Span::collides(
        &Span::new(time1, time3),
        &Span::new(time2, time3)
    ),);
    assert!(Span::collides(
        &Span::new(time1, time4),
        &Span::new(time2, time3)
    ),);
    assert!(!Span::collides(
        &Span::new(time4, time5),
        &Span::new(time3, time4)
    ),);
}

#[test]
fn code_to_string() {
    assert_eq!(Code { high: 3, low: 6 }.to_string(), "03.06");
    assert_eq!(Code { high: 10, low: 40 }.to_string(), "10.40");
}

#[test]
fn day_collision() {
    let times = (0..10).map(|i| Time::new(i, 0)).collect::<Vec<Time>>();
    let _span1 = Span::new(times[0], times[1]);
    let _span2 = Span::new(times[1], times[2]);
    let _span4 = Span::new(times[2], times[3]);
    let _span5 = Span::new(times[3], times[4]);
    let _span7 = Span::new(times[6], times[7]);
    let _span3 = Span::new(times[1], times[3]);
    let _span6 = Span::new(times[2], times[4]);
    assert_eq!(
        Day::new(vec![Task::new(_span1, ()), Task::new(_span2, ())]).has_collisions(),
        false
    );
    assert_eq!(
        Day::new(vec![Task::new(_span1, ()), Task::new(_span3, ())]).has_collisions(),
        false
    );
    assert_eq!(
        Day::new(vec![Task::new(_span2, ()), Task::new(_span3, ())]).has_collisions(),
        true
    );
    assert_eq!(
        Day::new(vec![
            Task::new(_span1, ()),
            Task::new(_span2, ()),
            Task::new(_span4, ()),
            Task::new(_span5, ())
        ])
        .has_collisions(),
        false
    );
    assert_eq!(
        Day::new(vec![
            Task::new(_span1, ()),
            Task::new(_span2, ()),
            Task::new(_span6, ()),
            Task::new(_span5, ())
        ])
        .has_collisions(),
        true
    );
}

#[test]
fn test_simplify_week() {
    let ta = t("00:00");
    let tb = t("01:00");
    let tc = t("02:00");
    let td = t("03:00");
    let task_a = Task::new(Span::new(ta, tb), 1u32);
    let task_b = Task::new(Span::new(ta, tc), 2u32);
    let task_c = Task::new(Span::new(tc, td), 4u32);

    let mut week = week_with_monday(Day::new(vec![task_a, task_b, task_c]));

    week.simplify();

    assert_eq!(
        week,
        week_with_monday(Day::new(vec![Task::new(Span::new(ta, tc), 3u32), task_c]))
    )
}

#[test]
fn test_simplify_week_2() {
    let ta = t("15:00");
    let tb = t("18:00");

    let task_a = Task::new(Span::new(ta, tb), 1u32);
    let task_b = Task::new(Span::new(ta, tb), 2u32);

    let mut week = week_with_monday(Day::new(vec![task_a, task_b]));

    week.simplify();

    assert_eq!(
        week,
        week_with_monday(Day::new(vec![Task::new(Span::new(ta, tb), 3u32)]))
    )
}

fn one_meeting_week(span: Span) -> Week<TaskInfo> {
    week_with_monday(Day::new(vec![Task::new(
        span,
        TaskInfo {
            subject: 0,
            buildings: vec![],
        },
    )]))
}

#[test]
fn optimize_subject() {
    let ta = t("00:00");
    let tb = t("01:00");
    let tc = t("02:00");

    let mut subject = Subject {
        commissions: vec![
            SubjectCommision {
                subject: 0,
                names: vec!["Com A".to_owned()],
                schedule: one_meeting_week(Span::new(ta, tb)),
            },
            SubjectCommision {
                subject: 0,
                names: vec!["Com B".to_owned()],
                schedule: one_meeting_week(Span::new(tb, tc)),
            },
            SubjectCommision {
                subject: 0,
                names: vec!["Com C".to_owned()],
                schedule: one_meeting_week(Span::new(ta, tb)),
            },
        ],
        code: Code::parse("00.00").unwrap(),
        name: "Nombre".to_owned(),
        credits: 3,
    };

    subject.optimize();

    let expected: HashSet<Vec<String>> = HashSet::from([
        vec!["Com B".to_owned()],
        vec!["Com A".to_owned(), "Com C".to_owned()],
    ]);
    let got: HashSet<Vec<String>> = subject
        .commissions
        .iter()
        .map(|c| {
            let mut names = c.names.clone();
            names.sort();
            names
        })
        .collect();
    assert_eq!(got, expected);
}

#[test]
fn time_prints_zero_padded_and_reads_back() {
    for text in ["00:00", "03:40", "09:05", "14:12", "24:00"] {
        assert_eq!(t(text).to_string(), text);
    }
    assert_eq!(t("3:4").to_string(), "03:04");
    assert_eq!(Time::new(7, 30).to_string(), "07:30");
}

#[test]
fn time_parse_errors() {
    assert_eq!(Time::parse("0340"), Err(ParseError::MissingSeparator));
    assert_eq!(Time::parse("ab:10"), Err(ParseError::InvalidNumber));
    assert_eq!(Time::parse(":10"), Err(ParseError::InvalidNumber));
    assert_eq!(Time::parse("10:1:0"), Err(ParseError::InvalidNumber));
    assert_eq!(Time::parse("300:00"), Err(ParseError::InvalidNumber));
    assert_eq!(Time::parse("25:00"), Err(ParseError::OutOfRange));
    assert_eq!(Time::parse("24:01"), Err(ParseError::OutOfRange));
    assert_eq!(Time::parse("10:60"), Err(ParseError::OutOfRange));
}

#[test]
fn time_difference_in_minutes() {
    assert_eq!(t("14:30").minutes_since(&t("12:15")), 135);
    assert_eq!(t("00:00").minutes_since(&t("00:00")), 0);
}

#[test]
fn span_construction_checks_order() {
    let a = Time::new(10, 0);
    let b = Time::new(11, 30);
    assert_eq!(Span::try_new(a, b), Ok(Span { start: a, end: b }));
    assert_eq!(Span::try_new(b, a), Err(InvariantViolation::EmptySpan));
    assert_eq!(Span::try_new(a, a), Err(InvariantViolation::EmptySpan));
    assert_eq!(Span::new(a, b).duration(), 90);
    assert_eq!(Span::new(a, b).to_string(), "10:00 - 11:30");
}

#[test]
fn spans_that_only_touch_do_not_collide() {
    let s = |a: &str, b: &str| Span::new(t(a), t(b));
    assert!(!s("08:00", "10:00").collides(&s("10:00", "12:00")));
    assert!(!s("10:00", "12:00").collides(&s("08:00", "10:00")));
    assert!(s("08:00", "10:01").collides(&s("10:00", "12:00")));
    assert!(s("09:00", "09:30").collides(&s("08:00", "12:00")));
    assert!(s("08:00", "12:00").collides(&s("08:00", "12:00")));
}

#[test]
fn day_sorts_stably_by_span() {
    let s1 = Span::new(t("10:00"), t("11:00"));
    let s2 = Span::new(t("08:00"), t("09:00"));
    let s3 = Span::new(t("08:00"), t("08:30"));
    let day = Day::new(vec![
        Task::new(s1, 'a'),
        Task::new(s2, 'b'),
        Task::new(s3, 'c'),
        Task::new(s2, 'd'),
    ]);
    let order: Vec<char> = day.tasks().iter().map(|x| x.info).collect();
    assert_eq!(order, vec!['c', 'b', 'd', 'a']);
    assert!(day.has_collisions());
    assert_eq!(day.len(), 4);
    assert!(Day::<u32>::empty().tasks().is_empty());
}

#[test]
fn days_collide_across_or_within() {
    let s = |a: &str, b: &str| Span::new(t(a), t(b));
    let morning = Day::new(vec![Task::new(s("08:00", "10:00"), ()), Task::new(s("12:00", "13:00"), ())]);
    let late = Day::new(vec![Task::new(s("10:00", "12:00"), ())]);
    let lunch = Day::new(vec![Task::new(s("12:30", "14:00"), ())]);
    let clashing = Day::new(vec![Task::new(s("18:00", "20:00"), ()), Task::new(s("19:00", "21:00"), ())]);
    assert!(!morning.collides(&late));
    assert!(morning.collides(&lunch));
    assert!(lunch.collides(&morning));
    assert!(clashing.collides(&Day::empty()));
    assert!(Day::<()>::empty().collides(&clashing));
    assert!(!Day::<()>::empty().collides(&Day::empty()));
}

#[test]
fn weeks_collide_only_on_the_same_weekday() {
    let s = Span::new(t("08:00"), t("10:00"));
    let mut a: Week<()> = Week::empty();
    a.set_day(DaysOfTheWeek::Monday, Day::new(vec![Task::new(s, ())]));
    let mut b: Week<()> = Week::empty();
    b.set_day(DaysOfTheWeek::Tuesday, Day::new(vec![Task::new(s, ())]));
    assert!(!a.collides(&b));
    b.set_day(DaysOfTheWeek::Monday, Day::new(vec![Task::new(s, ())]));
    assert!(a.collides(&b));
    assert_eq!(a.day(DaysOfTheWeek::Monday).len(), 1);
    assert_eq!(DaysOfTheWeek::Saturday.index(), 6);
    assert_eq!(DaysOfTheWeek::all().len(), 7);
}

#[test]
fn simplify_merges_buildings_of_overlapping_meetings() {
    let s1 = Span::new(t("08:00"), t("10:00"));
    let s2 = Span::new(t("09:00"), t("11:00"));
    let info = |names: &[&str]| TaskInfo {
        subject: 0,
        buildings: names.iter().map(|n| Building { name: n.to_string() }).collect(),
    };
    let mut week = week_with_monday(Day::new(vec![
        Task::new(s1, info(&["North", "South"])),
        Task::new(s2, info(&["South", "East"])),
    ]));
    week.simplify();
    let monday = week.day(DaysOfTheWeek::Monday);
    assert_eq!(monday.len(), 1);
    let task = &monday.tasks()[0];
    assert_eq!(task.span, Span::new(t("08:00"), t("11:00")));
    let names: Vec<&str> = task.info.buildings.iter().map(|b| b.name.as_str()).collect();
    assert_eq!(names, vec!["South", "East", "North"]);
}

#[test]
fn sums_of_counts_saturate() {
    assert_eq!(3u32.plus(4), 7);
    assert_eq!(u32::MAX.plus(1), u32::MAX);
}

#[test]
fn code_parse_and_print() {
    assert_eq!(Code::parse("03.06"), Ok(Code { high: 3, low: 6 }));
    assert_eq!(Code::parse("10.40"), Ok(Code { high: 10, low: 40 }));
    assert_eq!(Code::parse("3.6"), Ok(Code { high: 3, low: 6 }));
    assert_eq!(Code::parse("0306"), Err(ParseError::MissingSeparator));
    assert_eq!(Code::parse("03.x6"), Err(ParseError::InvalidNumber));
    assert_eq!(Code::parse("256.01"), Err(ParseError::InvalidNumber));
    assert_eq!(Code { high: 123, low: 7 }.to_string(), "123.07");
    let c = Code { high: 72, low: 1 };
    assert_eq!(Code::parse(&c.to_string()), Ok(c));
    assert!(c.same(&Code { high: 72, low: 1 }));
    assert!(!c.same(&Code { high: 72, low: 2 }));
}

#[test]
fn find_commission_by_label() {
    let mk = |names: &[&str]| SubjectCommision {
        subject: 0,
        names: names.iter().map(|n| n.to_string()).collect(),
        schedule: Week::empty(),
    };
    let subject = Subject {
        code: Code { high: 1, low: 2 },
        name: "Algebra".to_owned(),
        commissions: vec![mk(&["A"]), mk(&["B", "C"]), mk(&["C"])],
        credits: 6,
    };
    assert_eq!(subject.find_commission_by_id("C").unwrap().names, vec!["B", "C"]);
    assert_eq!(subject.find_commission_by_id("A").unwrap().names, vec!["A"]);
    assert!(subject.find_commission_by_id("D").is_none());
}

#[test]
fn commissions_compare_by_labels_and_week() {
    let s = Span::new(t("08:00"), t("10:00"));
    let a = SubjectCommision { subject: 0, names: vec!["A".to_owned()], schedule: one_meeting_week(s) };
    let b = SubjectCommision { subject: 1, names: vec!["A".to_owned()], schedule: one_meeting_week(s) };
    let c = SubjectCommision { subject: 0, names: vec!["B".to_owned()], schedule: one_meeting_week(s) };
    let d = SubjectCommision { subject: 0, names: vec!["A".to_owned()], schedule: Week::empty() };
    assert!(a == b);
    assert!(a != c);
    assert!(a != d);
    assert!(a.collides(&b));
    assert!(!a.collides(&d));
}

#[test]
fn combining_days_merges_in_span_order() {
    let s = |a: &str, b: &str| Span::new(t(a), t(b));
    let mine = Day::new(vec![Task::new(s("08:00", "09:00"), 'a'), Task::new(s("12:00", "13:00"), 'b')]);
    let theirs = Day::new(vec![Task::new(s("08:00", "09:00"), 'x'), Task::new(s("10:00", "11:00"), 'y')]);
    let both = mine.combine(&theirs);
    let order: Vec<char> = both.tasks().iter().map(|x| x.info).collect();
    assert_eq!(order, vec!['a', 'x', 'y', 'b']);
    assert!(both.has_collisions());
    let apart = mine.combine(&Day::new(vec![Task::new(s("10:00", "11:00"), 'z')]));
    assert!(!apart.has_collisions());
    assert_eq!(apart.len(), 3);
}

#[test]
fn combining_weeks_combines_each_day() {
    let s = Span::new(t("08:00"), t("10:00"));
    let mut a: Week<u32> = Week::empty();
    a.set_day(DaysOfTheWeek::Monday, Day::new(vec![Task::new(s, 1)]));
    let mut b: Week<u32> = Week::empty();
    b.set_day(DaysOfTheWeek::Friday, Day::new(vec![Task::new(s, 2)]));
    let c = a.combine(&b);
    assert_eq!(c.day(DaysOfTheWeek::Monday).len(), 1);
    assert_eq!(c.day(DaysOfTheWeek::Friday).len(), 1);
    assert_eq!(c.day(DaysOfTheWeek::Sunday).len(), 0);
    assert!(!c.collides(&Week::empty()));
}

#[test]
fn merging_commissions_unites_labels() {
    let s = Span::new(t("08:00"), t("10:00"));
    let a = SubjectCommision { subject: 0, names: vec!["A".to_owned()], schedule: one_meeting_week(s) };
    let c = SubjectCommision { subject: 0, names: vec!["C".to_owned(), "D".to_owned()], schedule: one_meeting_week(s) };
    let m = a.merge(c);
    assert_eq!(m.names, vec!["A", "C", "D"]);
    assert_eq!(m.subject, 0);
}

#[test]
fn code_list_lines() {
    assert_eq!(Code::parse_prefix("61.23 Macroeconomics"), Ok(Code { high: 61, low: 23 }));
    assert_eq!(Code::parse_prefix("7.1"), Ok(Code { high: 7, low: 1 }));
    assert_eq!(Code::parse_prefix("6123"), Err(ParseError::MissingSeparator));
}

#[test]
fn subjects_compare_by_code_name_credits_and_commissions() {
    let s = Span::new(t("08:00"), t("10:00"));
    let make = |credits: u8, label: &str| Subject {
        code: Code { high: 1, low: 2 },
        name: "Algebra".to_owned(),
        commissions: vec![SubjectCommision {
            subject: 0,
            names: vec![label.to_owned()],
            schedule: one_meeting_week(s),
        }],
        credits,
    };
    assert!(make(6, "A") == make(6, "A"));
    assert!(make(6, "A") != make(5, "A"));
    assert!(make(6, "A") != make(6, "B"));
}

#[test]
fn commission_labels_compare_as_multisets() {
    let s = Span::new(t("08:00"), t("10:00"));
    let mk = |names: &[&str]| SubjectCommision {
        subject: 0,
        names: names.iter().map(|n| n.to_string()).collect(),
        schedule: one_meeting_week(s),
    };
    assert!(mk(&["A", "B"]) == mk(&["B", "A"]));
    assert!(mk(&["A", "A", "B"]) != mk(&["A", "B", "B"]));
    assert!(mk(&["A"]) != mk(&["A", "A"]));
}

#[test]
fn optimize_keeps_subject_indices() {
    let s = Span::new(t("08:00"), t("10:00"));
    let mk = |label: &str| SubjectCommision {
        subject: 4,
        names: vec![label.to_owned()],
        schedule: one_meeting_week(s),
    };
    let mut subject = Subject {
        code: Code { high: 1, low: 1 },
        name: "X".to_owned(),
        commissions: vec![mk("A"), mk("B")],
        credits: 2,
    };
    subject.optimize();
    assert_eq!(subject.commissions.len(), 1);
    assert_eq!(subject.commissions[0].subject, 4);
    assert_eq!(subject.commissions[0].names, vec!["A", "B"]);
}

#[test]
fn code_lists_skip_comments_and_blank_lines() {
    let text = "# available\n  61.23 Macroeconomics\n\n\t72.01\r\n#72.02\n3.4\n";
    assert_eq!(
        codes_from_text(text),
        Ok(vec![Code { high: 61, low: 23 }, Code { high: 72, low: 1 }, Code { high: 3, low: 4 }])
    );
    assert_eq!(codes_from_text(""), Ok(vec![]));
    assert_eq!(codes_from_text("10.10\nxx.10\n11.11"), Err(ParseError::InvalidNumber));
    assert_eq!(codes_from_text("1010"), Err(ParseError::MissingSeparator));
}

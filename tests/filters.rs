use scheduler::code::Code;
use scheduler::filters::{
    filter_choices, ChoiceFilter, CountRange, CreditCount, Limit, MandatoryPresence, SubjectCount,
};
use scheduler::day::Day;
use scheduler::option_generator::OptionGenerator;
use scheduler::option_stream::OptionStream;
use scheduler::pipeline::{next_admitted, owners_known, Both};
use scheduler::span::Span;
use scheduler::subjects::{Subject, SubjectCommision, TaskInfo};
use scheduler::task::Task;
use scheduler::time::Time;
use scheduler::week::DaysOfTheWeek;
use scheduler::week::Week;

fn commission(subject: usize, label: &str) -> SubjectCommision {
    SubjectCommision {
        names: vec![label.to_owned()],
        subject,
        schedule: Week::empty(),
    }
}

fn catalog() -> Vec<Subject> {
    let subject = |high: u8, credits: u8| Subject {
        code: Code { high, low: 0 },
        name: format!("Subject {}", high),
        commissions: vec![],
        credits,
    };
    vec![subject(1, 3), subject(2, 6), subject(3, 4)]
}

fn choice(picks: &[Option<usize>]) -> Vec<Option<SubjectCommision>> {
    picks
        .iter()
        .map(|p| p.map(|s| commission(s, "C")))
        .collect()
}

fn labels(choices: &[Vec<Option<SubjectCommision>>]) -> Vec<Vec<Option<usize>>> {
    choices
        .iter()
        .map(|c| c.iter().map(|o| o.as_ref().map(|x| x.subject)).collect())
        .collect()
}

#[test]
fn subject_count_admits_exactly_k_chosen() {
    let cat = catalog();
    let exactly_two = SubjectCount::new(CountRange::closed(2, 2));
    assert!(exactly_two.filter(&cat, &choice(&[Some(0), None, Some(2)])));
    assert!(!exactly_two.filter(&cat, &choice(&[Some(0), None, None])));
    assert!(!exactly_two.filter(&cat, &choice(&[Some(0), Some(1), Some(2)])));
    assert!(SubjectCount::new(CountRange::closed(0, 0)).filter(&cat, &choice(&[None, None])));
}

#[test]
fn credit_count_ignores_unchosen_groups() {
    let cat = catalog();
    let f = CreditCount::new(CountRange::closed(7, 9));
    assert!(f.filter(&cat, &choice(&[Some(0), None, Some(2)])));
    assert!(f.filter(&cat, &choice(&[Some(0), Some(2)])));
    assert!(f.filter(&cat, &choice(&[None, Some(0), None, None, Some(2), None])));
    assert!(!f.filter(&cat, &choice(&[Some(1), Some(2)])));
    assert!(!f.filter(&cat, &choice(&[None, None])));
}

#[test]
fn ranges_with_open_and_missing_ends() {
    let r = CountRange { start: Limit::Excluded(2), end: Limit::Unbounded };
    assert!(!r.contains(2));
    assert!(r.contains(3));
    assert!(r.contains(1_000_000));
    let r = CountRange { start: Limit::Unbounded, end: Limit::Excluded(5) };
    assert!(r.contains(0));
    assert!(r.contains(4));
    assert!(!r.contains(5));
    let r = CountRange::closed(4, 5);
    assert!(!r.contains(3) && r.contains(4) && r.contains(5) && !r.contains(6));
}

#[test]
fn filters_commute() {
    let cat = catalog();
    let all = || {
        vec![
            choice(&[Some(0), Some(1), None]),
            choice(&[Some(0), None, Some(2)]),
            choice(&[None, Some(1), Some(2)]),
            choice(&[Some(0), Some(1), Some(2)]),
            choice(&[None, None, Some(2)]),
        ]
    };
    let count = SubjectCount::new(CountRange::closed(2, 2));
    let credits = CreditCount::new(CountRange::closed(7, 10));
    let a = filter_choices(filter_choices(all(), &cat, &count), &cat, &credits);
    let b = filter_choices(filter_choices(all(), &cat, &credits), &cat, &count);
    assert_eq!(labels(&a), labels(&b));
    assert_eq!(
        labels(&a),
        vec![
            vec![Some(0), Some(1), None],
            vec![Some(0), None, Some(2)],
            vec![None, Some(1), Some(2)],
        ]
    );
}

#[test]
fn filter_keeps_order() {
    let cat = catalog();
    let kept = filter_choices(
        vec![choice(&[Some(2)]), choice(&[None]), choice(&[Some(0)]), choice(&[Some(1)])],
        &cat,
        &SubjectCount::new(CountRange::closed(1, 1)),
    );
    assert_eq!(labels(&kept), vec![vec![Some(2)], vec![Some(0)], vec![Some(1)]]);
}

#[test]
fn mandatory_presence_needs_every_code() {
    let cat = catalog();
    let f = MandatoryPresence::new(vec![Code { high: 1, low: 0 }, Code { high: 3, low: 0 }]);
    assert!(f.filter(&cat, &choice(&[Some(0), None, Some(2)])));
    assert!(f.filter(&cat, &choice(&[Some(2), Some(1), Some(0)])));
    assert!(!f.filter(&cat, &choice(&[Some(0), Some(1), None])));
    assert!(!f.filter(&cat, &choice(&[None, None, None])));
    assert!(MandatoryPresence::new(vec![]).filter(&cat, &choice(&[None])));
}

fn timed(subject: usize, label: &str, from: u8, to: u8) -> SubjectCommision {
    let mut schedule = Week::empty();
    schedule.set_day(
        DaysOfTheWeek::Monday,
        Day::new(vec![Task::new(
            Span::new(Time::new(from, 0), Time::new(to, 0)),
            TaskInfo { subject, buildings: vec![] },
        )]),
    );
    SubjectCommision { names: vec![label.to_owned()], subject, schedule }
}

#[test]
fn lazy_pipeline_skips_rejected_assignments() {
    let cat = catalog();
    let mut g = OptionGenerator::new();
    g.set_optional(vec![
        (Code { high: 1, low: 0 }, vec![timed(0, "a", 8, 10)]),
        (Code { high: 2, low: 0 }, vec![timed(1, "b", 9, 11), timed(1, "c", 10, 12)]),
        (Code { high: 3, low: 0 }, vec![timed(2, "d", 12, 13)]),
    ]);
    let mut stream = OptionStream::new(g);
    let filter = Both {
        first: SubjectCount::new(CountRange::closed(2, 3)),
        second: CreditCount::new(CountRange::closed(9, 13)),
    };
    let mut got = vec![];
    while let Some(option) = next_admitted(&mut stream, &filter, &cat) {
        got.push(option.iter().map(|o| o.as_ref().map(|c| c.names[0].clone())).collect::<Vec<_>>());
    }
    let s = |x: &str| Some(x.to_owned());
    assert_eq!(
        got,
        vec![
            vec![s("a"), s("c"), s("d")],
            vec![s("a"), s("c"), None],
            vec![None, s("b"), s("d")],
            vec![None, s("c"), s("d")],
        ]
    );
    assert!(owners_known(&cat, &vec![Some(timed(2, "x", 1, 2))]));
    assert!(!owners_known(&cat, &vec![Some(timed(3, "x", 1, 2))]));
}

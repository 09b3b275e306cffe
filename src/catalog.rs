//! Builds the catalog of subjects from the records of the commissions feed.
use vstd::prelude::*;

use crate::code::Code;
use crate::day::{lemma_views_sort, sort_pairs, task_views, Day};
use crate::error::InvariantViolation;
use crate::feed::{self, CommissionTime, SubjectCommission, SubjectCommissions};
use crate::span::Span;
use crate::subjects::{
    building_names, names_view, week_view, Building, Subject, SubjectCommision, TaskInfo,
};
use crate::task::Task;
use crate::time::Time;
use crate::week::Week;

verus! {

/// The position, Sunday first, of a weekday of the feed.
pub open spec fn weekday_index(d: feed::Day) -> int {
    match d {
        feed::Day::Sunday => 0,
        feed::Day::Monday => 1,
        feed::Day::Tuesday => 2,
        feed::Day::Wednesday => 3,
        feed::Day::Thursday => 4,
        feed::Day::Friday => 5,
        feed::Day::Saturday => 6,
    }
}

fn weekday_position(d: feed::Day) -> (r: usize)
    ensures
        r == weekday_index(d),
{
    match d {
        feed::Day::Sunday => 0,
        feed::Day::Monday => 1,
        feed::Day::Tuesday => 2,
        feed::Day::Wednesday => 3,
        feed::Day::Thursday => 4,
        feed::Day::Friday => 5,
        feed::Day::Saturday => 6,
    }
}

/// The meeting's span in the day.
pub open spec fn span_of(t: CommissionTime) -> Span {
    Span {
        start: Time { hour: t.span.start.hours, minutes: t.span.start.minutes },
        end: Time { hour: t.span.end.hours, minutes: t.span.end.minutes },
    }
}

/// What is wrong with a meeting, if anything.
pub open spec fn meeting_problem(t: CommissionTime) -> Option<InvariantViolation> {
    let s = span_of(t);
    if !s.start.valid() || !s.end.valid() {
        Some(InvariantViolation::InvalidTime)
    } else if !s.start.before(s.end) {
        Some(InvariantViolation::EmptySpan)
    } else {
        None
    }
}

/// The first problem among the meetings, in order.
pub open spec fn times_problem(ts: Seq<CommissionTime>) -> Option<InvariantViolation>
    decreases ts.len(),
{
    if ts.len() == 0 {
        None
    } else {
        match times_problem(ts.drop_last()) {
            Some(e) => Some(e),
            None => meeting_problem(ts.last()),
        }
    }
}

/// The first problem among the meetings of the records, in order.
pub open spec fn feed_problem(rs: Seq<SubjectCommission>) -> Option<InvariantViolation>
    decreases rs.len(),
{
    if rs.len() == 0 {
        None
    } else {
        match feed_problem(rs.drop_last()) {
            Some(e) => Some(e),
            None => times_problem(rs.last().course_commission_times.0@),
        }
    }
}

/// The meetings of a record held on weekday `d`, as tasks of subject `i`.
pub open spec fn meetings_on(r: SubjectCommission, i: usize, d: int) -> Seq<
    (Span, (usize, Seq<Seq<char>>)),
> {
    r.course_commission_times.0@.filter(|t: CommissionTime| weekday_index(t.day) == d).map_values(
        |t: CommissionTime| (span_of(t), (i, seq![t.building@])),
    )
}

/// The week of a record's commission, as plain values.
pub open spec fn week_of(r: SubjectCommission, i: usize) -> Seq<
    Seq<(Span, (usize, Seq<Seq<char>>))>,
> {
    Seq::new(7, |d: int| sort_pairs(meetings_on(r, i, d)))
}

/// Minutes of a meeting.
pub open spec fn minutes_of(t: CommissionTime) -> int {
    span_of(t).spec_duration()
}

/// Minutes of all the meetings, added up.
pub open spec fn total_minutes(ts: Seq<CommissionTime>) -> int
    decreases ts.len(),
{
    if ts.len() == 0 {
        0
    } else {
        total_minutes(ts.drop_last()) + minutes_of(ts.last())
    }
}

/// The credits of a subject: the weekly minutes of its first commission's
/// meetings, divided by 60, at most 255.
pub open spec fn credits_of(r: SubjectCommission) -> u8 {
    let h = total_minutes(r.course_commission_times.0@) / 60;
    if h > 255 {
        255
    } else {
        h as u8
    }
}

/// A commission as plain values: labels, subject index, week.
pub type CommissionView = (Seq<Seq<char>>, usize, Seq<Seq<(Span, (usize, Seq<Seq<char>>))>>);

/// A subject as plain values: code, name, credits, commissions.
pub type SubjectView = (Code, Seq<char>, u8, Seq<CommissionView>);

pub open spec fn commission_of(r: SubjectCommission, i: usize) -> CommissionView {
    (seq![r.commission_name@], i, week_of(r, i))
}

/// `g` is the subject of `acc` with this code and name.
pub open spec fn subject_at(acc: Seq<SubjectView>, code: Code, name: Seq<char>, g: int) -> bool {
    &&& 0 <= g < acc.len()
    &&& acc[g].0 == code && acc[g].1 == name
    &&& forall|h: int| 0 <= h < g ==> !((#[trigger] acc[h]).0 == code && acc[h].1 == name)
}

/// The catalog that the records describe: all the records with the same code
/// and name are one subject, in the order in which the pairs first appear;
/// each record is one of its commissions, in record order.
pub open spec fn catalog_of(rs: Seq<SubjectCommission>) -> Seq<SubjectView>
    decreases rs.len(),
{
    if rs.len() == 0 {
        Seq::empty()
    } else {
        let acc = catalog_of(rs.drop_last());
        let r = rs.last();
        if exists|g: int| subject_at(acc, r.subject_code, r.subject_name@, g) {
            let g = choose|g: int| subject_at(acc, r.subject_code, r.subject_name@, g);
            acc.update(g, (acc[g].0, acc[g].1, acc[g].2, acc[g].3.push(commission_of(r, g as usize))))
        } else {
            let i = acc.len() as usize;
            acc.push((r.subject_code, r.subject_name@, credits_of(r), seq![commission_of(r, i)]))
        }
    }
}

pub open spec fn commission_view_of(c: SubjectCommision) -> CommissionView {
    (names_view(c.names@), c.subject, week_view(c.schedule))
}

pub open spec fn subject_view(s: Subject) -> SubjectView {
    (s.code, s.name@, s.credits, s.commissions@.map_values(|c: SubjectCommision| commission_view_of(c)))
}

pub open spec fn subject_views(s: Seq<Subject>) -> Seq<SubjectView> {
    s.map_values(|x: Subject| subject_view(x))
}

/// Every commission of the catalog names, as its subject, the position of
/// the subject that holds it.
pub proof fn lemma_catalog_back_references(rs: Seq<SubjectCommission>)
    requires
        rs.len() <= usize::MAX,
    ensures
        catalog_of(rs).len() <= rs.len(),
        forall|i: int, j: int|
            0 <= i < catalog_of(rs).len() && 0 <= j < catalog_of(rs)[i].3.len() ==> (
            #[trigger] catalog_of(rs)[i].3[j]).1 == i,
        forall|i: int| 0 <= i < catalog_of(rs).len() ==> (#[trigger] catalog_of(rs)[i]).3.len() > 0,
    decreases rs.len(),
{
    if rs.len() > 0 {
        let t = rs.drop_last();
        lemma_catalog_back_references(t);
        let acc = catalog_of(t);
        let r = rs.last();
        let cat = catalog_of(rs);
        assert(acc.len() <= usize::MAX);
        if exists|g: int| subject_at(acc, r.subject_code, r.subject_name@, g) {
            let g = choose|g: int| subject_at(acc, r.subject_code, r.subject_name@, g);
            assert forall|i: int, j: int|
                0 <= i < cat.len() && 0 <= j < cat[i].3.len() implies (#[trigger] cat[i].3[j]).1 == i by {
                if i != g {
                    assert(cat[i] == acc[i]);
                } else if j < acc[g].3.len() {
                    assert(cat[i].3[j] == acc[g].3[j]);
                }
            }
            assert forall|i: int| 0 <= i < cat.len() implies (#[trigger] cat[i]).3.len() > 0 by {
                if i != g {
                    assert(cat[i] == acc[i]);
                }
            }
        } else {
            assert forall|i: int, j: int|
                0 <= i < cat.len() && 0 <= j < cat[i].3.len() implies (#[trigger] cat[i].3[j]).1 == i by {
                if i < acc.len() {
                    assert(cat[i] == acc[i]);
                }
            }
            assert forall|i: int| 0 <= i < cat.len() implies (#[trigger] cat[i]).3.len() > 0 by {
                if i < acc.len() {
                    assert(cat[i] == acc[i]);
                }
            }
        }
    }
}

proof fn lemma_no_problem_times(ts: Seq<CommissionTime>)
    requires
        times_problem(ts) is None,
    ensures
        forall|j: int| 0 <= j < ts.len() ==> meeting_problem(#[trigger] ts[j]) is None,
    decreases ts.len(),
{
    if ts.len() > 0 {
        lemma_no_problem_times(ts.drop_last());
        assert forall|j: int| 0 <= j < ts.len() implies meeting_problem(#[trigger] ts[j]) is None by {
            if j < ts.len() - 1 {
                assert(ts[j] == ts.drop_last()[j]);
            }
        }
    }
}

proof fn lemma_no_problem_feed(rs: Seq<SubjectCommission>)
    requires
        feed_problem(rs) is None,
    ensures
        forall|k: int|
            0 <= k < rs.len() ==> times_problem((#[trigger] rs[k]).course_commission_times.0@) is None,
    decreases rs.len(),
{
    if rs.len() > 0 {
        lemma_no_problem_feed(rs.drop_last());
        assert forall|k: int| 0 <= k < rs.len() implies times_problem(
            (#[trigger] rs[k]).course_commission_times.0@,
        ) is None by {
            if k < rs.len() - 1 {
                assert(rs[k] == rs.drop_last()[k]);
            }
        }
    }
}

fn check_times(ts: &Vec<CommissionTime>) -> (r: Option<InvariantViolation>)
    ensures
        r == times_problem(ts@),
{
    let mut j: usize = 0;
    while j < ts.len()
        invariant
            j <= ts@.len(),
            times_problem(ts@.subrange(0, j as int)) is None,
        decreases ts@.len() - j,
    {
        assert(ts@.subrange(0, j + 1).drop_last() =~= ts@.subrange(0, j as int));
        let t = &ts[j];
        let s = t.span;
        let start_ok = (s.start.hours < 24 || (s.start.hours == 24 && s.start.minutes == 0))
            && s.start.minutes < 60;
        let end_ok = (s.end.hours < 24 || (s.end.hours == 24 && s.end.minutes == 0))
            && s.end.minutes < 60;
        if !start_ok || !end_ok {
            proof {
                lemma_problem_prefix(ts@, j as int);
            }
            return Some(InvariantViolation::InvalidTime);
        }
        let ordered = s.start.hours < s.end.hours || (s.start.hours == s.end.hours
            && s.start.minutes < s.end.minutes);
        if !ordered {
            proof {
                lemma_problem_prefix(ts@, j as int);
            }
            return Some(InvariantViolation::EmptySpan);
        }
        j = j + 1;
    }
    assert(ts@.subrange(0, j as int) =~= ts@);
    None
}

/// Once a prefix has a problem, every longer prefix has the same one.
proof fn lemma_problem_prefix(ts: Seq<CommissionTime>, j: int)
    requires
        0 <= j < ts.len(),
        times_problem(ts.subrange(0, j)) is None,
    ensures
        times_problem(ts.subrange(0, j + 1)) == meeting_problem(ts[j]),
        meeting_problem(ts[j]) is Some ==> times_problem(ts) == meeting_problem(ts[j]),
    decreases ts.len(),
{
    assert(ts.subrange(0, j + 1).drop_last() =~= ts.subrange(0, j));
    if meeting_problem(ts[j]) is Some && j + 1 < ts.len() {
        let t = ts.drop_last();
        assert(t.subrange(0, j) =~= ts.subrange(0, j));
        lemma_problem_prefix(t, j);
        assert(t[j] == ts[j]);
    } else if meeting_problem(ts[j]) is Some {
        assert(ts.subrange(0, j + 1) =~= ts);
    }
}

fn check_feed(rs: &Vec<SubjectCommission>) -> (r: Option<InvariantViolation>)
    ensures
        r == feed_problem(rs@),
{
    let mut k: usize = 0;
    while k < rs.len()
        invariant
            k <= rs@.len(),
            feed_problem(rs@.subrange(0, k as int)) is None,
        decreases rs@.len() - k,
    {
        assert(rs@.subrange(0, k + 1).drop_last() =~= rs@.subrange(0, k as int));
        let p = check_times(&rs[k].course_commission_times.0);
        if p.is_some() {
            proof {
                lemma_feed_problem_prefix(rs@, k as int);
            }
            return p;
        }
        k = k + 1;
    }
    assert(rs@.subrange(0, k as int) =~= rs@);
    None
}

proof fn lemma_feed_problem_prefix(rs: Seq<SubjectCommission>, k: int)
    requires
        0 <= k < rs.len(),
        feed_problem(rs.subrange(0, k)) is None,
        times_problem(rs[k].course_commission_times.0@) is Some,
    ensures
        feed_problem(rs) == times_problem(rs[k].course_commission_times.0@),
    decreases rs.len(),
{
    assert(rs.subrange(0, k + 1).drop_last() =~= rs.subrange(0, k));
    if k + 1 < rs.len() {
        let t = rs.drop_last();
        assert(t.subrange(0, k) =~= rs.subrange(0, k));
        lemma_feed_problem_prefix(t, k);
        assert(t[k] == rs[k]);
    } else {
        assert(rs.subrange(0, k + 1) =~= rs);
    }
}

/// The tasks of subject `i` that a record holds on weekday `d`, in the
/// record's order.
fn tasks_on(r: &SubjectCommission, i: usize, d: usize) -> (v: Vec<Task<TaskInfo>>)
    requires
        times_problem(r.course_commission_times.0@) is None,
    ensures
        task_views(v@) == meetings_on(*r, i, d as int),
        crate::day::all_spans_wf(v@),
{
    let ts = &r.course_commission_times.0;
    let ghost pred = |t: CommissionTime| weekday_index(t.day) == d as int;
    let ghost f = |t: CommissionTime| (span_of(t), (i, seq![t.building@]));
    proof {
        lemma_no_problem_times(ts@);
    }
    let mut v: Vec<Task<TaskInfo>> = Vec::new();
    let mut j: usize = 0;
    assert(ts@.subrange(0, 0).filter(pred) =~= Seq::<CommissionTime>::empty()) by {
        reveal(Seq::filter);
    }
    while j < ts.len()
        invariant
            j <= ts@.len(),
            forall|q: int| 0 <= q < ts@.len() ==> meeting_problem(#[trigger] ts@[q]) is None,
            pred == (|t: CommissionTime| weekday_index(t.day) == d as int),
            f == (|t: CommissionTime| (span_of(t), (i, seq![t.building@]))),
            task_views(v@) == ts@.subrange(0, j as int).filter(pred).map_values(f),
            crate::day::all_spans_wf(v@),
        decreases ts@.len() - j,
    {
        let t = &ts[j];
        proof {
            reveal(Seq::filter);
            assert(ts@.subrange(0, j + 1).drop_last() =~= ts@.subrange(0, j as int));
            assert(meeting_problem(ts@[j as int]) is None);
        }
        let ghost kept = ts@.subrange(0, j as int).filter(pred);
        if weekday_position(t.day) == d {
            let start = Time::new(t.span.start.hours, t.span.start.minutes);
            let end = Time::new(t.span.end.hours, t.span.end.minutes);
            let span = Span::new(start, end);
            let mut buildings: Vec<Building> = Vec::new();
            buildings.push(Building { name: t.building.clone() });
            let info = TaskInfo { subject: i, buildings };
            assert(building_names(info.buildings@) =~= seq![t.building@]);
            v.push(Task { span, info });
            proof {
                assert(kept.push(*t).map_values(f) =~= kept.map_values(f).push(f(*t)));
                assert(task_views(v@) =~= kept.map_values(f).push(f(*t)));
            }
        }
        j = j + 1;
    }
    assert(ts@.subrange(0, j as int) =~= ts@);
    v
}

/// The commission that a record describes, for subject `i`.
fn commission_from(r: &SubjectCommission, i: usize) -> (c: SubjectCommision)
    requires
        times_problem(r.course_commission_times.0@) is None,
    ensures
        commission_view_of(c) == commission_of(*r, i),
{
    let mut days: Vec<Day<TaskInfo>> = Vec::new();
    let mut d: usize = 0;
    while d < 7
        invariant
            d <= 7,
            times_problem(r.course_commission_times.0@) is None,
            days@.len() == d,
            forall|e: int| 0 <= e < d ==> task_views((#[trigger] days@[e])@) == week_of(*r, i)[e],
        decreases 7 - d,
    {
        let tasks = tasks_on(r, i, d);
        let ghost tv = tasks@;
        let day = Day::new(tasks);
        proof {
            lemma_views_sort(tv);
        }
        days.push(day);
        d = d + 1;
    }
    let ghost dv = days@;
    let schedule = Week::new(days);
    let mut names: Vec<String> = Vec::new();
    names.push(r.commission_name.clone());
    let c = SubjectCommision { names, subject: i, schedule };
    proof {
        assert(names_view(c.names@) =~= seq![r.commission_name@]);
        assert forall|e: int| 0 <= e < 7 implies #[trigger] week_view(schedule)[e] == week_of(*r, i)[e] by {
            assert(schedule.days()[e] == dv[e]);
        }
        assert(week_view(schedule) =~= week_of(*r, i));
    }
    c
}

fn credits_from(r: &SubjectCommission) -> (c: u8)
    requires
        times_problem(r.course_commission_times.0@) is None,
    ensures
        c == credits_of(*r),
{
    let ts = &r.course_commission_times.0;
    proof {
        lemma_no_problem_times(ts@);
    }
    let mut total: u128 = 0;
    let mut j: usize = 0;
    while j < ts.len()
        invariant
            j <= ts@.len(),
            forall|q: int| 0 <= q < ts@.len() ==> meeting_problem(#[trigger] ts@[q]) is None,
            total == total_minutes(ts@.subrange(0, j as int)),
            total <= 1440 * j,
        decreases ts@.len() - j,
    {
        assert(ts@.subrange(0, j + 1).drop_last() =~= ts@.subrange(0, j as int));
        assert(meeting_problem(ts@[j as int]) is None);
        let t = &ts[j];
        let start = Time::new(t.span.start.hours, t.span.start.minutes);
        let end = Time::new(t.span.end.hours, t.span.end.minutes);
        let span = Span::new(start, end);
        let minutes = span.duration();
        assert(minutes == minutes_of(ts@[j as int]));
        assert(minutes <= 1440);
        total = total + minutes as u128;
        j = j + 1;
    }
    assert(ts@.subrange(0, j as int) =~= ts@);
    let hours = total / 60;
    if hours > 255 {
        255
    } else {
        hours as u8
    }
}

/// The subject of `v` with this code and name, if any.
fn find_subject(v: &Vec<Subject>, code: &Code, name: &String) -> (r: Option<usize>)
    ensures
        match r {
            Some(g) => subject_at(subject_views(v@), *code, name@, g as int),
            None => !exists|g: int| subject_at(subject_views(v@), *code, name@, g),
        },
{
    let ghost acc = subject_views(v@);
    let mut g: usize = 0;
    while g < v.len()
        invariant
            g <= v@.len(),
            acc == subject_views(v@),
            forall|h: int| 0 <= h < g ==> !((#[trigger] acc[h]).0 == *code && acc[h].1 == name@),
        decreases v@.len() - g,
    {
        assert(acc[g as int] == subject_view(v@[g as int]));
        if v[g].code.same(code) && v[g].name == *name {
            return Some(g);
        }
        g = g + 1;
    }
    proof {
        if exists|j: int| subject_at(acc, *code, name@, j) {
            let j = choose|j: int| subject_at(acc, *code, name@, j);
            assert(!(acc[j].0 == *code && acc[j].1 == name@));
        }
    }
    None
}

/// The subjects that the records describe. All the records with the same
/// code and name are the commissions of one subject, the subjects in the
/// order in which their pairs first appear; each record is one commission,
/// labelled with its commission name, whose meetings become the tasks of the
/// weekdays they name. A subject's credits are the weekly minutes of its
/// first commission's meetings divided by 60 (at most 255).
/// A meeting at an invalid time, or one that does not end after it starts,
/// refuses the feed.
pub fn subjects_from_records(rs: &Vec<SubjectCommission>) -> (r: Result<Vec<Subject>, InvariantViolation>)
    ensures
        feed_problem(rs@) is Some ==> r == Err::<Vec<Subject>, InvariantViolation>(
            feed_problem(rs@)->Some_0,
        ),
        feed_problem(rs@) is None ==> r is Ok && subject_views(r->Ok_0@) == catalog_of(rs@),
{
    if let Some(e) = check_feed(rs) {
        return Err(e);
    }
    proof {
        lemma_no_problem_feed(rs@);
    }
    let mut out: Vec<Subject> = Vec::new();
    let mut k: usize = 0;
    assert(subject_views(out@) =~= catalog_of(rs@.subrange(0, 0)));
    while k < rs.len()
        invariant
            k <= rs@.len(),
            forall|q: int|
                0 <= q < rs@.len() ==> times_problem((#[trigger] rs@[q]).course_commission_times.0@)
                    is None,
            subject_views(out@) == catalog_of(rs@.subrange(0, k as int)),
        decreases rs@.len() - k,
    {
        let r = &rs[k];
        assert(times_problem(rs@[k as int].course_commission_times.0@) is None);
        let ghost acc = subject_views(out@);
        proof {
            assert(rs@.subrange(0, k + 1).drop_last() =~= rs@.subrange(0, k as int));
            assert(rs@.subrange(0, k + 1).last() == *r);
        }
        let n = out.len();
        let found = find_subject(&out, &r.subject_code, &r.subject_name);
        if let Some(g) = found {
            proof {
                let j = choose|j: int| subject_at(acc, r.subject_code, r.subject_name@, j);
                assert(j == g) by {
                    if j < g {
                        assert(!(acc[j].0 == r.subject_code && acc[j].1 == r.subject_name@));
                    }
                    if g < j {
                        assert(!(acc[g as int].0 == r.subject_code && acc[g as int].1
                            == r.subject_name@));
                    }
                }
                assert(acc[g as int] == subject_view(out@[g as int]));
            }
            let c = commission_from(r, g);
            let ghost before = out@;
            out[g].commissions.push(c);
            proof {
                let s = out@[g as int];
                assert(s.commissions@.map_values(|c: SubjectCommision| commission_view_of(c))
                    =~= before[g as int].commissions@.map_values(
                    |c: SubjectCommision| commission_view_of(c),
                ).push(commission_of(*r, g)));
                assert forall|q: int| 0 <= q < out@.len() && q != g implies out@[q]
                    == before[q] by {}
                assert(subject_views(out@) =~= acc.update(
                    g as int,
                    (
                        acc[g as int].0,
                        acc[g as int].1,
                        acc[g as int].2,
                        acc[g as int].3.push(commission_of(*r, g)),
                    ),
                ));
            }
        } else {
            let c = commission_from(r, n);
            let credits = credits_from(r);
            let mut commissions: Vec<SubjectCommision> = Vec::new();
            commissions.push(c);
            let s = Subject {
                code: r.subject_code,
                name: r.subject_name.clone(),
                commissions,
                credits,
            };
            proof {
                assert(s.commissions@.map_values(|c: SubjectCommision| commission_view_of(c))
                    =~= seq![commission_of(*r, n)]);
            }
            out.push(s);
            assert(subject_views(out@) =~= acc.push(
                (r.subject_code, r.subject_name@, credits_of(*r), seq![commission_of(*r, n)]),
            ));
        }
        k = k + 1;
    }
    assert(rs@.subrange(0, k as int) =~= rs@);
    Ok(out)
}

/// The subjects of a whole feed.
pub fn load_feed(feed: &SubjectCommissions) -> (r: Result<Vec<Subject>, InvariantViolation>)
    ensures
        feed_problem(feed.0@) is Some ==> r == Err::<Vec<Subject>, InvariantViolation>(
            feed_problem(feed.0@)->Some_0,
        ),
        feed_problem(feed.0@) is None ==> r is Ok && subject_views(r->Ok_0@) == catalog_of(feed.0@),
{
    subjects_from_records(&feed.0)
}

} // verus!

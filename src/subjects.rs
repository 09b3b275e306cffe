//! Subjects, their commissions, and the merging of commissions that meet at
//! the same times.
use vstd::prelude::*;

use crate::code::Code;
use crate::collidable::Collidable;
use crate::day::{collapse, task_views, Day};
use crate::span::Span;
use crate::summable::Summable;
use crate::week::Week;

verus! {

#[derive(Debug, Clone)]
pub struct Building {
    pub name: String,
}

/// What a meeting carries: the index of its subject in the catalog and the
/// buildings where it is held.
#[derive(Debug, Clone)]
pub struct TaskInfo {
    pub subject: usize,
    pub buildings: Vec<Building>,
}

pub open spec fn building_names(v: Seq<Building>) -> Seq<Seq<char>> {
    v.map_values(|b: Building| b.name@)
}

/// `a` followed by the names of `b` that it lacks, each once.
pub open spec fn union_names(a: Seq<Seq<char>>, b: Seq<Seq<char>>) -> Seq<Seq<char>>
    decreases b.len(),
{
    if b.len() == 0 {
        a
    } else {
        let u = union_names(a, b.drop_last());
        if u.contains(b.last()) {
            u
        } else {
            u.push(b.last())
        }
    }
}

/// Two payloads name the same buildings, in whatever order.
pub open spec fn same_buildings(a: Seq<Seq<char>>, b: Seq<Seq<char>>) -> bool {
    forall|n: Seq<char>| a.contains(n) <==> b.contains(n)
}

impl View for TaskInfo {
    type V = (usize, Seq<Seq<char>>);

    open spec fn view(&self) -> (usize, Seq<Seq<char>>) {
        (self.subject, building_names(self.buildings@))
    }
}

fn copy_building(b: &Building) -> (r: Building)
    ensures
        r == *b,
{
    Building { name: b.name.clone() }
}

fn has_building(v: &Vec<Building>, name: &String) -> (r: bool)
    ensures
        r == building_names(v@).contains(name@),
{
    let mut i: usize = 0;
    while i < v.len()
        invariant
            i <= v@.len(),
            forall|k: int| 0 <= k < i ==> v@[k].name@ != name@,
        decreases v@.len() - i,
    {
        if v[i].name == *name {
            assert(building_names(v@)[i as int] == name@);
            return true;
        }
        i = i + 1;
    }
    proof {
        if building_names(v@).contains(name@) {
            let k = choose|k: int| 0 <= k < building_names(v@).len() && building_names(v@)[k] == name@;
            assert(v@[k].name@ == name@);
        }
    }
    false
}

/// Adding two payloads unites their buildings; the subject is the first one's.
impl Summable for TaskInfo {
    open spec fn spec_plus(a: (usize, Seq<Seq<char>>), b: (usize, Seq<Seq<char>>)) -> (
        usize,
        Seq<Seq<char>>,
    ) {
        (a.0, union_names(a.1, b.1))
    }

    fn plus(self, other: TaskInfo) -> (r: TaskInfo) {
        let ghost a = self@;
        let ghost b = other@;
        let TaskInfo { subject, buildings } = self;
        let mut out = buildings;
        let mut j: usize = 0;
        while j < other.buildings.len()
            invariant
                j <= other.buildings@.len(),
                b == other@,
                building_names(out@) == union_names(a.1, b.1.subrange(0, j as int)),
            decreases other.buildings@.len() - j,
        {
            assert(b.1.subrange(0, j + 1).drop_last() =~= b.1.subrange(0, j as int));
            let name = &other.buildings[j].name;
            if !has_building(&out, name) {
                out.push(copy_building(&other.buildings[j]));
                assert(building_names(out@) =~= union_names(a.1, b.1.subrange(0, j as int)).push(
                    name@,
                ));
            }
            j = j + 1;
        }
        assert(b.1.subrange(0, j as int) =~= b.1);
        TaskInfo { subject, buildings: out }
    }
}

/// The tasks of each day of a week, as plain values.
pub open spec fn week_view(w: Week<TaskInfo>) -> Seq<Seq<(Span, (usize, Seq<Seq<char>>))>> {
    w.days().map_values(|d: Day<TaskInfo>| task_views(d@))
}

/// Two days hold the same spans in the same order, with the same buildings.
pub open spec fn same_day_view(
    a: Seq<(Span, (usize, Seq<Seq<char>>))>,
    b: Seq<(Span, (usize, Seq<Seq<char>>))>,
) -> bool {
    &&& a.len() == b.len()
    &&& forall|k: int|
        0 <= k < a.len() ==> (#[trigger] a[k]).0 == b[k].0 && same_buildings(a[k].1.1, b[k].1.1)
}

/// Two weeks meet at the same times in the same buildings.
pub open spec fn same_week_view(
    a: Seq<Seq<(Span, (usize, Seq<Seq<char>>))>>,
    b: Seq<Seq<(Span, (usize, Seq<Seq<char>>))>>,
) -> bool {
    &&& a.len() == b.len()
    &&& forall|i: int| 0 <= i < a.len() ==> same_day_view(#[trigger] a[i], b[i])
}

/// A section of a subject: its labels, its subject's index in the catalog, and
/// its weekly schedule.
#[derive(Debug, Clone)]
pub struct SubjectCommision {
    pub names: Vec<String>,
    pub subject: usize,
    pub schedule: Week<TaskInfo>,
}

pub open spec fn names_view(v: Seq<String>) -> Seq<Seq<char>> {
    v.map_values(|s: String| s@)
}

/// A commission as plain values: its labels and its week.
pub open spec fn commission_view(c: SubjectCommision) -> (
    Seq<Seq<char>>,
    Seq<Seq<(Span, (usize, Seq<Seq<char>>))>>,
) {
    (names_view(c.names@), week_view(c.schedule))
}

pub open spec fn commission_views(s: Seq<SubjectCommision>) -> Seq<
    (Seq<Seq<char>>, Seq<Seq<(Span, (usize, Seq<Seq<char>>))>>),
> {
    s.map_values(|c: SubjectCommision| commission_view(c))
}

/// The same commission with each day's overlapping meetings merged.
pub open spec fn simplified_view(
    c: (Seq<Seq<char>>, Seq<Seq<(Span, (usize, Seq<Seq<char>>))>>),
) -> (Seq<Seq<char>>, Seq<Seq<(Span, (usize, Seq<Seq<char>>))>>) {
    (c.0, c.1.map_values(|d: Seq<(Span, (usize, Seq<Seq<char>>))>| collapse::<TaskInfo>(d)))
}

/// `g` is the first commission of `acc` whose week is the same as `w`.
pub open spec fn first_same_week(
    acc: Seq<(Seq<Seq<char>>, Seq<Seq<(Span, (usize, Seq<Seq<char>>))>>)>,
    w: Seq<Seq<(Span, (usize, Seq<Seq<char>>))>>,
    g: int,
) -> bool {
    &&& 0 <= g < acc.len()
    &&& same_week_view(acc[g].1, w)
    &&& forall|h: int| 0 <= h < g ==> !same_week_view(#[trigger] acc[h].1, w)
}

/// Commissions with the same week merged into the first of them, whose labels
/// are followed by the others' labels in order.
pub open spec fn regroup(
    s: Seq<(Seq<Seq<char>>, Seq<Seq<(Span, (usize, Seq<Seq<char>>))>>)>,
) -> Seq<(Seq<Seq<char>>, Seq<Seq<(Span, (usize, Seq<Seq<char>>))>>)>
    decreases s.len(),
{
    if s.len() == 0 {
        s
    } else {
        let acc = regroup(s.drop_last());
        let c = s.last();
        if exists|g: int| first_same_week(acc, c.1, g) {
            let g = choose|g: int| first_same_week(acc, c.1, g);
            acc.update(g, (acc[g].0 + c.0, acc[g].1))
        } else {
            acc.push(c)
        }
    }
}

fn same_names(a: &Vec<Building>, b: &Vec<Building>) -> (r: bool)
    ensures
        r == same_buildings(building_names(a@), building_names(b@)),
{
    let mut i: usize = 0;
    while i < a.len()
        invariant
            i <= a@.len(),
            forall|k: int| 0 <= k < i ==> building_names(b@).contains(#[trigger] building_names(a@)[k]),
        decreases a@.len() - i,
    {
        if !has_building(b, &a[i].name) {
            assert(building_names(a@).contains(building_names(a@)[i as int]));
            return false;
        }
        i = i + 1;
    }
    let mut j: usize = 0;
    while j < b.len()
        invariant
            j <= b@.len(),
            forall|k: int| 0 <= k < a@.len() ==> building_names(b@).contains(#[trigger] building_names(a@)[k]),
            forall|k: int| 0 <= k < j ==> building_names(a@).contains(#[trigger] building_names(b@)[k]),
        decreases b@.len() - j,
    {
        if !has_building(a, &b[j].name) {
            assert(building_names(b@).contains(building_names(b@)[j as int]));
            return false;
        }
        j = j + 1;
    }
    proof {
        assert forall|n: Seq<char>| building_names(a@).contains(n) <==> building_names(b@).contains(n) by {
            if building_names(a@).contains(n) {
                let k = choose|k: int| 0 <= k < building_names(a@).len() && building_names(a@)[k] == n;
                assert(building_names(b@).contains(building_names(a@)[k]));
            }
            if building_names(b@).contains(n) {
                let k = choose|k: int| 0 <= k < building_names(b@).len() && building_names(b@)[k] == n;
                assert(building_names(a@).contains(building_names(b@)[k]));
            }
        }
    }
    true
}

fn same_day(a: &Day<TaskInfo>, b: &Day<TaskInfo>) -> (r: bool)
    ensures
        r == same_day_view(task_views(a@), task_views(b@)),
{
    let x = a.tasks();
    let y = b.tasks();
    if x.len() != y.len() {
        return false;
    }
    let mut k: usize = 0;
    while k < x.len()
        invariant
            x@ == a@,
            y@ == b@,
            x@.len() == y@.len(),
            k <= x@.len(),
            forall|q: int|
                0 <= q < k ==> (#[trigger] task_views(a@)[q]).0 == task_views(b@)[q].0
                    && same_buildings(task_views(a@)[q].1.1, task_views(b@)[q].1.1),
        decreases x@.len() - k,
    {
        let s = x[k].span;
        let t = y[k].span;
        let same_span = s.start.hour == t.start.hour && s.start.minutes == t.start.minutes
            && s.end.hour == t.end.hour && s.end.minutes == t.end.minutes;
        if !same_span || !same_names(&x[k].info.buildings, &y[k].info.buildings) {
            assert(!((task_views(a@)[k as int]).0 == task_views(b@)[k as int].0 && same_buildings(
                task_views(a@)[k as int].1.1,
                task_views(b@)[k as int].1.1,
            )));
            return false;
        }
        k = k + 1;
    }
    true
}

fn same_week(a: &Week<TaskInfo>, b: &Week<TaskInfo>) -> (r: bool)
    ensures
        r == same_week_view(week_view(*a), week_view(*b)),
{
    let r = same_day(&a.sunday, &b.sunday) && same_day(&a.monday, &b.monday) && same_day(
        &a.tuesday,
        &b.tuesday,
    ) && same_day(&a.wednesday, &b.wednesday) && same_day(&a.thursday, &b.thursday) && same_day(
        &a.friday,
        &b.friday,
    ) && same_day(&a.saturday, &b.saturday);
    proof {
        let va = week_view(*a);
        let vb = week_view(*b);
        assert(va[0] == task_views(a.sunday@) && vb[0] == task_views(b.sunday@));
        assert(va[1] == task_views(a.monday@) && vb[1] == task_views(b.monday@));
        assert(va[2] == task_views(a.tuesday@) && vb[2] == task_views(b.tuesday@));
        assert(va[3] == task_views(a.wednesday@) && vb[3] == task_views(b.wednesday@));
        assert(va[4] == task_views(a.thursday@) && vb[4] == task_views(b.thursday@));
        assert(va[5] == task_views(a.friday@) && vb[5] == task_views(b.friday@));
        assert(va[6] == task_views(a.saturday@) && vb[6] == task_views(b.saturday@));
        if r {
            assert forall|i: int| 0 <= i < va.len() implies same_day_view(#[trigger] va[i], vb[i]) by {
                assert(i == 0 || i == 1 || i == 2 || i == 3 || i == 4 || i == 5 || i == 6);
            }
        }
    }
    r
}

impl SubjectCommision {
    /// The same labels, each as often, in whatever order, and the same week.
    pub open spec fn spec_same(&self, other: &SubjectCommision) -> bool {
        names_view(self.names@).to_multiset() == names_view(other.names@).to_multiset()
            && same_week_view(
            week_view(self.schedule),
            week_view(other.schedule),
        )
    }
}

/// How often `x` occurs in `v`.
pub open spec fn occurrences(v: Seq<Seq<char>>, x: Seq<char>) -> int
    decreases v.len(),
{
    if v.len() == 0 {
        0
    } else {
        occurrences(v.drop_last(), x) + if v.last() == x {
            1int
        } else {
            0int
        }
    }
}

proof fn lemma_occurrences(v: Seq<Seq<char>>, x: Seq<char>)
    ensures
        occurrences(v, x) == v.to_multiset().count(x),
    decreases v.len(),
{
    broadcast use vstd::seq_lib::group_to_multiset_ensures;

    if v.len() > 0 {
        lemma_occurrences(v.drop_last(), x);
        assert(v.drop_last().push(v.last()) =~= v);
    }
}

fn count_label(v: &Vec<String>, x: &String) -> (r: usize)
    ensures
        r == occurrences(names_view(v@), x@),
{
    let mut n: usize = 0;
    let mut i: usize = 0;
    while i < v.len()
        invariant
            i <= v@.len(),
            n <= i,
            n == occurrences(names_view(v@).subrange(0, i as int), x@),
        decreases v@.len() - i,
    {
        assert(names_view(v@).subrange(0, i + 1).drop_last() =~= names_view(v@).subrange(
            0,
            i as int,
        ));
        if v[i] == *x {
            n = n + 1;
        }
        i = i + 1;
    }
    assert(names_view(v@).subrange(0, i as int) =~= names_view(v@));
    n
}

/// Every label of `a` occurs as often in `a` as in `b`.
fn counts_agree(a: &Vec<String>, b: &Vec<String>) -> (r: bool)
    ensures
        r == forall|i: int|
            0 <= i < a@.len() ==> occurrences(names_view(a@), (#[trigger] a@[i])@) == occurrences(
                names_view(b@),
                a@[i]@,
            ),
{
    let mut i: usize = 0;
    while i < a.len()
        invariant
            i <= a@.len(),
            forall|k: int|
                0 <= k < i ==> occurrences(names_view(a@), (#[trigger] a@[k])@) == occurrences(
                    names_view(b@),
                    a@[k]@,
                ),
        decreases a@.len() - i,
    {
        if count_label(a, &a[i]) != count_label(b, &a[i]) {
            return false;
        }
        i = i + 1;
    }
    true
}

/// The same labels, each as often, in whatever order.
fn same_labels(a: &Vec<String>, b: &Vec<String>) -> (r: bool)
    ensures
        r == (names_view(a@).to_multiset() == names_view(b@).to_multiset()),
{
    let forward = counts_agree(a, b);
    let backward = counts_agree(b, a);
    proof {
        let ma = names_view(a@).to_multiset();
        let mb = names_view(b@).to_multiset();
        broadcast use vstd::seq_lib::group_to_multiset_ensures;

        if forward && backward {
            assert forall|x: Seq<char>| ma.count(x) == mb.count(x) by {
                lemma_occurrences(names_view(a@), x);
                lemma_occurrences(names_view(b@), x);
                if names_view(a@).contains(x) {
                    let i = choose|i: int| 0 <= i < names_view(a@).len() && names_view(a@)[i] == x;
                    assert(a@[i]@ == x);
                } else if names_view(b@).contains(x) {
                    let i = choose|i: int| 0 <= i < names_view(b@).len() && names_view(b@)[i] == x;
                    assert(b@[i]@ == x);
                }
            }
            assert(ma =~= mb);
        } else if !forward {
            let i = choose|i: int|
                0 <= i < a@.len() && occurrences(names_view(a@), (#[trigger] a@[i])@)
                    != occurrences(names_view(b@), a@[i]@);
            lemma_occurrences(names_view(a@), a@[i]@);
            lemma_occurrences(names_view(b@), a@[i]@);
        } else {
            let i = choose|i: int|
                0 <= i < b@.len() && occurrences(names_view(b@), (#[trigger] b@[i])@)
                    != occurrences(names_view(a@), b@[i]@);
            lemma_occurrences(names_view(a@), b@[i]@);
            lemma_occurrences(names_view(b@), b@[i]@);
        }
    }
    forward && backward
}

impl SubjectCommision {
    /// The union of two commissions of one subject that meet at the same
    /// times: the labels of `self`, then those of `other`, on `self`'s week.
    pub fn merge(self, other: SubjectCommision) -> (r: SubjectCommision)
        requires
            self.subject == other.subject,
            same_week_view(week_view(self.schedule), week_view(other.schedule)),
        ensures
            names_view(r.names@) == names_view(self.names@) + names_view(other.names@),
            r.subject == self.subject,
            r.schedule == self.schedule,
    {
        let SubjectCommision { names, subject, schedule } = self;
        let ghost a = names@;
        let mut names = names;
        let mut more = other.names;
        let ghost b = more@;
        names.append(&mut more);
        assert(names_view(names@) =~= names_view(a) + names_view(b));
        SubjectCommision { names, subject, schedule }
    }
}

impl PartialEq for SubjectCommision {
    fn eq(&self, other: &SubjectCommision) -> (r: bool) {
        let labels = same_labels(&self.names, &other.names);
        let week = same_week(&self.schedule, &other.schedule);
        assert(self.spec_same(other) == (labels && week));
        labels && week
    }
}

impl vstd::std_specs::cmp::PartialEqSpecImpl for SubjectCommision {
    open spec fn obeys_eq_spec() -> bool {
        true
    }

    open spec fn eq_spec(&self, other: &SubjectCommision) -> bool {
        self.spec_same(other)
    }
}

impl Collidable for SubjectCommision {
    open spec fn spec_collides(&self, other: &SubjectCommision) -> bool {
        self.schedule.spec_collides(&other.schedule)
    }

    fn collides(&self, other: &SubjectCommision) -> (r: bool) {
        self.schedule.collides(&other.schedule)
    }
}

/// A course offering and its commissions.
#[derive(Debug)]
pub struct Subject {
    pub code: Code,
    pub name: String,
    pub commissions: Vec<SubjectCommision>,
    pub credits: u8,
}

impl Subject {
    /// Same code, name and credits, and commissions that are pairwise the same.
    pub open spec fn spec_same(&self, other: &Subject) -> bool {
        &&& self.code == other.code
        &&& self.name@ == other.name@
        &&& self.credits == other.credits
        &&& self.commissions@.len() == other.commissions@.len()
        &&& forall|i: int|
            0 <= i < self.commissions@.len() ==> (#[trigger] self.commissions@[i]).spec_same(
                &other.commissions@[i],
            )
    }
}

impl PartialEq for Subject {
    fn eq(&self, other: &Subject) -> (r: bool) {
        if !(self.code.high == other.code.high && self.code.low == other.code.low
            && self.name == other.name && self.credits == other.credits
            && self.commissions.len() == other.commissions.len()) {
            return false;
        }
        let mut i: usize = 0;
        while i < self.commissions.len()
            invariant
                self.commissions@.len() == other.commissions@.len(),
                i <= self.commissions@.len(),
                forall|k: int|
                    0 <= k < i ==> (#[trigger] self.commissions@[k]).spec_same(&other.commissions@[k]),
            decreases self.commissions@.len() - i,
        {
            if !(self.commissions[i] == other.commissions[i]) {
                return false;
            }
            i = i + 1;
        }
        true
    }
}

impl vstd::std_specs::cmp::PartialEqSpecImpl for Subject {
    open spec fn obeys_eq_spec() -> bool {
        true
    }

    open spec fn eq_spec(&self, other: &Subject) -> bool {
        self.spec_same(other)
    }
}

/// `i` is the first commission labelled `id`.
pub open spec fn first_labelled(s: Seq<SubjectCommision>, id: Seq<char>, i: int) -> bool {
    &&& 0 <= i < s.len()
    &&& names_view(s[i].names@).contains(id)
    &&& forall|k: int| 0 <= k < i ==> !names_view((#[trigger] s[k]).names@).contains(id)
}

fn has_label(names: &Vec<String>, id: &str) -> (r: bool)
    ensures
        r == names_view(names@).contains(id@),
{
    let target = id.to_owned();
    let mut i: usize = 0;
    while i < names.len()
        invariant
            i <= names@.len(),
            target@ == id@,
            forall|k: int| 0 <= k < i ==> (#[trigger] names@[k])@ != id@,
        decreases names@.len() - i,
    {
        if names[i] == target {
            assert(names_view(names@)[i as int] == id@);
            return true;
        }
        i = i + 1;
    }
    proof {
        if names_view(names@).contains(id@) {
            let k = choose|k: int| 0 <= k < names_view(names@).len() && names_view(names@)[k] == id@;
            assert(names@[k]@ == id@);
        }
    }
    false
}

/// The first commission of `v` whose week is the same as `w`.
fn find_same_week(v: &Vec<SubjectCommision>, w: &Week<TaskInfo>) -> (r: Option<usize>)
    ensures
        match r {
            Some(g) => first_same_week(commission_views(v@), week_view(*w), g as int),
            None => !exists|g: int| first_same_week(commission_views(v@), week_view(*w), g),
        },
{
    let ghost acc = commission_views(v@);
    let mut g: usize = 0;
    while g < v.len()
        invariant
            g <= v@.len(),
            acc == commission_views(v@),
            forall|h: int| 0 <= h < g ==> !same_week_view(#[trigger] acc[h].1, week_view(*w)),
        decreases v@.len() - g,
    {
        assert(acc[g as int] == commission_view(v@[g as int]));
        if same_week(&v[g].schedule, w) {
            return Some(g);
        }
        g = g + 1;
    }
    proof {
        if exists|j: int| first_same_week(acc, week_view(*w), j) {
            let j = choose|j: int| first_same_week(acc, week_view(*w), j);
            assert(!same_week_view(acc[j].1, week_view(*w)));
        }
    }
    None
}

impl Subject {
    /// The first commission whose labels include `id`.
    pub fn find_commission_by_id(&self, id: &str) -> (r: Option<&SubjectCommision>)
        ensures
            r is Some ==> exists|i: int|
                first_labelled(self.commissions@, id@, i) && *(r->Some_0) == self.commissions@[i],
            r is None ==> forall|i: int|
                0 <= i < self.commissions@.len() ==> !names_view(
                    (#[trigger] self.commissions@[i]).names@,
                ).contains(id@),
    {
        let mut i: usize = 0;
        while i < self.commissions.len()
            invariant
                i <= self.commissions@.len(),
                forall|k: int|
                    0 <= k < i ==> !names_view((#[trigger] self.commissions@[k]).names@).contains(
                        id@,
                    ),
            decreases self.commissions@.len() - i,
        {
            if has_label(&self.commissions[i].names, id) {
                assert(first_labelled(self.commissions@, id@, i as int));
                return Some(&self.commissions[i]);
            }
            i = i + 1;
        }
        None
    }

    /// Merges, in every commission, the meetings of a day that overlap; then
    /// merges the commissions that meet at the same times in the same
    /// buildings into the first of them, which takes all their labels.
    pub fn optimize(&mut self)
        ensures
            commission_views(final(self).commissions@) == regroup(
                commission_views(old(self).commissions@).map_values(
                    |c: (Seq<Seq<char>>, Seq<Seq<(Span, (usize, Seq<Seq<char>>))>>)|
                        simplified_view(c),
                ),
            ),
            forall|i: int|
                0 <= i < final(self).commissions@.len() ==> exists|k: int|
                    0 <= k < old(self).commissions@.len() && (#[trigger] final(self).commissions@[i]).subject == old(self).commissions@[k].subject,
            forall|i: int|
                0 <= i < final(self).commissions@.len() && (forall|k: int|
                    0 <= k < old(self).commissions@.len() ==> (#[trigger] old(self).commissions@[k]).subject
                        == old(self).commissions@[0].subject) ==> (#[trigger] final(self).commissions@[i]).subject == old(self).commissions@[0].subject,
            final(self).code == old(self).code,
            final(self).name == old(self).name,
            final(self).credits == old(self).credits,
    {
        let ghost input = commission_views(self.commissions@).map_values(
            |c: (Seq<Seq<char>>, Seq<Seq<(Span, (usize, Seq<Seq<char>>))>>)| simplified_view(c),
        );
        let mut rest: Vec<SubjectCommision> = Vec::new();
        std::mem::swap(&mut rest, &mut self.commissions);
        let ghost orig = rest@;
        let total = rest.len();
        let mut out: Vec<SubjectCommision> = Vec::new();
        let mut k: usize = 0;
        assert(input.subrange(0, 0) =~= Seq::empty());
        while rest.len() > 0
            invariant
                k <= orig.len(),
                total == orig.len(),
                rest@ == orig.subrange(k as int, orig.len() as int),
                input == commission_views(orig).map_values(
                    |c: (Seq<Seq<char>>, Seq<Seq<(Span, (usize, Seq<Seq<char>>))>>)|
                        simplified_view(c),
                ),
                commission_views(out@) == regroup(input.subrange(0, k as int)),
                forall|i: int|
                    0 <= i < out@.len() ==> exists|q: int|
                        0 <= q < k && (#[trigger] out@[i]).subject == orig[q].subject,
            decreases rest.len(),
        {
            let c = rest.remove(0);
            assert(c == orig[k as int]);
            let ghost cv = commission_view(c);
            let SubjectCommision { names, subject, schedule } = c;
            let simple = schedule.simplified();
            let ghost sv = (names_view(names@), week_view(simple));
            proof {
                assert(input[k as int] == simplified_view(cv));
                assert forall|i: int| 0 <= i < 7 implies #[trigger] week_view(simple)[i]
                    == simplified_view(cv).1[i] by {
                    assert(week_view(simple)[i] == task_views(simple.days()[i]@));
                }
                assert(week_view(simple) =~= simplified_view(cv).1);
                assert(sv == input[k as int]);
                assert(input.subrange(0, k + 1).drop_last() =~= input.subrange(0, k as int));
            }
            let ghost acc = commission_views(out@);
            let pos = find_same_week(&out, &simple);
            let mut names = names;
            if let Some(g) = pos {
                assert(first_same_week(acc, sv.1, g as int));
                proof {
                    let j = choose|j: int| first_same_week(acc, sv.1, j);
                    assert(j == g) by {
                        if j < g {
                            assert(!same_week_view(acc[j].1, sv.1));
                        }
                        if g < j {
                            assert(!same_week_view(acc[g as int].1, sv.1));
                        }
                    }
                }
                let ghost old_out = out@;
                let ghost nv = names@;
                out[g].names.append(&mut names);
                proof {
                    assert(out@[g as int].names@ == old_out[g as int].names@ + nv);
                    assert(names_view(out@[g as int].names@) =~= names_view(
                        old_out[g as int].names@,
                    ) + names_view(nv));
                    assert(acc[g as int] == commission_view(old_out[g as int]));
                    assert(names_view(nv) == sv.0);
                    assert forall|h: int| 0 <= h < out@.len() && h != g implies out@[h]
                        == old_out[h] by {}
                    assert forall|i: int| 0 <= i < out@.len() implies exists|q: int|
                        0 <= q < k + 1 && (#[trigger] out@[i]).subject == orig[q].subject by {
                        assert(out@[i].subject == old_out[i].subject);
                        let q = choose|q: int| 0 <= q < k && old_out[i].subject == orig[q].subject;
                        assert(0 <= q < k + 1 && out@[i].subject == orig[q].subject);
                    }
                }
                assert(commission_views(out@) =~= acc.update(
                    g as int,
                    (acc[g as int].0 + sv.0, acc[g as int].1),
                ));
            } else {
                assert(!exists|j: int| first_same_week(acc, sv.1, j));
                let ghost old_out = out@;
                out.push(SubjectCommision { names, subject, schedule: simple });
                assert(commission_views(out@) =~= acc.push(sv));
                proof {
                    assert forall|i: int| 0 <= i < out@.len() implies exists|q: int|
                        0 <= q < k + 1 && (#[trigger] out@[i]).subject == orig[q].subject by {
                        if i < old_out.len() {
                            assert(out@[i] == old_out[i]);
                            let q = choose|q: int| 0 <= q < k && old_out[i].subject == orig[q].subject;
                            assert(0 <= q < k + 1 && out@[i].subject == orig[q].subject);
                        } else {
                            assert(out@[i].subject == orig[k as int].subject);
                        }
                    }
                }
            }
            k = k + 1;
            assert(rest@ =~= orig.subrange(k as int, orig.len() as int));
        }
        assert(input.subrange(0, k as int) =~= input);
        proof {
            assert forall|i: int| 0 <= i < out@.len() && (forall|q: int|
                0 <= q < orig.len() ==> (#[trigger] orig[q]).subject == orig[0].subject) implies (
            #[trigger] out@[i]).subject == orig[0].subject by {
                let q = choose|q: int| 0 <= q < k && out@[i].subject == orig[q].subject;
            }
        }
        self.commissions = out;
    }
}

} // verus!

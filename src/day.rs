//! The tasks of one weekday, kept in span order.
use vstd::prelude::*;

use crate::collidable::Collidable;
use crate::combinable::Combinable;
use crate::span::{overlap, span_before, Span};
use crate::summable::Summable;
use crate::task::Task;
use crate::time::Time;

verus! {

/// No task comes before an earlier-placed one.
pub open spec fn sorted_by_span<T>(s: Seq<Task<T>>) -> bool {
    forall|i: int, j: int| 0 <= i < j < s.len() ==> !span_before(#[trigger] s[j].span, #[trigger] s[i].span)
}

/// Two neighbours in `s` overlap.
pub open spec fn adjacent_collide<T>(s: Seq<Task<T>>) -> bool {
    exists|i: int| 0 <= i && i + 1 < s.len() && #[trigger] overlap(s[i].span, s[i + 1].span)
}

pub open spec fn all_spans_wf<T>(s: Seq<Task<T>>) -> bool {
    forall|i: int| 0 <= i < s.len() ==> (#[trigger] s[i]).span.wf()
}

/// Some task of `a` overlaps some task of `b`.
pub open spec fn cross_collide<T>(a: Seq<Task<T>>, b: Seq<Task<T>>) -> bool {
    exists|i: int, j: int|
        0 <= i < a.len() && 0 <= j < b.len() && #[trigger] overlap(a[i].span, b[j].span)
}

/// `s` with `x` placed after every task whose span does not come after its own.
pub open spec fn insert_task<T>(s: Seq<Task<T>>, x: Task<T>) -> Seq<Task<T>>
    decreases s.len(),
{
    if s.len() == 0 {
        seq![x]
    } else if span_before(x.span, s.last().span) {
        insert_task(s.drop_last(), x).push(s.last())
    } else {
        s.push(x)
    }
}

/// The tasks in span order; tasks with equal spans keep their order.
pub open spec fn sort_tasks<T>(s: Seq<Task<T>>) -> Seq<Task<T>>
    decreases s.len(),
{
    if s.len() == 0 {
        s
    } else {
        insert_task(sort_tasks(s.drop_last()), s.last())
    }
}

/// `insert_task` on spans and payload views.
pub open spec fn insert_pair<V>(s: Seq<(Span, V)>, x: (Span, V)) -> Seq<(Span, V)>
    decreases s.len(),
{
    if s.len() == 0 {
        seq![x]
    } else if span_before(x.0, s.last().0) {
        insert_pair(s.drop_last(), x).push(s.last())
    } else {
        s.push(x)
    }
}

/// `sort_tasks` on spans and payload views.
pub open spec fn sort_pairs<V>(s: Seq<(Span, V)>) -> Seq<(Span, V)>
    decreases s.len(),
{
    if s.len() == 0 {
        s
    } else {
        insert_pair(sort_pairs(s.drop_last()), s.last())
    }
}

proof fn lemma_views_insert<T: View>(s: Seq<Task<T>>, x: Task<T>)
    ensures
        task_views(insert_task(s, x)) == insert_pair(task_views(s), (x.span, x.info@)),
    decreases s.len(),
{
    if s.len() > 0 {
        assert(task_views(s).drop_last() =~= task_views(s.drop_last()));
        if span_before(x.span, s.last().span) {
            lemma_views_insert(s.drop_last(), x);
            assert(task_views(insert_task(s.drop_last(), x).push(s.last())) =~= task_views(
                insert_task(s.drop_last(), x),
            ).push((s.last().span, s.last().info@)));
        } else {
            assert(task_views(s.push(x)) =~= task_views(s).push((x.span, x.info@)));
        }
    } else {
        assert(task_views(seq![x]) =~= seq![(x.span, x.info@)]);
    }
}

/// Sorting commutes with taking views: only the spans decide the order.
pub proof fn lemma_views_sort<T: View>(s: Seq<Task<T>>)
    ensures
        task_views(sort_tasks(s)) == sort_pairs(task_views(s)),
    decreases s.len(),
{
    if s.len() > 0 {
        lemma_views_sort(s.drop_last());
        assert(task_views(s).drop_last() =~= task_views(s.drop_last()));
        lemma_views_insert(sort_tasks(s.drop_last()), s.last());
    } else {
        assert(task_views(s) =~= Seq::<(Span, T::V)>::empty());
    }
}

proof fn lemma_insert_multiset<T>(s: Seq<Task<T>>, x: Task<T>)
    ensures
        insert_task(s, x).to_multiset() == s.to_multiset().insert(x),
    decreases s.len(),
{
    broadcast use vstd::seq_lib::group_to_multiset_ensures;

    if s.len() == 0 {
        assert(seq![x] =~= s.push(x));
    } else if span_before(x.span, s.last().span) {
        lemma_insert_multiset(s.drop_last(), x);
        assert(s.drop_last().push(s.last()) =~= s);
        assert(insert_task(s, x).to_multiset() =~= s.to_multiset().insert(x));
    }
}

/// Sorting keeps every task, as often as it occurs.
pub proof fn lemma_sort_multiset<T>(s: Seq<Task<T>>)
    ensures
        sort_tasks(s).to_multiset() == s.to_multiset(),
    decreases s.len(),
{
    broadcast use vstd::seq_lib::group_to_multiset_ensures;

    if s.len() > 0 {
        lemma_sort_multiset(s.drop_last());
        lemma_insert_multiset(sort_tasks(s.drop_last()), s.last());
        assert(s.drop_last().push(s.last()) =~= s);
    }
}

proof fn lemma_insert_split<T>(s: Seq<Task<T>>, x: Task<T>, i: int)
    requires
        0 <= i <= s.len(),
        forall|k: int| i <= k < s.len() ==> span_before(x.span, #[trigger] s[k].span),
    ensures
        insert_task(s, x) == insert_task(s.subrange(0, i), x) + s.subrange(i, s.len() as int),
    decreases s.len(),
{
    if i == s.len() {
        assert(s.subrange(0, i) =~= s);
        assert(insert_task(s, x) =~= insert_task(s.subrange(0, i), x) + s.subrange(
            i,
            s.len() as int,
        ));
    } else {
        let t = s.drop_last();
        lemma_insert_split(t, x, i);
        assert(t.subrange(0, i) =~= s.subrange(0, i));
        assert(span_before(x.span, s[s.len() - 1].span));
        assert(insert_task(s, x) =~= insert_task(s.subrange(0, i), x) + s.subrange(
            i,
            s.len() as int,
        ));
    }
}

/// The earlier of two times.
pub open spec fn earlier(a: Time, b: Time) -> Time {
    if b.before(a) {
        b
    } else {
        a
    }
}

/// The later of two times.
pub open spec fn later(a: Time, b: Time) -> Time {
    if a.before(b) {
        b
    } else {
        a
    }
}

/// The span and the payload's view of each task.
pub open spec fn task_views<T: View>(s: Seq<Task<T>>) -> Seq<(Span, T::V)> {
    s.map_values(|t: Task<T>| (t.span, t.info@))
}

/// Adds `t` after `acc`, folding it into the last task when the two overlap:
/// the span becomes their union and the payloads are added.
pub open spec fn absorb<T: Summable>(acc: Seq<(Span, T::V)>, t: (Span, T::V)) -> Seq<(Span, T::V)> {
    if acc.len() > 0 && overlap(acc.last().0, t.0) {
        acc.drop_last().push(
            (
                Span {
                    start: earlier(t.0.start, acc.last().0.start),
                    end: later(t.0.end, acc.last().0.end),
                },
                T::spec_plus(t.1, acc.last().1),
            ),
        )
    } else {
        acc.push(t)
    }
}

/// Each run of overlapping tasks collapsed into one.
pub open spec fn collapse<T: Summable>(s: Seq<(Span, T::V)>) -> Seq<(Span, T::V)>
    decreases s.len(),
{
    if s.len() == 0 {
        s
    } else {
        absorb::<T>(collapse::<T>(s.drop_last()), s.last())
    }
}

/// Every span ends no later than any later span starts.
pub open spec fn disjoint_pairs<V>(s: Seq<(Span, V)>) -> bool {
    forall|i: int, j: int|
        0 <= i < j < s.len() ==> #[trigger] s[i].0.end.minute_of_day()
            <= #[trigger] s[j].0.start.minute_of_day()
}

/// Collapsing tasks that already follow one another without overlap changes
/// nothing; in particular a day that was simplified once stays as it is.
pub proof fn lemma_collapse_fixed<T: Summable>(s: Seq<(Span, T::V)>)
    requires
        disjoint_pairs(s),
    ensures
        collapse::<T>(s) == s,
    decreases s.len(),
{
    if s.len() > 0 {
        let t = s.drop_last();
        assert(disjoint_pairs(t)) by {
            assert forall|i: int, j: int| 0 <= i < j < t.len() implies #[trigger] t[i].0.end.minute_of_day()
                <= #[trigger] t[j].0.start.minute_of_day() by {
                assert(t[i] == s[i] && t[j] == s[j]);
            }
        }
        lemma_collapse_fixed::<T>(t);
        if t.len() > 0 {
            assert(t.last() == s[s.len() - 2]);
            assert(s[s.len() - 2].0.end.minute_of_day() <= s.last().0.start.minute_of_day());
        }
        assert(t.push(s.last()) =~= s);
    }
}

/// Every task ends no later than any later task starts.
pub open spec fn disjoint_in_order<T>(s: Seq<Task<T>>) -> bool {
    forall|i: int, j: int|
        0 <= i < j < s.len() ==> #[trigger] s[i].span.end.minute_of_day()
            <= #[trigger] s[j].span.start.minute_of_day()
}

/// The two task lists merged in span order; on equal spans the tasks of `a`
/// come first.
pub open spec fn merge_tasks<T>(a: Seq<Task<T>>, b: Seq<Task<T>>) -> Seq<Task<T>>
    decreases a.len() + b.len(),
{
    if a.len() == 0 {
        b
    } else if b.len() == 0 {
        a
    } else if span_before(b[0].span, a[0].span) {
        seq![b[0]] + merge_tasks(a, b.drop_first())
    } else {
        seq![a[0]] + merge_tasks(a.drop_first(), b)
    }
}

/// `b` is `a` with every payload cloned.
pub open spec fn clones_of<T: Clone>(a: Seq<Task<T>>, b: Seq<Task<T>>) -> bool {
    &&& a.len() == b.len()
    &&& forall|i: int|
        0 <= i < a.len() ==> (#[trigger] b[i]).span == a[i].span && cloned(a[i].info, b[i].info)
}

fn copy_task<T: Clone>(t: &Task<T>) -> (r: Task<T>)
    ensures
        r.span == t.span,
        cloned(t.info, r.info),
{
    Task { span: t.span, info: t.info.clone() }
}

/// The tasks of one day, sorted by span, with a cached flag telling whether
/// two neighbours overlap.
#[derive(Debug, PartialEq, Eq)]
pub struct Day<T> {
    tasks: Vec<Task<T>>,
    has_collisions: bool,
}

impl<T> View for Day<T> {
    type V = Seq<Task<T>>;

    closed spec fn view(&self) -> Seq<Task<T>> {
        self.tasks@
    }
}

impl<T> Day<T> {
    #[verifier::type_invariant]
    spec fn well_formed(self) -> bool {
        &&& sorted_by_span(self.tasks@)
        &&& all_spans_wf(self.tasks@)
        &&& self.has_collisions == adjacent_collide(self.tasks@)
    }

    /// The cached flag: two neighbours overlap.
    pub closed spec fn spec_has_collisions(self) -> bool {
        self.has_collisions
    }

    /// Sorts the tasks by span (stably) and records whether neighbours overlap.
    pub fn new(tasks: Vec<Task<T>>) -> (d: Day<T>)
        requires
            all_spans_wf(tasks@),
        ensures
            d@ == sort_tasks(tasks@),
            sorted_by_span(d@),
            d@.to_multiset() == tasks@.to_multiset(),
            d.spec_has_collisions() == adjacent_collide(d@),
    {
        proof {
            lemma_sort_multiset(tasks@);
        }
        let ghost input = tasks@;
        let total = tasks.len();
        let mut rest = tasks;
        let mut sorted: Vec<Task<T>> = Vec::new();
        let mut k: usize = 0;
        assert(input.subrange(0, 0) =~= Seq::<Task<T>>::empty());
        while rest.len() > 0
            invariant
                k <= input.len(),
                total == input.len(),
                rest@ == input.subrange(k as int, input.len() as int),
                sorted@ == sort_tasks(input.subrange(0, k as int)),
                sorted_by_span(sorted@),
                all_spans_wf(input),
                all_spans_wf(sorted@),
            decreases rest.len(),
        {
            let x = rest.remove(0);
            assert(input.subrange(0, k + 1).drop_last() =~= input.subrange(0, k as int));
            assert(x == input[k as int]);
            Self::insert_in_order(&mut sorted, x);
            k = k + 1;
            assert(rest@ =~= input.subrange(k as int, input.len() as int));
        }
        assert(input.subrange(0, k as int) =~= input);
        let has_collisions = Self::scan_neighbours(&sorted);
        Day { tasks: sorted, has_collisions }
    }

    fn insert_in_order(v: &mut Vec<Task<T>>, x: Task<T>)
        requires
            sorted_by_span(old(v)@),
            all_spans_wf(old(v)@),
            x.span.wf(),
        ensures
            final(v)@ == insert_task(old(v)@, x),
            sorted_by_span(final(v)@),
            all_spans_wf(final(v)@),
    {
        let ghost s = v@;
        let mut i: usize = v.len();
        while i > 0 && x.span.is_before(&v[i - 1].span)
            invariant
                i <= v@.len(),
                v@ == s,
                forall|k: int| i <= k < s.len() ==> span_before(x.span, #[trigger] s[k].span),
            decreases i,
        {
            i = i - 1;
        }
        proof {
            lemma_insert_split(s, x, i as int);
            let p = s.subrange(0, i as int);
            if i > 0 {
                assert(!span_before(x.span, p.last().span));
            }
            assert(insert_task(p, x) =~= p.push(x));
        }
        v.insert(i, x);
        proof {
            let r = v@;
            assert(r =~= s.subrange(0, i as int).push(x) + s.subrange(i as int, s.len() as int));
            assert forall|a: int, b: int| 0 <= a < b < r.len() implies !span_before(
                #[trigger] r[b].span,
                #[trigger] r[a].span,
            ) by {
                if b < i {
                    assert(r[a] == s[a] && r[b] == s[b]);
                } else if b == i {
                    assert(r[a] == s[a]);
                    assert(!span_before(x.span, s[i - 1].span));
                    if a < i - 1 {
                        assert(!span_before(s[i - 1].span, s[a].span));
                    }
                } else if a < i {
                    assert(r[a] == s[a] && r[b] == s[b - 1]);
                } else if a == i {
                    assert(r[b] == s[b - 1]);
                } else {
                    assert(r[a] == s[a - 1] && r[b] == s[b - 1]);
                }
            }
            assert forall|a: int| 0 <= a < r.len() implies (#[trigger] r[a]).span.wf() by {
                if a < i {
                    assert(r[a] == s[a]);
                } else if a > i {
                    assert(r[a] == s[a - 1]);
                }
            }
        }
    }

    fn scan_neighbours(v: &Vec<Task<T>>) -> (r: bool)
        ensures
            r == adjacent_collide(v@),
    {
        let n = v.len();
        let mut i: usize = 0;
        while n > 0 && i < n - 1
            invariant
                n == v@.len(),
                forall|k: int| 0 <= k < i && k + 1 < n ==> !#[trigger] overlap(v@[k].span, v@[k + 1].span),
            decreases n - i,
        {
            if v[i].span.collides(&v[i + 1].span) {
                assert(overlap(v@[i as int].span, v@[i + 1].span));
                return true;
            }
            i = i + 1;
        }
        false
    }

    pub fn empty() -> (d: Day<T>)
        ensures
            d@ == Seq::<Task<T>>::empty(),
            !d.spec_has_collisions(),
    {
        let d = Day { tasks: Vec::new(), has_collisions: false };
        assert(!adjacent_collide(d.tasks@));
        d
    }

    /// Two neighbouring tasks overlap.
    pub fn has_collisions(&self) -> (r: bool)
        ensures
            r == adjacent_collide(self@),
            r == self.spec_has_collisions(),
    {
        proof { use_type_invariant(self); }
        Self::scan_neighbours(&self.tasks)
    }

    pub fn tasks(&self) -> (r: &Vec<Task<T>>)
        ensures
            r@ == self@,
            sorted_by_span(r@),
            all_spans_wf(r@),
            self.spec_has_collisions() == adjacent_collide(r@),
    {
        proof { use_type_invariant(self); }
        &self.tasks
    }

    pub fn len(&self) -> (r: usize)
        ensures
            r == self@.len(),
    {
        self.tasks.len()
    }
}

impl<T: Summable> Day<T> {
    /// Collapses each run of overlapping tasks into one task spanning the run,
    /// whose payload is the sum of the run's payloads.
    pub fn simplified(self) -> (d: Day<T>)
        ensures
            task_views(d@) == collapse::<T>(task_views(self@)),
            !d.spec_has_collisions(),
            disjoint_in_order(d@),
            disjoint_pairs(task_views(d@)),
    {
        proof { use_type_invariant(&self); }
        let ghost input = self@;
        let ghost self_view = self@;
        let Day { tasks, has_collisions: _ } = self;
        let total = tasks.len();
        let mut rest = tasks;
        let mut out: Vec<Task<T>> = Vec::new();
        let mut k: usize = 0;
        assert(input.subrange(0, 0) =~= Seq::<Task<T>>::empty());
        while rest.len() > 0
            invariant
                k <= input.len(),
                total == input.len(),
                rest@ == input.subrange(k as int, input.len() as int),
                task_views(out@) == collapse::<T>(task_views(input.subrange(0, k as int))),
                sorted_by_span(input),
                all_spans_wf(input),
                all_spans_wf(out@),
                disjoint_in_order(out@),
                k > 0 ==> out@.len() > 0 && out@.last().span.start.minute_of_day()
                    <= input[k - 1].span.start.minute_of_day(),
            decreases rest.len(),
        {
            let t = rest.remove(0);
            assert(input.subrange(0, k + 1).drop_last() =~= input.subrange(0, k as int));
            assert(t == input[k as int]);
            assert(t.span.wf());
            assert(task_views(input.subrange(0, k + 1)).drop_last() =~= task_views(
                input.subrange(0, k as int),
            ));
            assert(task_views(input.subrange(0, k + 1)).last() == (t.span, t.info@));
            let ghost acc = task_views(out@);
            if k > 0 {
                assert(!span_before(input[k as int].span, input[k - 1].span));
            }
            let n = out.len();
            if n > 0 && out[n - 1].span.collides(&t.span) {
                let last = out.pop().unwrap();
                let start = if last.span.start.is_before(&t.span.start) {
                    last.span.start
                } else {
                    t.span.start
                };
                let end = if last.span.end.is_before(&t.span.end) {
                    t.span.end
                } else {
                    last.span.end
                };
                let merged = Task { span: Span { start, end }, info: t.info.plus(last.info) };
                proof {
                    assert(start == earlier(t.span.start, last.span.start));
                    assert(end == later(t.span.end, last.span.end));
                    assert(acc.last() == (last.span, last.info@));
                }
                out.push(merged);
                assert(task_views(out@) =~= absorb::<T>(acc, (t.span, t.info@)));
                proof {
                    let o = out@;
                    assert forall|i: int, j: int| 0 <= i < j < o.len() implies #[trigger] o[
                        i
                    ].span.end.minute_of_day() <= #[trigger] o[j].span.start.minute_of_day() by {
                        if j == o.len() - 1 {
                            assert(o[j].span.start == last.span.start || o[j].span.start
                                == t.span.start);
                        }
                    }
                }
            } else {
                let ghost tv = (t.span, t.info@);
                out.push(t);
                proof {
                    if n > 0 {
                        assert(acc.last().0 == out@[n - 1].span);
                    }
                    assert(task_views(out@) =~= absorb::<T>(acc, tv));
                }
                proof {
                    let o = out@;
                    assert forall|i: int, j: int| 0 <= i < j < o.len() implies #[trigger] o[
                        i
                    ].span.end.minute_of_day() <= #[trigger] o[j].span.start.minute_of_day() by {
                        if j == o.len() - 1 && n > 0 {
                            let l = o[n - 1];
                            assert(!overlap(l.span, t.span));
                            assert(l.span.wf());
                            if i < n - 1 {
                                assert(o[i].span.end.minute_of_day()
                                    <= l.span.start.minute_of_day());
                            }
                        }
                    }
                }
            }
            k = k + 1;
            assert(rest@ =~= input.subrange(k as int, input.len() as int));
        }
        assert(input.subrange(0, k as int) =~= input);
        assert(task_views(input) == task_views(self_view));
        proof {
            let o = out@;
            assert forall|i: int, j: int| 0 <= i < j < o.len() implies !span_before(
                #[trigger] o[j].span,
                #[trigger] o[i].span,
            ) by {
                assert(o[i].span.wf());
                assert(o[j].span.wf());
                assert(o[i].span.end.minute_of_day() <= o[j].span.start.minute_of_day());
            }
            assert(!adjacent_collide(o)) by {
                assert forall|i: int| 0 <= i && i + 1 < o.len() implies !#[trigger] overlap(
                    o[i].span,
                    o[i + 1].span,
                ) by {
                    assert(o[i + 1].span.wf());
                    assert(o[i].span.end.minute_of_day() <= o[i + 1].span.start.minute_of_day());
                }
            }
        }
        proof {
            let o = out@;
            let v = task_views(o);
            assert forall|i: int, j: int| 0 <= i < j < v.len() implies #[trigger] v[i].0.end.minute_of_day()
                <= #[trigger] v[j].0.start.minute_of_day() by {
                assert(v[i].0 == o[i].span && v[j].0 == o[j].span);
                assert(o[i].span.end.minute_of_day() <= o[j].span.start.minute_of_day());
            }
        }
        Day { tasks: out, has_collisions: false }
    }
}

impl<T: Clone> Clone for Day<T> {
    /// The same spans and flag, with every payload cloned.
    fn clone(&self) -> (r: Self)
        ensures
            clones_of(self@, r@),
            r.spec_has_collisions() == self.spec_has_collisions(),
    {
        proof { use_type_invariant(self); }
        let mut tasks: Vec<Task<T>> = Vec::new();
        let mut i: usize = 0;
        while i < self.tasks.len()
            invariant
                i <= self.tasks@.len(),
                tasks@.len() == i,
                forall|k: int|
                    0 <= k < i ==> (#[trigger] tasks@[k]).span == self.tasks@[k].span && cloned(
                        self.tasks@[k].info,
                        tasks@[k].info,
                    ),
            decreases self.tasks@.len() - i,
        {
            tasks.push(copy_task(&self.tasks[i]));
            i = i + 1;
        }
        proof {
            let s = self.tasks@;
            let t = tasks@;
            assert forall|p: int, q: int| 0 <= p < q < t.len() implies !span_before(
                #[trigger] t[q].span,
                #[trigger] t[p].span,
            ) by {
                assert(t[p].span == s[p].span && t[q].span == s[q].span);
            }
            assert forall|p: int| 0 <= p < t.len() implies (#[trigger] t[p]).span.wf() by {
                assert(t[p].span == s[p].span);
            }
            if adjacent_collide(s) {
                let p = choose|p: int| 0 <= p && p + 1 < s.len() && #[trigger] overlap(s[p].span, s[p + 1].span);
                assert(t[p].span == s[p].span && t[p + 1].span == s[p + 1].span);
                assert(overlap(t[p].span, t[p + 1].span));
            }
            if adjacent_collide(t) {
                let p = choose|p: int| 0 <= p && p + 1 < t.len() && #[trigger] overlap(t[p].span, t[p + 1].span);
                assert(t[p].span == s[p].span && t[p + 1].span == s[p + 1].span);
                assert(overlap(s[p].span, s[p + 1].span));
            }
        }
        Day { tasks, has_collisions: self.has_collisions }
    }
}

impl<T: Clone> Combinable for Day<T> {
    open spec fn spec_combined(&self, other: &Day<T>, r: &Day<T>) -> bool {
        &&& clones_of(merge_tasks(self@, other@), r@)
        &&& r.spec_has_collisions() == adjacent_collide(r@)
    }

    /// Merges the two days' tasks in span order, those of `self` first on
    /// equal spans.
    fn combine(&self, other: &Day<T>) -> (r: Day<T>) {
        proof {
            use_type_invariant(self);
            use_type_invariant(other);
        }
        let a = &self.tasks;
        let b = &other.tasks;
        let ghost whole = merge_tasks(a@, b@);
        let mut out: Vec<Task<T>> = Vec::new();
        let ghost mut done: Seq<Task<T>> = Seq::empty();
        let mut i: usize = 0;
        let mut j: usize = 0;
        assert(a@.subrange(0, a@.len() as int) =~= a@);
        assert(b@.subrange(0, b@.len() as int) =~= b@);
        assert(done + merge_tasks(a@.subrange(0, a@.len() as int), b@.subrange(0, b@.len() as int)) =~= whole);
        while i < a.len() || j < b.len()
            invariant
                i <= a@.len(),
                j <= b@.len(),
                sorted_by_span(a@),
                sorted_by_span(b@),
                all_spans_wf(a@),
                all_spans_wf(b@),
                whole == merge_tasks(a@, b@),
                whole == done + merge_tasks(
                    a@.subrange(i as int, a@.len() as int),
                    b@.subrange(j as int, b@.len() as int),
                ),
                clones_of(done, out@),
                sorted_by_span(out@),
                all_spans_wf(out@),
                out@.len() > 0 && i < a@.len() ==> !span_before(a@[i as int].span, out@.last().span),
                out@.len() > 0 && j < b@.len() ==> !span_before(b@[j as int].span, out@.last().span),
            decreases a@.len() + b@.len() - i - j,
        {
            let ghost ra = a@.subrange(i as int, a@.len() as int);
            let ghost rb = b@.subrange(j as int, b@.len() as int);
            let take_b = i == a.len() || (j < b.len() && b[j].span.is_before(&a[i].span));
            let ghost prev = out@;
            if take_b {
                let t = copy_task(&b[j]);
                proof {
                    assert(rb.drop_first() =~= b@.subrange(j + 1, b@.len() as int));
                    assert(merge_tasks(ra, rb) == seq![b@[j as int]] + merge_tasks(ra, rb.drop_first()));
                    assert(done.push(b@[j as int]) + merge_tasks(ra, rb.drop_first()) =~= done + (
                    seq![b@[j as int]] + merge_tasks(ra, rb.drop_first())));
                    done = done.push(b@[j as int]);
                }
                out.push(t);
                j = j + 1;
                proof {
                    if j < b@.len() {
                        assert(!span_before(b@[j as int].span, b@[j - 1].span));
                    }
                }
            } else {
                let t = copy_task(&a[i]);
                proof {
                    assert(ra.drop_first() =~= a@.subrange(i + 1, a@.len() as int));
                    if rb.len() == 0 {
                        assert(merge_tasks(ra, rb) == ra);
                        assert(ra =~= seq![a@[i as int]] + ra.drop_first());
                        assert(merge_tasks(ra.drop_first(), rb) == ra.drop_first());
                    }
                    assert(merge_tasks(ra, rb) == seq![a@[i as int]] + merge_tasks(ra.drop_first(), rb));
                    assert(done.push(a@[i as int]) + merge_tasks(ra.drop_first(), rb) =~= done + (
                    seq![a@[i as int]] + merge_tasks(ra.drop_first(), rb)));
                    done = done.push(a@[i as int]);
                }
                out.push(t);
                i = i + 1;
                proof {
                    if i < a@.len() {
                        assert(!span_before(a@[i as int].span, a@[i - 1].span));
                    }
                }
            }
            proof {
                let o = out@;
                let x = o.last();
                assert forall|p: int, q: int| 0 <= p < q < o.len() implies !span_before(
                    #[trigger] o[q].span,
                    #[trigger] o[p].span,
                ) by {
                    if q == o.len() - 1 && p < o.len() - 1 {
                        assert(o[p] == prev[p]);
                        if p < prev.len() - 1 {
                            assert(!span_before(prev.last().span, prev[p].span));
                        }
                    } else if q < o.len() - 1 {
                        assert(o[p] == prev[p] && o[q] == prev[q]);
                    }
                }
                assert forall|p: int| 0 <= p < o.len() implies (#[trigger] o[p]).span.wf() by {
                    if p < o.len() - 1 {
                        assert(o[p] == prev[p]);
                    }
                }
                assert forall|p: int| 0 <= p < done.len() implies (#[trigger] o[p]).span
                    == done[p].span && cloned(done[p].info, o[p].info) by {
                    if p < done.len() - 1 {
                        assert(o[p] == prev[p]);
                    }
                }
            }
        }
        proof {
            assert(a@.subrange(i as int, a@.len() as int) =~= Seq::<Task<T>>::empty());
            assert(b@.subrange(j as int, b@.len() as int) =~= Seq::<Task<T>>::empty());
            assert(done =~= whole);
        }
        let has_collisions = Self::scan_neighbours(&out);
        Day { tasks: out, has_collisions }
    }
}

impl<T> Collidable for Day<T> {
    /// Either day has overlapping tasks of its own, or a task of one overlaps a
    /// task of the other.
    open spec fn spec_collides(&self, other: &Day<T>) -> bool {
        self.spec_has_collisions() || other.spec_has_collisions() || cross_collide(self@, other@)
    }

    fn collides(&self, other: &Day<T>) -> (r: bool) {
        proof {
            use_type_invariant(self);
            use_type_invariant(other);
        }
        if self.has_collisions || other.has_collisions {
            return true;
        }
        let a = &self.tasks;
        let b = &other.tasks;
        let mut i: usize = 0;
        let mut j: usize = 0;
        while i < a.len() && j < b.len()
            invariant
                a@ == self@,
                b@ == other@,
                !self.spec_has_collisions(),
                !other.spec_has_collisions(),
                i <= a@.len(),
                j <= b@.len(),
                sorted_by_span(a@),
                sorted_by_span(b@),
                all_spans_wf(a@),
                all_spans_wf(b@),
                forall|k: int, l: int|
                    0 <= k < i && 0 <= l < b@.len() ==> !#[trigger] overlap(a@[k].span, b@[l].span),
                forall|k: int, l: int|
                    0 <= k < a@.len() && 0 <= l < j ==> !#[trigger] overlap(a@[k].span, b@[l].span),
            decreases a@.len() + b@.len() - i - j,
        {
            if a[i].span.collides(&b[j].span) {
                assert(overlap(a@[i as int].span, b@[j as int].span));
                assert(cross_collide(self@, other@));
                return true;
            }
            let x = a[i].span;
            let y = b[j].span;
            if x.end.hour < y.start.hour || (x.end.hour == y.start.hour && x.end.minutes
                <= y.start.minutes) {
                assert forall|k: int, l: int|
                    0 <= k < i + 1 && 0 <= l < b@.len() implies !#[trigger] overlap(
                    a@[k].span,
                    b@[l].span,
                ) by {
                    if k == i && l >= j {
                        assert(b@[l].span.wf());
                        if l > j {
                            assert(!span_before(b@[l].span, b@[j as int].span));
                        }
                    }
                }
                i = i + 1;
            } else {
                assert forall|k: int, l: int|
                    0 <= k < a@.len() && 0 <= l < j + 1 implies !#[trigger] overlap(
                    a@[k].span,
                    b@[l].span,
                ) by {
                    if l == j && k >= i {
                        assert(a@[k].span.wf());
                        if k > i {
                            assert(!span_before(a@[k].span, a@[i as int].span));
                        }
                    }
                }
                j = j + 1;
            }
        }
        false
    }
}

} // verus!

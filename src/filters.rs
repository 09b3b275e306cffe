//! Predicates that reject assignments after they are generated.
use vstd::prelude::*;

use crate::code::Code;
use crate::subjects::{Subject, SubjectCommision};

verus! {

/// One end of a range of counts.
#[derive(Debug, Clone, Copy, PartialEq, Eq)]
pub enum Limit {
    Unbounded,
    Included(u32),
    Excluded(u32),
}

/// A range of counts whose ends may each be open, closed or absent.
#[derive(Debug, Clone, Copy, PartialEq, Eq)]
pub struct CountRange {
    pub start: Limit,
    pub end: Limit,
}

impl CountRange {
    pub open spec fn spec_contains(self, n: int) -> bool {
        &&& match self.start {
            Limit::Unbounded => true,
            Limit::Included(lo) => lo <= n,
            Limit::Excluded(lo) => lo < n,
        }
        &&& match self.end {
            Limit::Unbounded => true,
            Limit::Included(hi) => n <= hi,
            Limit::Excluded(hi) => n < hi,
        }
    }

    /// `lo..=hi`.
    pub fn closed(lo: u32, hi: u32) -> (r: CountRange)
        ensures
            r == (CountRange { start: Limit::Included(lo), end: Limit::Included(hi) }),
    {
        CountRange { start: Limit::Included(lo), end: Limit::Included(hi) }
    }

    pub fn contains(&self, n: u128) -> (r: bool)
        ensures
            r == self.spec_contains(n as int),
    {
        let above = match self.start {
            Limit::Unbounded => true,
            Limit::Included(lo) => lo as u128 <= n,
            Limit::Excluded(lo) => (lo as u128) < n,
        };
        let below = match self.end {
            Limit::Unbounded => true,
            Limit::Included(hi) => n <= hi as u128,
            Limit::Excluded(hi) => n < hi as u128,
        };
        above && below
    }
}

/// How many groups got an item.
pub open spec fn count_some(choice: Seq<Option<SubjectCommision>>) -> int
    decreases choice.len(),
{
    if choice.len() == 0 {
        0
    } else {
        count_some(choice.drop_last()) + if choice.last() is Some {
            1int
        } else {
            0int
        }
    }
}

/// The credits of the subjects of the chosen items, added up.
pub open spec fn credit_total(catalog: Seq<Subject>, choice: Seq<Option<SubjectCommision>>) -> int
    decreases choice.len(),
{
    if choice.len() == 0 {
        0
    } else {
        credit_total(catalog, choice.drop_last()) + match choice.last() {
            Some(c) => catalog[c.subject as int].credits as int,
            None => 0int,
        }
    }
}

/// Every chosen item belongs to a subject of the catalog.
pub open spec fn owners_in_catalog(catalog: Seq<Subject>, choice: Seq<Option<SubjectCommision>>) -> bool {
    forall|p: int|
        0 <= p < choice.len() && (#[trigger] choice[p]) is Some ==> choice[p]->Some_0.subject
            < catalog.len()
}

pub trait ChoiceFilter {
    spec fn spec_admits(&self, catalog: Seq<Subject>, choice: Seq<Option<SubjectCommision>>) -> bool;

    fn filter(&self, catalog: &Vec<Subject>, item: &Vec<Option<SubjectCommision>>) -> (r: bool)
        requires
            owners_in_catalog(catalog@, item@),
        ensures
            r == self.spec_admits(catalog@, item@),
    ;
}

/// Admits the assignments whose number of chosen items lies in the range.
pub struct SubjectCount {
    pub valid_range: CountRange,
}

impl SubjectCount {
    pub fn new(valid_range: CountRange) -> (f: Self)
        ensures
            f.valid_range == valid_range,
    {
        SubjectCount { valid_range }
    }
}

impl ChoiceFilter for SubjectCount {
    open spec fn spec_admits(&self, catalog: Seq<Subject>, choice: Seq<Option<SubjectCommision>>) -> bool {
        self.valid_range.spec_contains(count_some(choice))
    }

    fn filter(&self, catalog: &Vec<Subject>, item: &Vec<Option<SubjectCommision>>) -> (r: bool) {
        let mut n: u128 = 0;
        let mut i: usize = 0;
        while i < item.len()
            invariant
                i <= item@.len(),
                n == count_some(item@.subrange(0, i as int)),
                n <= i,
            decreases item@.len() - i,
        {
            assert(item@.subrange(0, i + 1).drop_last() =~= item@.subrange(0, i as int));
            if item[i].is_some() {
                n = n + 1;
            }
            i = i + 1;
        }
        assert(item@.subrange(0, i as int) =~= item@);
        self.valid_range.contains(n)
    }
}

/// Admits the assignments whose chosen subjects' credits add up to a total in
/// the range.
pub struct CreditCount {
    pub valid_range: CountRange,
}

impl CreditCount {
    pub fn new(valid_range: CountRange) -> (f: Self)
        ensures
            f.valid_range == valid_range,
    {
        CreditCount { valid_range }
    }
}

impl ChoiceFilter for CreditCount {
    open spec fn spec_admits(&self, catalog: Seq<Subject>, choice: Seq<Option<SubjectCommision>>) -> bool {
        self.valid_range.spec_contains(credit_total(catalog, choice))
    }

    fn filter(&self, catalog: &Vec<Subject>, item: &Vec<Option<SubjectCommision>>) -> (r: bool) {
        let mut total: u128 = 0;
        let mut i: usize = 0;
        while i < item.len()
            invariant
                i <= item@.len(),
                owners_in_catalog(catalog@, item@),
                total == credit_total(catalog@, item@.subrange(0, i as int)),
                total <= 255 * i,
            decreases item@.len() - i,
        {
            assert(item@.subrange(0, i + 1).drop_last() =~= item@.subrange(0, i as int));
            match &item[i] {
                Some(c) => {
                    assert(item@[i as int] is Some);
                    total = total + catalog[c.subject].credits as u128;
                },
                None => {},
            }
            i = i + 1;
        }
        assert(item@.subrange(0, i as int) =~= item@);
        self.valid_range.contains(total)
    }
}

/// Some chosen item belongs to the subject with code `code`.
pub open spec fn chooses_code(
    catalog: Seq<Subject>,
    choice: Seq<Option<SubjectCommision>>,
    code: Code,
) -> bool {
    exists|p: int|
        0 <= p < choice.len() && (#[trigger] choice[p]) is Some && catalog[choice[p]->Some_0.subject as int].code
            == code
}

/// Admits the assignments that choose an item of every listed subject.
pub struct MandatoryPresence {
    pub codes: Vec<Code>,
}

impl MandatoryPresence {
    pub fn new(codes: Vec<Code>) -> (f: Self)
        ensures
            f.codes == codes,
    {
        MandatoryPresence { codes }
    }
}

fn chooses(catalog: &Vec<Subject>, item: &Vec<Option<SubjectCommision>>, code: &Code) -> (r: bool)
    requires
        owners_in_catalog(catalog@, item@),
    ensures
        r == chooses_code(catalog@, item@, *code),
{
    let mut p: usize = 0;
    while p < item.len()
        invariant
            p <= item@.len(),
            owners_in_catalog(catalog@, item@),
            forall|q: int|
                0 <= q < p && (#[trigger] item@[q]) is Some ==> catalog@[item@[q]->Some_0.subject as int].code
                    != *code,
        decreases item@.len() - p,
    {
        match &item[p] {
            Some(c) => {
                assert(item@[p as int] is Some);
                if catalog[c.subject].code.same(code) {
                    return true;
                }
            },
            None => {},
        }
        p = p + 1;
    }
    false
}

impl ChoiceFilter for MandatoryPresence {
    open spec fn spec_admits(&self, catalog: Seq<Subject>, choice: Seq<Option<SubjectCommision>>) -> bool {
        forall|k: int| 0 <= k < self.codes@.len() ==> chooses_code(catalog, choice, #[trigger] self.codes@[k])
    }

    fn filter(&self, catalog: &Vec<Subject>, item: &Vec<Option<SubjectCommision>>) -> (r: bool) {
        let mut k: usize = 0;
        while k < self.codes.len()
            invariant
                k <= self.codes@.len(),
                owners_in_catalog(catalog@, item@),
                forall|q: int| 0 <= q < k ==> chooses_code(catalog@, item@, #[trigger] self.codes@[q]),
            decreases self.codes@.len() - k,
        {
            if !chooses(catalog, item, &self.codes[k]) {
                return false;
            }
            k = k + 1;
        }
        true
    }
}

/// The assignments that `filter` admits, in their order.
pub fn filter_choices<F: ChoiceFilter>(
    choices: Vec<Vec<Option<SubjectCommision>>>,
    catalog: &Vec<Subject>,
    filter: &F,
) -> (r: Vec<Vec<Option<SubjectCommision>>>)
    requires
        forall|i: int| 0 <= i < choices@.len() ==> owners_in_catalog(catalog@, (#[trigger] choices@[i])@),
    ensures
        r@ == choices@.filter(|c: Vec<Option<SubjectCommision>>| filter.spec_admits(catalog@, c@)),
{
    let ghost orig = choices@;
    let ghost pred = |c: Vec<Option<SubjectCommision>>| filter.spec_admits(catalog@, c@);
    let n = choices.len();
    let mut rest = choices;
    let mut stack: Vec<Vec<Option<SubjectCommision>>> = Vec::new();
    while rest.len() > 0
        invariant
            n == orig.len(),
            stack@.len() <= n,
            rest@ == orig.subrange(0, n - stack@.len()),
            forall|i: int| 0 <= i < stack@.len() ==> #[trigger] stack@[i] == orig[n - 1 - i],
        decreases rest@.len(),
    {
        let x = rest.pop().unwrap();
        stack.push(x);
        assert(rest@ =~= orig.subrange(0, n - stack@.len()));
    }
    let mut out: Vec<Vec<Option<SubjectCommision>>> = Vec::new();
    let mut k: usize = 0;
    assert(orig.subrange(0, 0).filter(pred) =~= Seq::<Vec<Option<SubjectCommision>>>::empty()) by {
        reveal(Seq::filter);
    }
    while stack.len() > 0
        invariant
            n == orig.len(),
            k <= n,
            stack@.len() == n - k,
            forall|i: int| 0 <= i < stack@.len() ==> #[trigger] stack@[i] == orig[n - 1 - i],
            forall|i: int| 0 <= i < orig.len() ==> owners_in_catalog(catalog@, (#[trigger] orig[i])@),
            pred == (|c: Vec<Option<SubjectCommision>>| filter.spec_admits(catalog@, c@)),
            out@ == orig.subrange(0, k as int).filter(pred),
        decreases stack@.len(),
    {
        let x = stack.pop().unwrap();
        assert(x == orig[k as int]);
        let keep = filter.filter(catalog, &x);
        proof {
            reveal(Seq::filter);
            assert(orig.subrange(0, k + 1).drop_last() =~= orig.subrange(0, k as int));
            assert(orig.subrange(0, k + 1).last() == x);
        }
        if keep {
            out.push(x);
        }
        k = k + 1;
    }
    assert(orig.subrange(0, k as int) =~= orig);
    out
}

/// A subject count of `k..=k` admits exactly the assignments with `k` chosen
/// items.
pub proof fn lemma_subject_count_exact(
    k: u32,
    catalog: Seq<Subject>,
    choice: Seq<Option<SubjectCommision>>,
)
    ensures
        (SubjectCount {
            valid_range: CountRange { start: Limit::Included(k), end: Limit::Included(k) },
        }).spec_admits(catalog, choice) <==> count_some(choice) == k,
{
}

/// Only the chosen items count towards the credit total.
proof fn lemma_credit_total_somes(catalog: Seq<Subject>, choice: Seq<Option<SubjectCommision>>)
    ensures
        credit_total(catalog, choice) == credit_total(
            catalog,
            choice.filter(|o: Option<SubjectCommision>| o is Some),
        ),
    decreases choice.len(),
{
    reveal(Seq::filter);
    if choice.len() > 0 {
        lemma_credit_total_somes(catalog, choice.drop_last());
        let f = choice.drop_last().filter(|o: Option<SubjectCommision>| o is Some);
        if choice.last() is Some {
            assert(f.push(choice.last()).drop_last() =~= f);
        }
    }
}

/// A credit filter decides the same with or without the groups that got no
/// item.
pub proof fn lemma_credit_count_ignores_none(
    f: CreditCount,
    catalog: Seq<Subject>,
    choice: Seq<Option<SubjectCommision>>,
)
    ensures
        f.spec_admits(catalog, choice) == f.spec_admits(
            catalog,
            choice.filter(|o: Option<SubjectCommision>| o is Some),
        ),
{
    lemma_credit_total_somes(catalog, choice);
}

/// Filtering by `f` then `g` keeps the same assignments, in the same order, as
/// filtering by `g` then `f`.
pub proof fn lemma_filters_commute<F: ChoiceFilter, G: ChoiceFilter>(
    f: F,
    g: G,
    catalog: Seq<Subject>,
    choices: Seq<Vec<Option<SubjectCommision>>>,
)
    ensures
        choices.filter(|c: Vec<Option<SubjectCommision>>| f.spec_admits(catalog, c@)).filter(
            |c: Vec<Option<SubjectCommision>>| g.spec_admits(catalog, c@),
        ) == choices.filter(|c: Vec<Option<SubjectCommision>>| g.spec_admits(catalog, c@)).filter(
            |c: Vec<Option<SubjectCommision>>| f.spec_admits(catalog, c@),
        ),
    decreases choices.len(),
{
    let pf = |c: Vec<Option<SubjectCommision>>| f.spec_admits(catalog, c@);
    let pg = |c: Vec<Option<SubjectCommision>>| g.spec_admits(catalog, c@);
    reveal(Seq::filter);
    if choices.len() > 0 {
        let rest = choices.drop_last();
        let x = choices.last();
        lemma_filters_commute(f, g, catalog, rest);
        let a = rest.filter(pf);
        let b = rest.filter(pg);
        if pf(x) {
            assert(a.push(x).drop_last() =~= a);
        }
        if pg(x) {
            assert(b.push(x).drop_last() =~= b);
        }
        if pf(x) && pg(x) {
            assert(a.filter(pg).push(x).drop_last() =~= a.filter(pg));
            assert(b.filter(pf).push(x).drop_last() =~= b.filter(pf));
        }
    }
}

} // verus!

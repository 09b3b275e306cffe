//! Filters applied lazily to the stream of assignments.
use vstd::prelude::*;

use crate::filters::{owners_in_catalog, ChoiceFilter};
use crate::option_generator::picks;
use crate::option_stream::OptionStream;
use crate::subjects::{Subject, SubjectCommision};

verus! {

/// Admits what both filters admit; the first is asked first.
pub struct Both<F, G> {
    pub first: F,
    pub second: G,
}

impl<F: ChoiceFilter, G: ChoiceFilter> ChoiceFilter for Both<F, G> {
    open spec fn spec_admits(&self, catalog: Seq<Subject>, choice: Seq<Option<SubjectCommision>>) -> bool {
        self.first.spec_admits(catalog, choice) && self.second.spec_admits(catalog, choice)
    }

    fn filter(&self, catalog: &Vec<Subject>, item: &Vec<Option<SubjectCommision>>) -> (r: bool) {
        self.first.filter(catalog, item) && self.second.filter(catalog, item)
    }
}

/// Every chosen item names a subject of the catalog.
pub fn owners_known(catalog: &Vec<Subject>, item: &Vec<Option<SubjectCommision>>) -> (r: bool)
    ensures
        r == owners_in_catalog(catalog@, item@),
{
    let mut p: usize = 0;
    while p < item.len()
        invariant
            p <= item@.len(),
            forall|q: int|
                0 <= q < p && (#[trigger] item@[q]) is Some ==> item@[q]->Some_0.subject
                    < catalog@.len(),
        decreases item@.len() - p,
    {
        match &item[p] {
            Some(c) => {
                assert(item@[p as int] is Some);
                if c.subject >= catalog.len() {
                    return false;
                }
            },
            None => {},
        }
        p = p + 1;
    }
    true
}

/// The assignment planned by `plan` was handed out as some `y` (its items
/// cloned) that the filter refused, or whose items name a subject outside the
/// catalog.
pub open spec fn rejected_plan<K, F: ChoiceFilter>(
    groups: Seq<(K, Seq<SubjectCommision>, bool)>,
    plan: Seq<Option<usize>>,
    filter: F,
    catalog: Seq<Subject>,
) -> bool {
    exists|y: Vec<Option<SubjectCommision>>|
        #[trigger] picks(groups, plan, y@) && !(owners_in_catalog(catalog, y@)
            && filter.spec_admits(catalog, y@))
}

/// The next assignment of `options`, among those still to come, whose items
/// all belong to subjects of the catalog and which `filter` admits; the ones
/// before it are passed over. `None` once the stream is spent.
pub fn next_admitted<K: PartialEq, F: ChoiceFilter>(
    options: &mut OptionStream<K, SubjectCommision>,
    filter: &F,
    catalog: &Vec<Subject>,
) -> (r: Option<Vec<Option<SubjectCommision>>>)
    requires
        old(options).wf(),
    ensures
        final(options).wf(),
        final(options).spec_groups() == old(options).spec_groups(),
        match r {
            Some(x) => owners_in_catalog(catalog@, x@) && filter.spec_admits(catalog@, x@)
                && exists|k: int|
                0 <= k < old(options).remaining().len() && picks(
                    old(options).spec_groups(),
                    old(options).remaining()[k],
                    x@,
                ) && final(options).remaining() == old(options).remaining().subrange(
                    k + 1,
                    old(options).remaining().len() as int,
                ) && forall|j: int|
                    0 <= j < k ==> rejected_plan(
                        old(options).spec_groups(),
                        #[trigger] old(options).remaining()[j],
                        *filter,
                        catalog@,
                    ),
            None => final(options).remaining().len() == 0 && forall|j: int|
                0 <= j < old(options).remaining().len() ==> rejected_plan(
                    old(options).spec_groups(),
                    #[trigger] old(options).remaining()[j],
                    *filter,
                    catalog@,
                ),
        },
{
    let ghost start = options.remaining();
    let ghost groups = options.spec_groups();
    let ghost mut skipped: int = 0;
    assert(start.subrange(0, start.len() as int) =~= start);
    loop
        invariant
            options.wf(),
            options.spec_groups() == groups,
            groups == old(options).spec_groups(),
            start == old(options).remaining(),
            0 <= skipped <= start.len(),
            options.remaining() == start.subrange(skipped, start.len() as int),
            forall|j: int|
                0 <= j < skipped ==> rejected_plan(groups, #[trigger] start[j], *filter, catalog@),
        decreases options.remaining().len(),
    {
        let ghost before = options.remaining();
        match options.next() {
            None => {
                assert(skipped == start.len());
                return None;
            },
            Some(x) => {
                proof {
                    assert(before[0] == start[skipped]);
                    assert(options.remaining() =~= start.subrange(skipped + 1, start.len() as int));
                }
                let keep = owners_known(catalog, &x) && filter.filter(catalog, &x);
                if keep {
                    return Some(x);
                }
                proof {
                    assert(picks(groups, start[skipped], x@));
                    assert(rejected_plan(groups, start[skipped], *filter, catalog@));
                    skipped = skipped + 1;
                }
            },
        }
    }
}

} // verus!

//! The enumeration as a stream: each call hands out the next assignment,
//! holding only the current path through the groups.
use vstd::prelude::*;

use crate::collidable::Collidable;
use crate::option_generator::{
    admissible, consistent_prefix, copy_choice, enum_from, enumeration, groups_fit,
    lemma_enum_from_sound, picks, table_ok, valid_assignment, OptionGenerator,
};
use vstd::std_specs::cmp::PartialEqSpec;

verus! {

/// What is left of group `e`'s branches once `p[e]` has been explored.
pub open spec fn own<K: PartialEq, T: PartialEq + Collidable>(
    gs: Seq<(K, Seq<T>, bool)>,
    exc: Seq<((K, T), (K, T))>,
    p: Seq<Option<usize>>,
    e: int,
) -> Seq<Seq<Option<usize>>> {
    match p[e] {
        Some(j) => enum_from(gs, exc, p.subrange(0, e), e, j + 1),
        None => Seq::empty(),
    }
}

/// What is left of groups `hi - 1` down to `lo`, deepest first.
pub open spec fn rest_range<K: PartialEq, T: PartialEq + Collidable>(
    gs: Seq<(K, Seq<T>, bool)>,
    exc: Seq<((K, T), (K, T))>,
    p: Seq<Option<usize>>,
    lo: int,
    hi: int,
) -> Seq<Seq<Option<usize>>>
    decreases hi - lo,
{
    if hi <= lo {
        Seq::empty()
    } else {
        own(gs, exc, p, hi - 1) + rest_range(gs, exc, p, lo, hi - 1)
    }
}

proof fn lemma_rest_split<K: PartialEq, T: PartialEq + Collidable>(
    gs: Seq<(K, Seq<T>, bool)>,
    exc: Seq<((K, T), (K, T))>,
    p: Seq<Option<usize>>,
    lo: int,
    hi: int,
)
    requires
        lo < hi,
    ensures
        rest_range(gs, exc, p, lo, hi) == rest_range(gs, exc, p, lo + 1, hi) + own(gs, exc, p, lo),
    decreases hi - lo,
{
    if hi == lo + 1 {
        assert(rest_range(gs, exc, p, lo, lo) =~= Seq::<Seq<Option<usize>>>::empty());
        assert(rest_range(gs, exc, p, lo + 1, hi) =~= Seq::<Seq<Option<usize>>>::empty());
        assert(rest_range(gs, exc, p, lo, hi) =~= own(gs, exc, p, lo));
    } else {
        lemma_rest_split(gs, exc, p, lo, hi - 1);
        assert(rest_range(gs, exc, p, lo, hi) =~= rest_range(gs, exc, p, lo + 1, hi) + own(
            gs,
            exc,
            p,
            lo,
        ));
    }
}

proof fn lemma_rest_prefix<K: PartialEq, T: PartialEq + Collidable>(
    gs: Seq<(K, Seq<T>, bool)>,
    exc: Seq<((K, T), (K, T))>,
    p: Seq<Option<usize>>,
    q: Seq<Option<usize>>,
    lo: int,
    hi: int,
)
    requires
        0 <= lo,
        0 <= hi <= p.len(),
        hi <= q.len(),
        p.subrange(0, hi) == q.subrange(0, hi),
    ensures
        rest_range(gs, exc, p, lo, hi) == rest_range(gs, exc, q, lo, hi),
    decreases hi - lo,
{
    if hi > lo {
        assert(p[hi - 1] == p.subrange(0, hi)[hi - 1]);
        assert(q[hi - 1] == q.subrange(0, hi)[hi - 1]);
        assert(p.subrange(0, hi - 1) =~= p.subrange(0, hi).subrange(0, hi - 1));
        assert(q.subrange(0, hi - 1) =~= q.subrange(0, hi).subrange(0, hi - 1));
        lemma_rest_prefix(gs, exc, p, q, lo, hi - 1);
    }
}

proof fn lemma_rest_concat<K: PartialEq, T: PartialEq + Collidable>(
    gs: Seq<(K, Seq<T>, bool)>,
    exc: Seq<((K, T), (K, T))>,
    p: Seq<Option<usize>>,
    lo: int,
    mid: int,
    hi: int,
)
    requires
        lo <= mid <= hi,
    ensures
        rest_range(gs, exc, p, lo, hi) == rest_range(gs, exc, p, mid, hi) + rest_range(
            gs,
            exc,
            p,
            lo,
            mid,
        ),
    decreases hi - mid,
{
    if hi == mid {
        assert(rest_range(gs, exc, p, mid, hi) =~= Seq::<Seq<Option<usize>>>::empty());
        assert(rest_range(gs, exc, p, lo, hi) =~= rest_range(gs, exc, p, mid, hi) + rest_range(
            gs,
            exc,
            p,
            lo,
            mid,
        ));
    } else {
        lemma_rest_concat(gs, exc, p, lo, mid, hi - 1);
        assert(rest_range(gs, exc, p, lo, hi) =~= rest_range(gs, exc, p, mid, hi) + rest_range(
            gs,
            exc,
            p,
            lo,
            mid,
        ));
    }
}

/// The first assignment that extends `c` from branch `k` of group `d` on is
/// followed by what the groups it passes through have left.
proof fn lemma_first_leaf<K: PartialEq, T: PartialEq + Collidable>(
    gs: Seq<(K, Seq<T>, bool)>,
    exc: Seq<((K, T), (K, T))>,
    c: Seq<Option<usize>>,
    d: int,
    k: int,
)
    requires
        groups_fit(gs),
        0 <= d <= gs.len(),
        0 <= k,
        c.len() == d,
        enum_from(gs, exc, c, d, k).len() > 0,
    ensures
        enum_from(gs, exc, c, d, k)[0].len() == gs.len(),
        enum_from(gs, exc, c, d, k)[0].subrange(0, d) == c,
        enum_from(gs, exc, c, d, k) == seq![enum_from(gs, exc, c, d, k)[0]] + rest_range(
            gs,
            exc,
            enum_from(gs, exc, c, d, k)[0],
            d,
            gs.len() as int,
        ),
    decreases gs.len() - d, gs[d].1.len() + 1 - k,
{
    let e = enum_from(gs, exc, c, d, k);
    if d >= gs.len() {
        assert(e == seq![c]);
        assert(c.subrange(0, d) =~= c);
        assert(rest_range(gs, exc, c, d, gs.len() as int) =~= Seq::<Seq<Option<usize>>>::empty());
        assert(e =~= seq![c] + rest_range(gs, exc, c, d, gs.len() as int));
    } else if k < gs[d].1.len() {
        assert(gs[d].1.len() <= usize::MAX);
        assert((k as usize) as int == k);
        let c2 = c.push(Some(k as usize));
        let here = if admissible(gs, exc, c, d, k) {
            enum_from(gs, exc, c2, d + 1, 0)
        } else {
            Seq::empty()
        };
        let next = enum_from(gs, exc, c, d, k + 1);
        assert(e == here + next);
        if here.len() > 0 {
            lemma_first_leaf(gs, exc, c2, d + 1, 0);
            let l = here[0];
            assert(e[0] == l);
            assert(l.subrange(0, d) =~= l.subrange(0, d + 1).subrange(0, d));
            assert(l.subrange(0, d + 1) == c2);
            assert(l[d] == c2[d]);
            assert(l.subrange(0, d) =~= c);
            lemma_rest_split(gs, exc, l, d, gs.len() as int);
            assert(own(gs, exc, l, d) == next);
            assert(e =~= seq![l] + rest_range(gs, exc, l, d, gs.len() as int));
        } else {
            assert(e =~= next);
            lemma_first_leaf(gs, exc, c, d, k + 1);
        }
    } else if gs[d].2 {
        assert(e.len() == 0);
    } else {
        let c2 = c.push(None);
        assert(e == enum_from(gs, exc, c2, d + 1, 0));
        lemma_first_leaf(gs, exc, c2, d + 1, 0);
        let l = e[0];
        assert(l.subrange(0, d) =~= l.subrange(0, d + 1).subrange(0, d));
        assert(l[d] == c2[d]);
        assert(l.subrange(0, d) =~= c);
        lemma_rest_split(gs, exc, l, d, gs.len() as int);
        assert(own(gs, exc, l, d) =~= Seq::<Seq<Option<usize>>>::empty());
        assert(rest_range(gs, exc, l, d, gs.len() as int) =~= rest_range(
            gs,
            exc,
            l,
            d + 1,
            gs.len() as int,
        ));
    }
}

/// Hands out, one per call, the assignments of a generator in the order of
/// its enumeration.
pub struct OptionStream<K, T> {
    generator: OptionGenerator<K, T>,
    table: Vec<Vec<Vec<Vec<bool>>>>,
    n: usize,
    path: Vec<Option<usize>>,
    pending: bool,
    finished: bool,
}

impl<K: PartialEq, T: PartialEq + Collidable + Clone> OptionStream<K, T> {
    pub closed spec fn spec_groups(&self) -> Seq<(K, Seq<T>, bool)> {
        self.generator.spec_groups()
    }

    pub closed spec fn spec_exceptions(&self) -> Seq<((K, T), (K, T))> {
        self.generator.spec_exceptions()
    }

    /// The assignments still to come.
    pub closed spec fn remaining(&self) -> Seq<Seq<Option<usize>>> {
        if self.finished {
            Seq::empty()
        } else if self.pending {
            seq![self.path@] + rest_range(
                self.spec_groups(),
                self.spec_exceptions(),
                self.path@,
                0,
                self.n as int,
            )
        } else {
            rest_range(self.spec_groups(), self.spec_exceptions(), self.path@, 0, self.n as int)
        }
    }

    pub closed spec fn wf(&self) -> bool {
        let gs = self.spec_groups();
        &&& self.n == gs.len()
        &&& groups_fit(gs)
        &&& table_ok(gs, self.spec_exceptions(), self.table@)
        &&& !self.finished ==> self.path@.len() == self.n && valid_assignment(
            gs,
            self.spec_exceptions(),
            self.path@,
        )
    }

    /// Walks from branch `k` of group `chosen.len()` to the first assignment
    /// below it, if there is one.
    fn find_leaf(&self, chosen: &mut Vec<Option<usize>>, k: usize) -> (r: bool)
        requires
            self.n == self.spec_groups().len(),
            groups_fit(self.spec_groups()),
            table_ok(self.spec_groups(), self.spec_exceptions(), self.table@),
            old(chosen)@.len() <= self.n,
            consistent_prefix(self.spec_groups(), self.spec_exceptions(), old(chosen)@),
        ensures
            r ==> enum_from(
                self.spec_groups(),
                self.spec_exceptions(),
                old(chosen)@,
                old(chosen)@.len() as int,
                k as int,
            ).len() > 0 && final(chosen)@ == enum_from(
                self.spec_groups(),
                self.spec_exceptions(),
                old(chosen)@,
                old(chosen)@.len() as int,
                k as int,
            )[0],
            !r ==> enum_from(
                self.spec_groups(),
                self.spec_exceptions(),
                old(chosen)@,
                old(chosen)@.len() as int,
                k as int,
            ).len() == 0 && final(chosen)@ == old(chosen)@,
        decreases self.n - old(chosen)@.len(),
    {
        let ghost gs = self.spec_groups();
        let ghost exc = self.spec_exceptions();
        let ghost c0 = chosen@;
        let d = chosen.len();
        if d == self.n {
            return true;
        }
        let (_, group, mandatory) = self.generator.group_at(d);
        let m = group.len();
        let mut j: usize = k;
        if j > m {
            j = m;
        }
        proof {
            assert(enum_from(gs, exc, c0, d as int, k as int) == enum_from(
                gs,
                exc,
                c0,
                d as int,
                j as int,
            )) by {
                if k > m {
                    assert(enum_from(gs, exc, c0, d as int, k as int) =~= enum_from(
                        gs,
                        exc,
                        c0,
                        d as int,
                        m as int,
                    ));
                }
            }
        }
        while j < m
            invariant
                gs == self.spec_groups(),
                exc == self.spec_exceptions(),
                self.n == gs.len(),
                groups_fit(gs),
                table_ok(gs, exc, self.table@),
                d < self.n,
                c0.len() == d,
                c0 == old(chosen)@,
                chosen@ == c0,
                consistent_prefix(gs, exc, c0),
                m == gs[d as int].1.len(),
                j <= m,
                enum_from(gs, exc, c0, d as int, k as int) == enum_from(
                    gs,
                    exc,
                    c0,
                    d as int,
                    j as int,
                ),
            decreases m - j,
        {
            let ghost c2 = c0.push(Some(j));
            let ghost next = enum_from(gs, exc, c0, d as int, j + 1);
            if self.generator.admits(&self.table, chosen, d, j) {
                chosen.push(Some(j));
                proof {
                    assert(chosen@ == c2);
                    assert(consistent_prefix(gs, exc, c2)) by {
                        assert forall|p: int, q: int|
                            0 <= p < q < c2.len() && (#[trigger] c2[p]) is Some && (
                            #[trigger] c2[q]) is Some implies !crate::option_generator::blocked(
                            gs,
                            exc,
                            p,
                            c2[p]->Some_0 as int,
                            q,
                            c2[q]->Some_0 as int,
                        ) by {
                            assert(c2[p] == c0[p]);
                            if q < d {
                                assert(c2[q] == c0[q]);
                            } else {
                                assert(c0[p] is Some);
                            }
                        }
                        assert forall|p: int| 0 <= p < c2.len() && gs[p].2 implies (
                        #[trigger] c2[p]) is Some by {
                            if p < d {
                                assert(c2[p] == c0[p]);
                            }
                        }
                        assert forall|p: int|
                            0 <= p < c2.len() && (#[trigger] c2[p]) is Some implies c2[p]->Some_0
                                < gs[p].1.len() by {
                            if p < d {
                                assert(c2[p] == c0[p]);
                            }
                        }
                    }
                }
                let found = self.find_leaf(chosen, 0);
                proof {
                    let here = enum_from(gs, exc, c2, d + 1, 0);
                    assert(enum_from(gs, exc, c0, d as int, j as int) == here + next);
                    if found {
                        assert((here + next)[0] == here[0]);
                    }
                }
                if found {
                    return true;
                }
                chosen.pop();
                proof {
                    assert(chosen@ =~= c0);
                    assert(enum_from(gs, exc, c0, d as int, j as int) =~= next);
                }
            } else {
                assert(enum_from(gs, exc, c0, d as int, j as int) =~= next);
            }
            j = j + 1;
        }
        if !mandatory {
            chosen.push(None);
            let ghost c2 = c0.push(None);
            proof {
                assert(chosen@ == c2);
                assert(consistent_prefix(gs, exc, c2)) by {
                    assert forall|p: int, q: int|
                        0 <= p < q < c2.len() && (#[trigger] c2[p]) is Some && (#[trigger] c2[q]) is Some
                        implies !crate::option_generator::blocked(
                        gs,
                        exc,
                        p,
                        c2[p]->Some_0 as int,
                        q,
                        c2[q]->Some_0 as int,
                    ) by {
                        assert(c2[p] == c0[p]);
                        assert(c2[q] == c0[q]);
                    }
                    assert forall|p: int| 0 <= p < c2.len() && gs[p].2 implies (#[trigger] c2[p]) is Some by {
                        if p < d {
                            assert(c2[p] == c0[p]);
                        }
                    }
                    assert forall|p: int|
                        0 <= p < c2.len() && (#[trigger] c2[p]) is Some implies c2[p]->Some_0
                            < gs[p].1.len() by {
                        assert(c2[p] == c0[p]);
                    }
                }
                assert(enum_from(gs, exc, c0, d as int, m as int) == enum_from(gs, exc, c2, d + 1, 0));
            }
            let found = self.find_leaf(chosen, 0);
            if found {
                return true;
            }
            chosen.pop();
            assert(chosen@ =~= c0);
            false
        } else {
            assert(enum_from(gs, exc, c0, d as int, m as int).len() == 0);
            false
        }
    }
}

impl<K: PartialEq, T: PartialEq + Collidable + Clone> OptionStream<K, T> {
    /// A stream over the assignments of `generator`, in the order of its
    /// enumeration.
    pub fn new(generator: OptionGenerator<K, T>) -> (s: Self)
        requires
            K::obeys_eq_spec(),
            T::obeys_eq_spec(),
            generator.spec_mandatory().len() + generator.spec_optional().len() <= usize::MAX,
        ensures
            s.wf(),
            s.spec_groups() == generator.spec_groups(),
            s.spec_exceptions() == generator.spec_exceptions(),
            s.remaining() == enumeration(generator.spec_groups(), generator.spec_exceptions()),
    {
        let n = generator.group_count();
        generator.confirm_groups_fit(n);
        let table = generator.conflict_table(n);
        let mut s = OptionStream {
            generator,
            table,
            n,
            path: Vec::new(),
            pending: true,
            finished: false,
        };
        let ghost gs = s.spec_groups();
        let ghost exc = s.spec_exceptions();
        let mut path: Vec<Option<usize>> = Vec::new();
        assert(consistent_prefix(gs, exc, path@));
        let found = s.find_leaf(&mut path, 0);
        if found {
            proof {
                lemma_first_leaf(gs, exc, Seq::empty(), 0, 0);
                lemma_enum_from_sound(gs, exc, Seq::empty(), 0, 0);
                assert(valid_assignment(gs, exc, enum_from(gs, exc, Seq::empty(), 0, 0)[0]));
            }
            s.path = path;
        } else {
            s.finished = true;
        }
        s
    }

    /// The next assignment, each entry a clone of the chosen item or `None`;
    /// `None` once every assignment has been handed out.
    pub fn next(&mut self) -> (r: Option<Vec<Option<T>>>)
        requires
            old(self).wf(),
        ensures
            final(self).wf(),
            final(self).spec_groups() == old(self).spec_groups(),
            final(self).spec_exceptions() == old(self).spec_exceptions(),
            match r {
                Some(x) => old(self).remaining().len() > 0 && picks(
                    old(self).spec_groups(),
                    old(self).remaining()[0],
                    x@,
                ) && final(self).remaining() == old(self).remaining().drop_first(),
                None => old(self).remaining().len() == 0 && final(self).remaining().len() == 0,
            },
    {
        let ghost gs = self.spec_groups();
        let ghost exc = self.spec_exceptions();
        let ghost before = self.remaining();
        if self.finished {
            return None;
        }
        if self.pending {
            self.pending = false;
            let out = self.generator.materialize(&self.path);
            assert(before[0] == self.path@);
            assert(self.remaining() =~= before.drop_first());
            return Some(out);
        }
        let n = self.n;
        let mut chosen = copy_choice(&self.path);
        let ghost leaf = self.path@;
        proof {
            assert(chosen@.subrange(0, n as int) =~= chosen@);
        }
        while chosen.len() > 0
            invariant
                gs == self.spec_groups(),
                exc == self.spec_exceptions(),
                gs == old(self).spec_groups(),
                exc == old(self).spec_exceptions(),
                before == old(self).remaining(),
                self.wf(),
                self.n == n,
                !self.finished,
                !self.pending,
                self.path@ == leaf,
                before == rest_range(gs, exc, leaf, 0, n as int),
                chosen@.len() <= n,
                consistent_prefix(gs, exc, chosen@),
                before == rest_range(gs, exc, chosen@, 0, chosen@.len() as int),
            decreases chosen@.len(),
        {
            let ghost c1 = chosen@;
            let last = chosen.pop().unwrap();
            let d = chosen.len();
            proof {
                assert(chosen@ =~= c1.subrange(0, d as int));
                assert(c1[d as int] == last);
                assert(c1.subrange(0, d as int) =~= chosen@.subrange(0, d as int));
                lemma_rest_prefix(gs, exc, c1, chosen@, 0, d as int);
                assert(before == own(gs, exc, c1, d as int) + rest_range(gs, exc, chosen@, 0, d as int));
                assert(consistent_prefix(gs, exc, chosen@)) by {
                    assert forall|p: int, q: int|
                        0 <= p < q < chosen@.len() && (#[trigger] chosen@[p]) is Some && (
                        #[trigger] chosen@[q]) is Some implies !crate::option_generator::blocked(
                        gs,
                        exc,
                        p,
                        chosen@[p]->Some_0 as int,
                        q,
                        chosen@[q]->Some_0 as int,
                    ) by {
                        assert(chosen@[p] == c1[p] && chosen@[q] == c1[q]);
                    }
                    assert forall|p: int| 0 <= p < chosen@.len() && gs[p].2 implies (
                    #[trigger] chosen@[p]) is Some by {
                        assert(chosen@[p] == c1[p]);
                    }
                    assert forall|p: int|
                        0 <= p < chosen@.len() && (#[trigger] chosen@[p]) is Some implies chosen@[p]->Some_0
                            < gs[p].1.len() by {
                        assert(chosen@[p] == c1[p]);
                    }
                }
            }
            match last {
                Some(j) => {
                    assert(c1[d as int] is Some);
                    assert(j < gs[d as int].1.len());
                    let ghost c0 = chosen@;
                    if self.find_leaf(&mut chosen, j + 1) {
                        proof {
                            let e = enum_from(gs, exc, c0, d as int, j + 1);
                            assert(own(gs, exc, c1, d as int) == e);
                            lemma_first_leaf(gs, exc, c0, d as int, j + 1);
                            lemma_enum_from_sound(gs, exc, c0, d as int, j + 1);
                            assert(valid_assignment(gs, exc, e[0]));
                            let l = chosen@;
                            lemma_rest_concat(gs, exc, l, 0, d as int, n as int);
                            assert(l.subrange(0, d as int) == c0);
                            assert(c0.subrange(0, d as int) =~= c0);
                            lemma_rest_prefix(gs, exc, l, c0, 0, d as int);
                            assert(before =~= seq![l] + rest_range(gs, exc, l, 0, n as int));
                        }
                        let out = self.generator.materialize(&chosen);
                        self.path = chosen;
                        proof {
                            assert(self.remaining() == before.drop_first());
                        }
                        return Some(out);
                    }
                    proof {
                        assert(own(gs, exc, c1, d as int).len() == 0);
                        assert(before =~= rest_range(gs, exc, chosen@, 0, d as int));
                    }
                },
                None => {
                    proof {
                        assert(own(gs, exc, c1, d as int) =~= Seq::<Seq<Option<usize>>>::empty());
                        assert(before =~= rest_range(gs, exc, chosen@, 0, d as int));
                    }
                },
            }
        }
        self.finished = true;
        None
    }
}

} // verus!

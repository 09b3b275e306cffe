//! Enumeration of every assignment of items to groups in which no two chosen
//! items collide.
use vstd::prelude::*;

use crate::collidable::Collidable;
use vstd::std_specs::cmp::PartialEqSpec;

verus! {

/// Items to choose from, and whether a choice is owed.
#[derive(Debug)]
pub struct Group<T> {
    pub items: Vec<T>,
    pub mandatory: bool,
}

impl<T> Group<T> {
    pub fn mandatory(items: Vec<T>) -> (g: Self)
        ensures
            g.items == items,
            g.mandatory,
    {
        Group { items, mandatory: true }
    }

    pub fn optional(items: Vec<T>) -> (g: Self)
        ensures
            g.items == items,
            !g.mandatory,
    {
        Group { items, mandatory: false }
    }
}

/// A group as the enumeration sees it: its key, its items, and whether it is
/// mandatory.
pub open spec fn flag_groups<K, T>(gs: Seq<(K, Vec<T>)>, mandatory: bool) -> Seq<
    (K, Seq<T>, bool),
> {
    Seq::new(gs.len(), |i: int| (gs[i].0, gs[i].1@, mandatory))
}

/// Mandatory groups first, then optional ones.
pub open spec fn all_groups<K, T>(mandatory: Seq<(K, Vec<T>)>, optional: Seq<(K, Vec<T>)>) -> Seq<
    (K, Seq<T>, bool),
> {
    flag_groups(mandatory, true) + flag_groups(optional, false)
}

/// `==` on a `(key, item)` pair.
pub open spec fn same_pair<K: PartialEq, T: PartialEq>(a: (K, T), b: (K, T)) -> bool {
    a.0.eq_spec(&b.0) && a.1.eq_spec(&b.1)
}

/// The pair `{p, q}` is listed as an exception, in either orientation.
pub open spec fn excepted<K: PartialEq, T: PartialEq>(
    exc: Seq<((K, T), (K, T))>,
    p: (K, T),
    q: (K, T),
) -> bool {
    exists|e: int|
        0 <= e < exc.len() && ((same_pair(#[trigger] exc[e].0, p) && same_pair(exc[e].1, q)) || (
        same_pair(exc[e].0, q) && same_pair(exc[e].1, p)))
}

/// Item `i` of group `g` and item `j` of group `h` may not be chosen together:
/// they collide, and no exception lifts it.
pub open spec fn blocked<K: PartialEq, T: PartialEq + Collidable>(
    gs: Seq<(K, Seq<T>, bool)>,
    exc: Seq<((K, T), (K, T))>,
    g: int,
    i: int,
    h: int,
    j: int,
) -> bool {
    gs[g].1[i].spec_collides(&gs[h].1[j]) && !excepted(
        exc,
        (gs[g].0, gs[g].1[i]),
        (gs[h].0, gs[h].1[j]),
    )
}

/// Item `i` of group `d` can join the choices made for groups `0..d`.
pub open spec fn admissible<K: PartialEq, T: PartialEq + Collidable>(
    gs: Seq<(K, Seq<T>, bool)>,
    exc: Seq<((K, T), (K, T))>,
    chosen: Seq<Option<usize>>,
    d: int,
    i: int,
) -> bool {
    forall|p: int|
        0 <= p < d && (#[trigger] chosen[p]) is Some ==> !blocked(
            gs,
            exc,
            p,
            chosen[p]->Some_0 as int,
            d,
            i,
        )
}

/// The assignments that extend `chosen` (the choices for groups `0..d`),
/// taking for group `d` the items from `i` on, in order, and then, for an
/// optional group, no item. An assignment lists, per group, the position of
/// the chosen item or `None`.
pub open spec fn enum_from<K: PartialEq, T: PartialEq + Collidable>(
    gs: Seq<(K, Seq<T>, bool)>,
    exc: Seq<((K, T), (K, T))>,
    chosen: Seq<Option<usize>>,
    d: int,
    i: int,
) -> Seq<Seq<Option<usize>>>
    decreases gs.len() - d, gs[d].1.len() + 1 - i,
{
    if d >= gs.len() || d < 0 || i < 0 {
        seq![chosen]
    } else if i < gs[d].1.len() {
        let here = if admissible(gs, exc, chosen, d, i) {
            enum_from(gs, exc, chosen.push(Some(i as usize)), d + 1, 0)
        } else {
            Seq::empty()
        };
        here + enum_from(gs, exc, chosen, d, i + 1)
    } else if gs[d].2 {
        Seq::empty()
    } else {
        enum_from(gs, exc, chosen.push(None), d + 1, 0)
    }
}

/// Every assignment, in the order of a depth-first walk over the groups.
pub open spec fn enumeration<K: PartialEq, T: PartialEq + Collidable>(
    gs: Seq<(K, Seq<T>, bool)>,
    exc: Seq<((K, T), (K, T))>,
) -> Seq<Seq<Option<usize>>> {
    enum_from(gs, exc, Seq::empty(), 0, 0)
}

/// `table[h][j][g][i]` tells whether item `j` of group `h` is blocked by item
/// `i` of an earlier group `g`.
pub open spec fn table_ok<K: PartialEq, T: PartialEq + Collidable>(
    gs: Seq<(K, Seq<T>, bool)>,
    exc: Seq<((K, T), (K, T))>,
    table: Seq<Vec<Vec<Vec<bool>>>>,
) -> bool {
    &&& table.len() == gs.len()
    &&& forall|h: int| 0 <= h < gs.len() ==> (#[trigger] table[h])@.len() == gs[h].1.len()
    &&& forall|h: int, j: int|
        0 <= h < gs.len() && 0 <= j < gs[h].1.len() ==> (#[trigger] table[h]@[j])@.len() == h
    &&& forall|h: int, j: int, g: int|
        0 <= h < gs.len() && 0 <= j < gs[h].1.len() && 0 <= g < h ==> (
        #[trigger] table[h]@[j]@[g])@.len() == gs[g].1.len()
    &&& forall|h: int, j: int, g: int, i: int|
        0 <= h < gs.len() && 0 <= j < gs[h].1.len() && 0 <= g < h && 0 <= i < gs[g].1.len()
            ==> (#[trigger] table[h]@[j]@[g]@[i]) == blocked(gs, exc, g, i, h, j)
}

/// Each choice names an item of its group.
pub open spec fn choices_in_range<K, T>(gs: Seq<(K, Seq<T>, bool)>, chosen: Seq<Option<usize>>) -> bool {
    forall|p: int|
        0 <= p < chosen.len() && (#[trigger] chosen[p]) is Some ==> chosen[p]->Some_0 < gs[p].1.len()
}

/// Builds the assignments of mandatory and optional groups of items.
pub struct OptionGenerator<K, T> {
    mandatory: Vec<(K, Vec<T>)>,
    optional: Vec<(K, Vec<T>)>,
    collision_exceptions: Vec<((K, T), (K, T))>,
}

impl<K, T> OptionGenerator<K, T> {
    pub closed spec fn spec_mandatory(self) -> Seq<(K, Vec<T>)> {
        self.mandatory@
    }

    pub closed spec fn spec_optional(self) -> Seq<(K, Vec<T>)> {
        self.optional@
    }

    pub closed spec fn spec_exceptions(self) -> Seq<((K, T), (K, T))> {
        self.collision_exceptions@
    }

    pub open spec fn spec_groups(self) -> Seq<(K, Seq<T>, bool)> {
        all_groups(self.spec_mandatory(), self.spec_optional())
    }

    /// A generator with no groups and no exceptions.
    pub fn new() -> (g: Self)
        ensures
            g.spec_mandatory() == Seq::<(K, Vec<T>)>::empty(),
            g.spec_optional() == Seq::<(K, Vec<T>)>::empty(),
            g.spec_exceptions() == Seq::<((K, T), (K, T))>::empty(),
    {
        OptionGenerator {
            mandatory: Vec::new(),
            optional: Vec::new(),
            collision_exceptions: Vec::new(),
        }
    }

    /// The groups of which exactly one item must be chosen.
    pub fn set_mandatory(&mut self, mandatory: Vec<(K, Vec<T>)>) -> (r: &mut Self)
        ensures
            r.spec_mandatory() == mandatory@,
            r.spec_optional() == old(self).spec_optional(),
            r.spec_exceptions() == old(self).spec_exceptions(),
            *final(self) == *final(r),
    {
        self.mandatory = mandatory;
        self
    }

    /// The groups of which at most one item may be chosen.
    pub fn set_optional(&mut self, optional: Vec<(K, Vec<T>)>) -> (r: &mut Self)
        ensures
            r.spec_optional() == optional@,
            r.spec_mandatory() == old(self).spec_mandatory(),
            r.spec_exceptions() == old(self).spec_exceptions(),
            *final(self) == *final(r),
    {
        self.optional = optional;
        self
    }

    /// Pairs of `(key, item)` that may be chosen together although they collide.
    pub fn set_collission_exceptions(
        &mut self,
        collision_exceptions: Vec<((K, T), (K, T))>,
    ) -> (r: &mut Self)
        ensures
            r.spec_exceptions() == collision_exceptions@,
            r.spec_mandatory() == old(self).spec_mandatory(),
            r.spec_optional() == old(self).spec_optional(),
            *final(self) == *final(r),
    {
        self.collision_exceptions = collision_exceptions;
        self
    }

    /// The number of groups, mandatory and optional.
    pub(crate) fn group_count(&self) -> (r: usize)
        requires
            self.spec_mandatory().len() + self.spec_optional().len() <= usize::MAX,
        ensures
            r == self.spec_groups().len(),
    {
        self.mandatory.len() + self.optional.len()
    }

    /// Each group's items sit in a `Vec`, so their number fits in a `usize`.
    pub(crate) fn confirm_groups_fit(&self, n: usize)
        requires
            n == self.spec_groups().len(),
        ensures
            groups_fit(self.spec_groups()),
    {
        let mut g: usize = 0;
        while g < n
            invariant
                n == self.spec_groups().len(),
                g <= n,
                forall|h: int| 0 <= h < g ==> (#[trigger] self.spec_groups()[h]).1.len() <= usize::MAX,
            decreases n - g,
        {
            let (_, items, _) = self.group_at(g);
            let _ = items.len();
            g = g + 1;
        }
    }

    pub(crate) fn group_at(&self, d: usize) -> (r: (&K, &Vec<T>, bool))
        requires
            d < self.spec_groups().len(),
        ensures
            (*r.0, r.1@, r.2) == self.spec_groups()[d as int],
    {
        let m = self.mandatory.len();
        if d < m {
            let g = &self.mandatory[d];
            (&g.0, &g.1, true)
        } else {
            let g = &self.optional[d - m];
            (&g.0, &g.1, false)
        }
    }
}

impl<K, T> Default for OptionGenerator<K, T> {
    fn default() -> (g: Self)
        ensures
            g.spec_mandatory() == Seq::<(K, Vec<T>)>::empty(),
            g.spec_optional() == Seq::<(K, Vec<T>)>::empty(),
            g.spec_exceptions() == Seq::<((K, T), (K, T))>::empty(),
    {
        Self::new()
    }
}

impl<K: PartialEq, T: PartialEq + Collidable + Clone> OptionGenerator<K, T> {
    fn is_excepted(&self, k1: &K, t1: &T, k2: &K, t2: &T) -> (r: bool)
        requires
            K::obeys_eq_spec(),
            T::obeys_eq_spec(),
        ensures
            r == excepted(self.spec_exceptions(), (*k1, *t1), (*k2, *t2)),
    {
        let exc = &self.collision_exceptions;
        let mut e: usize = 0;
        while e < exc.len()
            invariant
                exc@ == self.spec_exceptions(),
                K::obeys_eq_spec(),
                T::obeys_eq_spec(),
                e <= exc@.len(),
                forall|f: int|
                    0 <= f < e ==> !((same_pair(#[trigger] exc@[f].0, (*k1, *t1)) && same_pair(
                        exc@[f].1,
                        (*k2, *t2),
                    )) || (same_pair(exc@[f].0, (*k2, *t2)) && same_pair(exc@[f].1, (*k1, *t1)))),
            decreases exc@.len() - e,
        {
            let x = &exc[e];
            let forward = (x.0).0 == *k1 && (x.0).1 == *t1 && (x.1).0 == *k2 && (x.1).1 == *t2;
            let backward = (x.0).0 == *k2 && (x.0).1 == *t2 && (x.1).0 == *k1 && (x.1).1 == *t1;
            if forward || backward {
                assert(same_pair(exc@[e as int].0, (*k1, *t1)) && same_pair(exc@[e as int].1, (*k2, *t2))
                    || same_pair(exc@[e as int].0, (*k2, *t2)) && same_pair(exc@[e as int].1, (*k1, *t1)));
                return true;
            }
            e = e + 1;
        }
        false
    }

    /// For every item, which items of earlier groups block it.
    pub(crate) fn conflict_table(&self, n: usize) -> (table: Vec<Vec<Vec<Vec<bool>>>>)
        requires
            n == self.spec_groups().len(),
            K::obeys_eq_spec(),
            T::obeys_eq_spec(),
        ensures
            table_ok(self.spec_groups(), self.spec_exceptions(), table@),
    {
        let ghost gs = self.spec_groups();
        let ghost exc = self.spec_exceptions();
        let mut table: Vec<Vec<Vec<Vec<bool>>>> = Vec::new();
        let mut h: usize = 0;
        while h < n
            invariant
                n == gs.len(),
                gs == self.spec_groups(),
                exc == self.spec_exceptions(),
                K::obeys_eq_spec(),
                T::obeys_eq_spec(),
                h <= n,
                table_ok(gs.subrange(0, h as int), exc, table@),
            decreases n - h,
        {
            let (kh, items_h, _) = self.group_at(h);
            let mut row: Vec<Vec<Vec<bool>>> = Vec::new();
            let mut j: usize = 0;
            while j < items_h.len()
                invariant
                    n == gs.len(),
                    h < n,
                    gs == self.spec_groups(),
                    exc == self.spec_exceptions(),
                    K::obeys_eq_spec(),
                    T::obeys_eq_spec(),
                    (*kh, items_h@) == (gs[h as int].0, gs[h as int].1),
                    j <= items_h@.len(),
                    row@.len() == j,
                    forall|jj: int| 0 <= jj < j ==> (#[trigger] row@[jj])@.len() == h,
                    forall|jj: int, g: int|
                        0 <= jj < j && 0 <= g < h ==> (#[trigger] row@[jj]@[g])@.len()
                            == gs[g].1.len(),
                    forall|jj: int, g: int, i: int|
                        0 <= jj < j && 0 <= g < h && 0 <= i < gs[g].1.len() ==> (
                        #[trigger] row@[jj]@[g]@[i]) == blocked(gs, exc, g, i, h as int, jj),
                decreases items_h@.len() - j,
            {
                let y = &items_h[j];
                let mut cell: Vec<Vec<bool>> = Vec::new();
                let mut g: usize = 0;
                while g < h
                    invariant
                        n == gs.len(),
                        h < n,
                        j < gs[h as int].1.len(),
                        gs == self.spec_groups(),
                        exc == self.spec_exceptions(),
                        K::obeys_eq_spec(),
                        T::obeys_eq_spec(),
                        (*kh, items_h@) == (gs[h as int].0, gs[h as int].1),
                        *y == gs[h as int].1[j as int],
                        g <= h,
                        cell@.len() == g,
                        forall|gg: int| 0 <= gg < g ==> (#[trigger] cell@[gg])@.len() == gs[gg].1.len(),
                        forall|gg: int, i: int|
                            0 <= gg < g && 0 <= i < gs[gg].1.len() ==> (#[trigger] cell@[gg]@[i])
                                == blocked(gs, exc, gg, i, h as int, j as int),
                    decreases h - g,
                {
                    let (kg, items_g, _) = self.group_at(g);
                    let mut line: Vec<bool> = Vec::new();
                    let mut i: usize = 0;
                    while i < items_g.len()
                        invariant
                            n == gs.len(),
                            g < h < n,
                            j < gs[h as int].1.len(),
                            gs == self.spec_groups(),
                            exc == self.spec_exceptions(),
                            K::obeys_eq_spec(),
                            T::obeys_eq_spec(),
                            (*kh, items_h@) == (gs[h as int].0, gs[h as int].1),
                            (*kg, items_g@) == (gs[g as int].0, gs[g as int].1),
                            *y == gs[h as int].1[j as int],
                            i <= items_g@.len(),
                            line@.len() == i,
                            forall|ii: int|
                                0 <= ii < i ==> (#[trigger] line@[ii]) == blocked(
                                    gs,
                                    exc,
                                    g as int,
                                    ii,
                                    h as int,
                                    j as int,
                                ),
                        decreases items_g@.len() - i,
                    {
                        let x = &items_g[i];
                        let b = x.collides(y) && !self.is_excepted(kg, x, kh, y);
                        line.push(b);
                        i = i + 1;
                    }
                    cell.push(line);
                    g = g + 1;
                }
                row.push(cell);
                j = j + 1;
            }
            table.push(row);
            h = h + 1;
            proof {
                let gh = gs.subrange(0, h as int);
                assert forall|hh: int| 0 <= hh < h implies #[trigger] gh[hh] == gs[hh] by {}
            }
        }
        assert(gs.subrange(0, n as int) =~= gs);
        table
    }

    /// Item `i` of group `d` is blocked by none of the choices for `0..d`.
    pub(crate) fn admits(
        &self,
        table: &Vec<Vec<Vec<Vec<bool>>>>,
        chosen: &Vec<Option<usize>>,
        d: usize,
        i: usize,
    ) -> (r: bool)
        requires
            table_ok(self.spec_groups(), self.spec_exceptions(), table@),
            d < self.spec_groups().len(),
            i < self.spec_groups()[d as int].1.len(),
            chosen@.len() == d,
            choices_in_range(self.spec_groups(), chosen@),
        ensures
            r == admissible(self.spec_groups(), self.spec_exceptions(), chosen@, d as int, i as int),
    {
        let ghost gs = self.spec_groups();
        let ghost exc = self.spec_exceptions();
        let row = &table[d][i];
        let mut p: usize = 0;
        while p < d
            invariant
                gs == self.spec_groups(),
                exc == self.spec_exceptions(),
                table_ok(gs, exc, table@),
                d < gs.len(),
                i < gs[d as int].1.len(),
                chosen@.len() == d,
                choices_in_range(gs, chosen@),
                row@ == table@[d as int]@[i as int]@,
                p <= d,
                forall|pp: int|
                    0 <= pp < p && (#[trigger] chosen@[pp]) is Some ==> !blocked(
                        gs,
                        exc,
                        pp,
                        chosen@[pp]->Some_0 as int,
                        d as int,
                        i as int,
                    ),
            decreases d - p,
        {
            match chosen[p] {
                Some(q) => {
                    assert(chosen@[p as int] is Some);
                    if row[p][q] {
                        return false;
                    }
                },
                None => {},
            }
            p = p + 1;
        }
        true
    }

    /// The item picked by each choice, cloned.
    pub(crate) fn materialize(&self, chosen: &Vec<Option<usize>>) -> (r: Vec<Option<T>>)
        requires
            chosen@.len() == self.spec_groups().len(),
            choices_in_range(self.spec_groups(), chosen@),
        ensures
            picks(self.spec_groups(), chosen@, r@),
    {
        let ghost gs = self.spec_groups();
        let mut r: Vec<Option<T>> = Vec::new();
        let mut p: usize = 0;
        while p < chosen.len()
            invariant
                gs == self.spec_groups(),
                chosen@.len() == gs.len(),
                choices_in_range(gs, chosen@),
                p <= chosen@.len(),
                r@.len() == p,
                forall|pp: int|
                    0 <= pp < p ==> ((#[trigger] r@[pp]) is None <==> chosen@[pp] is None),
                forall|pp: int|
                    0 <= pp < p && (#[trigger] chosen@[pp]) is Some ==> cloned(
                        gs[pp].1[chosen@[pp]->Some_0 as int],
                        r@[pp]->Some_0,
                    ),
            decreases chosen@.len() - p,
        {
            match chosen[p] {
                Some(q) => {
                    assert(chosen@[p as int] is Some);
                    let (_, items, _) = self.group_at(p);
                    let x = items[q].clone();
                    r.push(Some(x));
                },
                None => {
                    r.push(None);
                },
            }
            p = p + 1;
        }
        r
    }

    /// Appends, in order, every assignment that extends `chosen`.
    fn walk(
        &self,
        table: &Vec<Vec<Vec<Vec<bool>>>>,
        n: usize,
        chosen: &mut Vec<Option<usize>>,
        positions: &mut Vec<Vec<Option<usize>>>,
        items: &mut Vec<Vec<Option<T>>>,
    )
        requires
            n == self.spec_groups().len(),
            table_ok(self.spec_groups(), self.spec_exceptions(), table@),
            old(chosen)@.len() <= n,
            choices_in_range(self.spec_groups(), old(chosen)@),
            all_picked(self.spec_groups(), old(positions)@, old(items)@),
        ensures
            final(chosen)@ == old(chosen)@,
            views(final(positions)@) == views(old(positions)@) + enum_from(
                self.spec_groups(),
                self.spec_exceptions(),
                old(chosen)@,
                old(chosen)@.len() as int,
                0,
            ),
            all_picked(self.spec_groups(), final(positions)@, final(items)@),
        decreases n - old(chosen)@.len(),
    {
        let ghost gs = self.spec_groups();
        let ghost exc = self.spec_exceptions();
        let ghost c0 = chosen@;
        let ghost start_views = views(positions@);
        let d = chosen.len();
        if d == n {
            let copy = copy_choice(chosen);
            let picked = self.materialize(chosen);
            positions.push(copy);
            items.push(picked);
            proof {
                assert(views(positions@) =~= start_views + seq![c0]);
                let ps = positions@;
                let its = items@;
                assert forall|a: int| 0 <= a < ps.len() implies picks(gs, (#[trigger] ps[a])@, its[a]@) by {
                    if a < ps.len() - 1 {
                        assert(ps[a] == old(positions)@[a]);
                        assert(its[a] == old(items)@[a]);
                    }
                }
            }
            return;
        }
        let (_, group, mandatory) = self.group_at(d);
        let m = group.len();
        let mut i: usize = 0;
        while i < m
            invariant
                n == gs.len(),
                gs == self.spec_groups(),
                exc == self.spec_exceptions(),
                table_ok(gs, exc, table@),
                d < n,
                c0.len() == d,
                c0 == old(chosen)@,
                chosen@ == c0,
                choices_in_range(gs, c0),
                m == gs[d as int].1.len(),
                i <= m,
                start_views + enum_from(gs, exc, c0, d as int, 0) == views(positions@) + enum_from(
                    gs,
                    exc,
                    c0,
                    d as int,
                    i as int,
                ),
                all_picked(gs, positions@, items@),
            decreases m - i,
        {
            let ghost before = views(positions@);
            if self.admits(table, chosen, d, i) {
                chosen.push(Some(i));
                proof {
                    assert forall|p: int| 0 <= p < chosen@.len() && (#[trigger] chosen@[p]) is Some implies chosen@[p]->Some_0 < gs[p].1.len() by {
                        if p < d {
                            assert(chosen@[p] == c0[p]);
                        }
                    }
                }
                self.walk(table, n, chosen, positions, items);
                chosen.pop();
                assert(chosen@ =~= c0);
            }
            proof {
                let here = if admissible(gs, exc, c0, d as int, i as int) {
                    enum_from(gs, exc, c0.push(Some(i as usize)), d + 1, 0)
                } else {
                    Seq::empty()
                };
                assert(views(positions@) =~= before + here);
                assert(enum_from(gs, exc, c0, d as int, i as int) == here + enum_from(
                    gs,
                    exc,
                    c0,
                    d as int,
                    i + 1,
                ));
                assert(before + enum_from(gs, exc, c0, d as int, i as int) =~= (before + here)
                    + enum_from(gs, exc, c0, d as int, i + 1));
            }
            i = i + 1;
        }
        let ghost before = views(positions@);
        if !mandatory {
            chosen.push(None);
            proof {
                assert forall|p: int| 0 <= p < chosen@.len() && (#[trigger] chosen@[p]) is Some implies chosen@[p]->Some_0 < gs[p].1.len() by {
                    if p < d {
                        assert(chosen@[p] == c0[p]);
                    }
                }
            }
            self.walk(table, n, chosen, positions, items);
            chosen.pop();
            assert(chosen@ =~= c0);
        }
        proof {
            if mandatory {
                assert(enum_from(gs, exc, c0, d as int, m as int) =~= Seq::<Seq<Option<usize>>>::empty());
                assert(views(positions@) =~= before + enum_from(gs, exc, c0, d as int, m as int));
            } else {
                assert(views(positions@) =~= before + enum_from(gs, exc, c0, d as int, m as int));
            }
        }
    }

    /// Every assignment, each as the position of the chosen item in its group
    /// (or `None`), mandatory groups first; in the order of a depth-first walk
    /// that tries each group's items in order and, for an optional group, no
    /// item last.
    pub fn positions(&self) -> (r: Vec<Vec<Option<usize>>>)
        requires
            K::obeys_eq_spec(),
            T::obeys_eq_spec(),
            self.spec_mandatory().len() + self.spec_optional().len() <= usize::MAX,
        ensures
            views(r@) == enumeration(self.spec_groups(), self.spec_exceptions()),
    {
        let (r, _) = self.run();
        r
    }

    fn run(&self) -> (r: (Vec<Vec<Option<usize>>>, Vec<Vec<Option<T>>>))
        requires
            K::obeys_eq_spec(),
            T::obeys_eq_spec(),
            self.spec_mandatory().len() + self.spec_optional().len() <= usize::MAX,
        ensures
            views(r.0@) == enumeration(self.spec_groups(), self.spec_exceptions()),
            all_picked(self.spec_groups(), r.0@, r.1@),
    {
        let n = self.mandatory.len() + self.optional.len();
        let table = self.conflict_table(n);
        let mut chosen: Vec<Option<usize>> = Vec::new();
        let mut positions: Vec<Vec<Option<usize>>> = Vec::new();
        let mut items: Vec<Vec<Option<T>>> = Vec::new();
        self.walk(&table, n, &mut chosen, &mut positions, &mut items);
        assert(views(Seq::<Vec<Option<usize>>>::empty()) =~= Seq::<Seq<Option<usize>>>::empty());
        assert(views(positions@) =~= enumeration(self.spec_groups(), self.spec_exceptions()));
        (positions, items)
    }

    /// Every assignment, each listing per group (mandatory groups first) the
    /// chosen item or `None`.
    pub fn generate(self) -> (r: Vec<Vec<Option<T>>>)
        requires
            K::obeys_eq_spec(),
            T::obeys_eq_spec(),
            self.spec_mandatory().len() + self.spec_optional().len() <= usize::MAX,
        ensures
            r@.len() == enumeration(self.spec_groups(), self.spec_exceptions()).len(),
            forall|a: int|
                0 <= a < r@.len() ==> picks(
                    self.spec_groups(),
                    enumeration(self.spec_groups(), self.spec_exceptions())[a],
                    (#[trigger] r@[a])@,
                ),
    {
        let (positions, items) = self.run();
        proof {
            let e = enumeration(self.spec_groups(), self.spec_exceptions());
            assert forall|a: int| 0 <= a < items@.len() implies picks(
                self.spec_groups(),
                e[a],
                (#[trigger] items@[a])@,
            ) by {
                assert(views(positions@)[a] == positions@[a]@);
            }
        }
        items
    }
}

/// `c` chooses for its groups (the first `c.len()` of `gs`): an item of the
/// group or none, an item for every mandatory group, and no two items that
/// block each other.
pub open spec fn consistent_prefix<K: PartialEq, T: PartialEq + Collidable>(
    gs: Seq<(K, Seq<T>, bool)>,
    exc: Seq<((K, T), (K, T))>,
    c: Seq<Option<usize>>,
) -> bool {
    &&& c.len() <= gs.len()
    &&& choices_in_range(gs, c)
    &&& forall|p: int| 0 <= p < c.len() && gs[p].2 ==> (#[trigger] c[p]) is Some
    &&& forall|p: int, q: int|
        0 <= p < q < c.len() && (#[trigger] c[p]) is Some && (#[trigger] c[q]) is Some ==> !blocked(
            gs,
            exc,
            p,
            c[p]->Some_0 as int,
            q,
            c[q]->Some_0 as int,
        )
}

/// Every group's items could sit in a `Vec`.
pub open spec fn groups_fit<K, T>(gs: Seq<(K, Seq<T>, bool)>) -> bool {
    forall|g: int| 0 <= g < gs.len() ==> (#[trigger] gs[g]).1.len() <= usize::MAX
}

/// A complete assignment: one entry per group, consistent.
pub open spec fn valid_assignment<K: PartialEq, T: PartialEq + Collidable>(
    gs: Seq<(K, Seq<T>, bool)>,
    exc: Seq<((K, T), (K, T))>,
    c: Seq<Option<usize>>,
) -> bool {
    c.len() == gs.len() && consistent_prefix(gs, exc, c)
}

/// Extending a consistent prefix yields only complete, consistent
/// assignments.
pub proof fn lemma_enum_from_sound<K: PartialEq, T: PartialEq + Collidable>(
    gs: Seq<(K, Seq<T>, bool)>,
    exc: Seq<((K, T), (K, T))>,
    chosen: Seq<Option<usize>>,
    d: int,
    i: int,
)
    requires
        0 <= d <= gs.len(),
        0 <= i,
        chosen.len() == d,
        consistent_prefix(gs, exc, chosen),
        groups_fit(gs),
    ensures
        forall|a: int|
            0 <= a < enum_from(gs, exc, chosen, d, i).len() ==> valid_assignment(
                gs,
                exc,
                #[trigger] enum_from(gs, exc, chosen, d, i)[a],
            ),
    decreases gs.len() - d, gs[d].1.len() + 1 - i,
{
    let e = enum_from(gs, exc, chosen, d, i);
    if d >= gs.len() {
        assert(e == seq![chosen]);
        assert forall|a: int| 0 <= a < e.len() implies valid_assignment(gs, exc, #[trigger] e[a]) by {
            assert(e[a] == chosen);
        }
    } else if i < gs[d].1.len() {
        lemma_enum_from_sound(gs, exc, chosen, d, i + 1);
        let rest = enum_from(gs, exc, chosen, d, i + 1);
        if admissible(gs, exc, chosen, d, i) {
            let c2 = chosen.push(Some(i as usize));
            assert(gs[d].1.len() <= usize::MAX);
            assert((i as usize) as int == i);
            assert(consistent_prefix(gs, exc, c2)) by {
                assert forall|p: int, q: int|
                    0 <= p < q < c2.len() && (#[trigger] c2[p]) is Some && (#[trigger] c2[q]) is Some
                    implies !blocked(gs, exc, p, c2[p]->Some_0 as int, q, c2[q]->Some_0 as int) by {
                    assert(c2[p] == chosen[p]);
                    if q < d {
                        assert(c2[q] == chosen[q]);
                    } else {
                        assert(chosen[p] is Some);
                    }
                }
                assert forall|p: int| 0 <= p < c2.len() && gs[p].2 implies (#[trigger] c2[p]) is Some by {
                    if p < d {
                        assert(c2[p] == chosen[p]);
                    }
                }
                assert forall|p: int| 0 <= p < c2.len() && (#[trigger] c2[p]) is Some implies c2[p]->Some_0
                    < gs[p].1.len() by {
                    if p < d {
                        assert(c2[p] == chosen[p]);
                    }
                }
            }
            lemma_enum_from_sound(gs, exc, c2, d + 1, 0);
            let here = enum_from(gs, exc, c2, d + 1, 0);
            assert(e == here + rest);
            assert forall|a: int| 0 <= a < e.len() implies valid_assignment(gs, exc, #[trigger] e[a]) by {
                if a < here.len() {
                    assert(e[a] == here[a]);
                } else {
                    assert(e[a] == rest[a - here.len()]);
                }
            }
        } else {
            assert(e =~= rest);
            assert forall|a: int| 0 <= a < e.len() implies valid_assignment(gs, exc, #[trigger] e[a]) by {
                assert(e[a] == rest[a]);
            }
        }
    } else if gs[d].2 {
        assert(e.len() == 0);
    } else {
        let c2 = chosen.push(None);
        assert(consistent_prefix(gs, exc, c2)) by {
            assert forall|p: int, q: int|
                0 <= p < q < c2.len() && (#[trigger] c2[p]) is Some && (#[trigger] c2[q]) is Some
                implies !blocked(gs, exc, p, c2[p]->Some_0 as int, q, c2[q]->Some_0 as int) by {
                assert(c2[p] == chosen[p]);
                assert(c2[q] == chosen[q]);
            }
            assert forall|p: int| 0 <= p < c2.len() && gs[p].2 implies (#[trigger] c2[p]) is Some by {
                if p < d {
                    assert(c2[p] == chosen[p]);
                }
            }
            assert forall|p: int| 0 <= p < c2.len() && (#[trigger] c2[p]) is Some implies c2[p]->Some_0
                < gs[p].1.len() by {
                assert(c2[p] == chosen[p]);
            }
        }
        lemma_enum_from_sound(gs, exc, c2, d + 1, 0);
        assert(e == enum_from(gs, exc, c2, d + 1, 0));
    }
}

/// Every assignment that the enumeration lists chooses one item for each
/// mandatory group, at most one for each optional group, and no two items
/// that collide (unless an exception lifts it).
pub proof fn lemma_enumeration_sound<K: PartialEq, T: PartialEq + Collidable>(
    gs: Seq<(K, Seq<T>, bool)>,
    exc: Seq<((K, T), (K, T))>,
)
    requires
        groups_fit(gs),
    ensures
        forall|a: int|
            0 <= a < enumeration(gs, exc).len() ==> valid_assignment(
                gs,
                exc,
                #[trigger] enumeration(gs, exc)[a],
            ),
{
    lemma_enum_from_sound(gs, exc, Seq::empty(), 0, 0);
}

proof fn lemma_enum_from_complete<K: PartialEq, T: PartialEq + Collidable>(
    gs: Seq<(K, Seq<T>, bool)>,
    exc: Seq<((K, T), (K, T))>,
    c: Seq<Option<usize>>,
    d: int,
    i: int,
)
    requires
        groups_fit(gs),
        valid_assignment(gs, exc, c),
        0 <= d <= gs.len(),
        0 <= i,
        d < gs.len() ==> (c[d] is None || c[d]->Some_0 >= i),
    ensures
        enum_from(gs, exc, c.subrange(0, d), d, i).contains(c),
    decreases gs.len() - d, gs[d].1.len() + 1 - i,
{
    let chosen = c.subrange(0, d);
    let e = enum_from(gs, exc, chosen, d, i);
    if d >= gs.len() {
        assert(chosen =~= c);
        assert(e == seq![chosen]);
        assert(e[0] == c);
    } else if i < gs[d].1.len() {
        let rest = enum_from(gs, exc, chosen, d, i + 1);
        if c[d] == Some(i as usize) {
            assert(gs[d].1.len() <= usize::MAX);
            assert((i as usize) as int == i);
            assert(admissible(gs, exc, chosen, d, i)) by {
                assert forall|p: int| 0 <= p < d && (#[trigger] chosen[p]) is Some implies !blocked(
                    gs,
                    exc,
                    p,
                    chosen[p]->Some_0 as int,
                    d,
                    i,
                ) by {
                    assert(chosen[p] == c[p]);
                    assert(c[d] is Some);
                }
            }
            let c2 = chosen.push(Some(i as usize));
            assert(c2 =~= c.subrange(0, d + 1));
            lemma_enum_from_complete(gs, exc, c, d + 1, 0);
            let here = enum_from(gs, exc, c2, d + 1, 0);
            assert(e == here + rest);
            let k = choose|k: int| 0 <= k < here.len() && here[k] == c;
            assert(e[k] == c);
        } else {
            lemma_enum_from_complete(gs, exc, c, d, i + 1);
            let here = if admissible(gs, exc, chosen, d, i) {
                enum_from(gs, exc, chosen.push(Some(i as usize)), d + 1, 0)
            } else {
                Seq::empty()
            };
            assert(e == here + rest);
            let k = choose|k: int| 0 <= k < rest.len() && rest[k] == c;
            assert(e[here.len() + k] == c);
        }
    } else {
        assert(c[d] is None);
        assert(!gs[d].2);
        let c2 = chosen.push(None);
        assert(c2 =~= c.subrange(0, d + 1));
        lemma_enum_from_complete(gs, exc, c, d + 1, 0);
        assert(e == enum_from(gs, exc, c2, d + 1, 0));
    }
}

/// The enumeration lists exactly the complete assignments that choose one item
/// for each mandatory group, at most one for each optional group, and no two
/// items that collide (unless an exception lifts it).
pub proof fn lemma_enumeration_exact<K: PartialEq, T: PartialEq + Collidable>(
    gs: Seq<(K, Seq<T>, bool)>,
    exc: Seq<((K, T), (K, T))>,
    c: Seq<Option<usize>>,
)
    requires
        groups_fit(gs),
    ensures
        enumeration(gs, exc).contains(c) <==> valid_assignment(gs, exc, c),
{
    lemma_enumeration_sound(gs, exc);
    if valid_assignment(gs, exc, c) {
        assert(c.subrange(0, 0) =~= Seq::<Option<usize>>::empty());
        if gs.len() > 0 {
            assert(c[0] is None || c[0]->Some_0 >= 0);
        }
        lemma_enum_from_complete(gs, exc, c, 0, 0);
    }
    if enumeration(gs, exc).contains(c) {
        let k = choose|k: int| 0 <= k < enumeration(gs, exc).len() && enumeration(gs, exc)[k] == c;
        assert(valid_assignment(gs, exc, enumeration(gs, exc)[k]));
    }
}

/// The views of a list of assignments.
pub open spec fn views(s: Seq<Vec<Option<usize>>>) -> Seq<Seq<Option<usize>>> {
    s.map_values(|v: Vec<Option<usize>>| v@)
}

/// `got` holds, for each group, a clone of the item that `plan` chooses, or
/// `None` where it chooses none.
pub open spec fn picks<K, T: Clone>(
    gs: Seq<(K, Seq<T>, bool)>,
    plan: Seq<Option<usize>>,
    got: Seq<Option<T>>,
) -> bool {
    &&& got.len() == plan.len()
    &&& forall|p: int| 0 <= p < plan.len() ==> ((#[trigger] got[p]) is None <==> plan[p] is None)
    &&& forall|p: int|
        0 <= p < plan.len() && (#[trigger] plan[p]) is Some ==> cloned(
            gs[p].1[plan[p]->Some_0 as int],
            got[p]->Some_0,
        )
}

pub open spec fn all_picked<K, T: Clone>(
    gs: Seq<(K, Seq<T>, bool)>,
    positions: Seq<Vec<Option<usize>>>,
    items: Seq<Vec<Option<T>>>,
) -> bool {
    &&& positions.len() == items.len()
    &&& forall|a: int| 0 <= a < positions.len() ==> picks(gs, (#[trigger] positions[a])@, items[a]@)
}

pub(crate) fn copy_choice(c: &Vec<Option<usize>>) -> (r: Vec<Option<usize>>)
    ensures
        r@ == c@,
{
    let mut r: Vec<Option<usize>> = Vec::new();
    let mut i: usize = 0;
    while i < c.len()
        invariant
            i <= c@.len(),
            r@ == c@.subrange(0, i as int),
        decreases c@.len() - i,
    {
        r.push(c[i]);
        i = i + 1;
        assert(r@ =~= c@.subrange(0, i as int));
    }
    assert(r@ =~= c@);
    r
}

} // verus!

//! A schedule for the seven weekdays.
use vstd::prelude::*;

use crate::collidable::Collidable;
use crate::combinable::Combinable;
use crate::day::{collapse, disjoint_in_order, task_views, Day};
use crate::summable::Summable;
use crate::task::Task;

verus! {

#[derive(Debug, Clone, Copy, PartialEq, Eq, Structural)]
pub enum DaysOfTheWeek {
    Sunday,
    Monday,
    Tuesday,
    Wednesday,
    Thursday,
    Friday,
    Saturday,
}

impl DaysOfTheWeek {
    /// Position in the week, Sunday first.
    pub open spec fn spec_index(self) -> int {
        match self {
            DaysOfTheWeek::Sunday => 0,
            DaysOfTheWeek::Monday => 1,
            DaysOfTheWeek::Tuesday => 2,
            DaysOfTheWeek::Wednesday => 3,
            DaysOfTheWeek::Thursday => 4,
            DaysOfTheWeek::Friday => 5,
            DaysOfTheWeek::Saturday => 6,
        }
    }

    pub fn index(&self) -> (r: usize)
        ensures
            r == self.spec_index(),
    {
        match self {
            DaysOfTheWeek::Sunday => 0,
            DaysOfTheWeek::Monday => 1,
            DaysOfTheWeek::Tuesday => 2,
            DaysOfTheWeek::Wednesday => 3,
            DaysOfTheWeek::Thursday => 4,
            DaysOfTheWeek::Friday => 5,
            DaysOfTheWeek::Saturday => 6,
        }
    }

    /// The weekdays in order, Sunday first.
    pub fn all() -> (r: Vec<DaysOfTheWeek>)
        ensures
            r@.len() == 7,
            forall|i: int| 0 <= i < 7 ==> (#[trigger] r@[i]).spec_index() == i,
    {
        vec![
            DaysOfTheWeek::Sunday,
            DaysOfTheWeek::Monday,
            DaysOfTheWeek::Tuesday,
            DaysOfTheWeek::Wednesday,
            DaysOfTheWeek::Thursday,
            DaysOfTheWeek::Friday,
            DaysOfTheWeek::Saturday,
        ]
    }
}

/// One `Day` for each weekday.
#[derive(Debug, Clone, PartialEq, Eq)]
pub struct Week<T> {
    pub sunday: Day<T>,
    pub monday: Day<T>,
    pub tuesday: Day<T>,
    pub wednesday: Day<T>,
    pub thursday: Day<T>,
    pub friday: Day<T>,
    pub saturday: Day<T>,
}

impl<T> Week<T> {
    pub open spec fn day_of(self, d: DaysOfTheWeek) -> Day<T> {
        match d {
            DaysOfTheWeek::Sunday => self.sunday,
            DaysOfTheWeek::Monday => self.monday,
            DaysOfTheWeek::Tuesday => self.tuesday,
            DaysOfTheWeek::Wednesday => self.wednesday,
            DaysOfTheWeek::Thursday => self.thursday,
            DaysOfTheWeek::Friday => self.friday,
            DaysOfTheWeek::Saturday => self.saturday,
        }
    }

    /// The days in order, Sunday first.
    pub open spec fn days(self) -> Seq<Day<T>> {
        seq![
            self.sunday,
            self.monday,
            self.tuesday,
            self.wednesday,
            self.thursday,
            self.friday,
            self.saturday,
        ]
    }

    /// Builds a week from its days, Sunday first.
    pub fn new(days: Vec<Day<T>>) -> (w: Week<T>)
        requires
            days@.len() == 7,
        ensures
            w.days() == days@,
    {
        let ghost d = days@;
        let mut days = days;
        let saturday = days.pop().unwrap();
        let friday = days.pop().unwrap();
        let thursday = days.pop().unwrap();
        let wednesday = days.pop().unwrap();
        let tuesday = days.pop().unwrap();
        let monday = days.pop().unwrap();
        let sunday = days.pop().unwrap();
        let w = Week { sunday, monday, tuesday, wednesday, thursday, friday, saturday };
        assert(w.days() =~= d);
        w
    }

    pub fn empty() -> (w: Week<T>)
        ensures
            forall|i: int| 0 <= i < 7 ==> (#[trigger] w.days()[i])@ == Seq::<Task<T>>::empty(),
    {
        Week {
            sunday: Day::empty(),
            monday: Day::empty(),
            tuesday: Day::empty(),
            wednesday: Day::empty(),
            thursday: Day::empty(),
            friday: Day::empty(),
            saturday: Day::empty(),
        }
    }

    pub fn day(&self, d: DaysOfTheWeek) -> (r: &Day<T>)
        ensures
            *r == self.day_of(d),
    {
        match d {
            DaysOfTheWeek::Sunday => &self.sunday,
            DaysOfTheWeek::Monday => &self.monday,
            DaysOfTheWeek::Tuesday => &self.tuesday,
            DaysOfTheWeek::Wednesday => &self.wednesday,
            DaysOfTheWeek::Thursday => &self.thursday,
            DaysOfTheWeek::Friday => &self.friday,
            DaysOfTheWeek::Saturday => &self.saturday,
        }
    }

    /// Replaces the day `d`; the others stay.
    pub fn set_day(&mut self, d: DaysOfTheWeek, day: Day<T>)
        ensures
            final(self).day_of(d) == day,
            forall|e: DaysOfTheWeek| e != d ==> final(self).day_of(e) == old(self).day_of(e),
    {
        match d {
            DaysOfTheWeek::Sunday => self.sunday = day,
            DaysOfTheWeek::Monday => self.monday = day,
            DaysOfTheWeek::Tuesday => self.tuesday = day,
            DaysOfTheWeek::Wednesday => self.wednesday = day,
            DaysOfTheWeek::Thursday => self.thursday = day,
            DaysOfTheWeek::Friday => self.friday = day,
            DaysOfTheWeek::Saturday => self.saturday = day,
        }
    }
}

impl<T: Summable> Week<T> {
    /// The week with every day's overlapping runs collapsed.
    pub fn simplified(self) -> (w: Week<T>)
        ensures
            forall|i: int|
                0 <= i < 7 ==> task_views((#[trigger] w.days()[i])@) == collapse::<T>(
                    task_views(self.days()[i]@),
                ),
            forall|i: int| 0 <= i < 7 ==> !(#[trigger] w.days()[i]).spec_has_collisions(),
            forall|i: int| 0 <= i < 7 ==> disjoint_in_order((#[trigger] w.days()[i])@),
    {
        let Week { sunday, monday, tuesday, wednesday, thursday, friday, saturday } = self;
        Week {
            sunday: sunday.simplified(),
            monday: monday.simplified(),
            tuesday: tuesday.simplified(),
            wednesday: wednesday.simplified(),
            thursday: thursday.simplified(),
            friday: friday.simplified(),
            saturday: saturday.simplified(),
        }
    }

    /// Collapses, on every day, each run of overlapping tasks into one task
    /// spanning the run and carrying the sum of its payloads.
    pub fn simplify(&mut self)
        ensures
            forall|i: int|
                0 <= i < 7 ==> task_views((#[trigger] final(self).days()[i])@) == collapse::<T>(
                    task_views(old(self).days()[i]@),
                ),
            forall|i: int| 0 <= i < 7 ==> !(#[trigger] final(self).days()[i]).spec_has_collisions(),
            forall|i: int| 0 <= i < 7 ==> disjoint_in_order((#[trigger] final(self).days()[i])@),
    {
        let mut w = Week::empty();
        std::mem::swap(self, &mut w);
        *self = w.simplified();
    }
}

impl<T: Clone> Combinable for Week<T> {
    /// Each weekday is the combination of the two weeks' same weekday.
    open spec fn spec_combined(&self, other: &Week<T>, r: &Week<T>) -> bool {
        forall|i: int|
            0 <= i < 7 ==> (#[trigger] self.days()[i]).spec_combined(&other.days()[i], &r.days()[i])
    }

    fn combine(&self, other: &Week<T>) -> (r: Week<T>) {
        let r = Week {
            sunday: self.sunday.combine(&other.sunday),
            monday: self.monday.combine(&other.monday),
            tuesday: self.tuesday.combine(&other.tuesday),
            wednesday: self.wednesday.combine(&other.wednesday),
            thursday: self.thursday.combine(&other.thursday),
            friday: self.friday.combine(&other.friday),
            saturday: self.saturday.combine(&other.saturday),
        };
        assert forall|i: int| 0 <= i < 7 implies (#[trigger] self.days()[i]).spec_combined(
            &other.days()[i],
            &r.days()[i],
        ) by {
            assert(i == 0 || i == 1 || i == 2 || i == 3 || i == 4 || i == 5 || i == 6);
        }
        r
    }
}

impl<T> Collidable for Week<T> {
    /// Some weekday collides with the same weekday of the other week.
    open spec fn spec_collides(&self, other: &Week<T>) -> bool {
        exists|i: int| 0 <= i < 7 && (#[trigger] self.days()[i]).spec_collides(&other.days()[i])
    }

    fn collides(&self, other: &Week<T>) -> (r: bool) {
        let r = self.sunday.collides(&other.sunday) || self.monday.collides(&other.monday)
            || self.tuesday.collides(&other.tuesday) || self.wednesday.collides(&other.wednesday)
            || self.thursday.collides(&other.thursday) || self.friday.collides(&other.friday)
            || self.saturday.collides(&other.saturday);
        proof {
            if r {
                if self.sunday.spec_collides(&other.sunday) {
                    assert(self.days()[0].spec_collides(&other.days()[0]));
                } else if self.monday.spec_collides(&other.monday) {
                    assert(self.days()[1].spec_collides(&other.days()[1]));
                } else if self.tuesday.spec_collides(&other.tuesday) {
                    assert(self.days()[2].spec_collides(&other.days()[2]));
                } else if self.wednesday.spec_collides(&other.wednesday) {
                    assert(self.days()[3].spec_collides(&other.days()[3]));
                } else if self.thursday.spec_collides(&other.thursday) {
                    assert(self.days()[4].spec_collides(&other.days()[4]));
                } else if self.friday.spec_collides(&other.friday) {
                    assert(self.days()[5].spec_collides(&other.days()[5]));
                } else {
                    assert(self.days()[6].spec_collides(&other.days()[6]));
                }
            } else {
                assert forall|i: int| 0 <= i < 7 implies !(#[trigger] self.days()[i]).spec_collides(
                    &other.days()[i],
                ) by {
                    assert(i == 0 || i == 1 || i == 2 || i == 3 || i == 4 || i == 5 || i == 6);
                }
            }
        }
        r
    }
}

} // verus!

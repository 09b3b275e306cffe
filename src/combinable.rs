//! Schedules that can be laid over one another.
use vstd::prelude::*;

verus! {

pub trait Combinable: Sized {
    /// `r` holds what `self` and `other` hold, together.
    spec fn spec_combined(&self, other: &Self, r: &Self) -> bool;

    fn combine(&self, other: &Self) -> (r: Self)
        ensures
            self.spec_combined(other, &r),
    ;
}

} // verus!

//! Things that may overlap in time.
use vstd::prelude::*;

verus! {

pub trait Collidable {
    /// `self` and `other` claim a common stretch of time.
    spec fn spec_collides(&self, other: &Self) -> bool;

    fn collides(&self, other: &Self) -> (r: bool)
        ensures
            r == self.spec_collides(other),
    ;
}

} // verus!

//! Payloads that can be added together when their tasks are merged.
use vstd::prelude::*;

verus! {

pub trait Summable: Sized + View {
    /// The view of the sum of two payloads with views `a` and `b`.
    spec fn spec_plus(a: Self::V, b: Self::V) -> Self::V;

    fn plus(self, other: Self) -> (r: Self)
        ensures
            r@ == Self::spec_plus(self@, other@),
    ;
}

/// Counts add up, stopping at the largest `u32`.
impl Summable for u32 {
    open spec fn spec_plus(a: u32, b: u32) -> u32 {
        if a + b > u32::MAX {
            u32::MAX
        } else {
            (a + b) as u32
        }
    }

    fn plus(self, other: u32) -> (r: u32) {
        if self > u32::MAX - other {
            u32::MAX
        } else {
            self + other
        }
    }
}

} // verus!

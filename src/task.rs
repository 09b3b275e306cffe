//! A span of the day that carries a payload.
use vstd::prelude::*;

use crate::span::Span;

verus! {

#[derive(Debug, Clone, Copy, PartialEq, Eq)]
pub struct Task<T> {
    pub span: Span,
    pub info: T,
}

impl<T> Task<T> {
    pub fn new(span: Span, info: T) -> (t: Task<T>)
        ensures
            t.span == span,
            t.info == info,
    {
        Task { span, info }
    }
}

} // verus!

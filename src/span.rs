//! Half-open intervals of the day.
use vstd::prelude::*;

use crate::collidable::Collidable;
use crate::error::InvariantViolation;
use crate::time::Time;

verus! {

/// The interval `[start, end)`.
#[derive(Clone, Copy, Debug, Eq, PartialOrd, Ord, Hash)]
pub struct Span {
    pub start: Time,
    pub end: Time,
}

impl PartialEq for Span {
    fn eq(&self, other: &Span) -> (r: bool) {
        self.start.hour == other.start.hour && self.start.minutes == other.start.minutes
            && self.end.hour == other.end.hour && self.end.minutes == other.end.minutes
    }
}

impl vstd::std_specs::cmp::PartialEqSpecImpl for Span {
    open spec fn obeys_eq_spec() -> bool {
        true
    }

    open spec fn eq_spec(&self, other: &Span) -> bool {
        *self == *other
    }
}

/// The interiors of `a` and `b` overlap; touching ends do not count.
pub open spec fn overlap(a: Span, b: Span) -> bool {
    a.start.minute_of_day() < b.end.minute_of_day() && b.start.minute_of_day()
        < a.end.minute_of_day()
}

/// Spans in order of start, then of end.
pub open spec fn span_before(a: Span, b: Span) -> bool {
    a.start.before(b.start) || (a.start == b.start && a.end.before(b.end))
}

/// Building `[start, end)`: refused when the start is not before the end.
pub open spec fn span_from(start: Time, end: Time) -> Result<Span, InvariantViolation> {
    if start.before(end) {
        Ok(Span { start, end })
    } else {
        Err(InvariantViolation::EmptySpan)
    }
}

/// For valid times, building a span is refused exactly when the start is at
/// or after the end, and otherwise gives `[start, end)`.
pub proof fn lemma_span_construction(a: Time, b: Time)
    requires
        a.valid(),
        b.valid(),
    ensures
        span_from(a, b) is Err <==> a.minute_of_day() >= b.minute_of_day(),
        a.minute_of_day() < b.minute_of_day() ==> span_from(a, b) == Ok::<Span, InvariantViolation>(
            Span { start: a, end: b },
        ),
{
}

impl Span {
    /// Both ends are valid times and the span is not empty.
    pub open spec fn wf(self) -> bool {
        self.start.valid() && self.end.valid() && self.start.before(self.end)
    }

    pub open spec fn spec_duration(self) -> int {
        self.end.minute_of_day() - self.start.minute_of_day()
    }

    pub fn new(start: Time, end: Time) -> (s: Span)
        requires
            start.valid(),
            end.valid(),
            start.before(end),
        ensures
            s.start == start,
            s.end == end,
            s.wf(),
    {
        Span { start, end }
    }

    /// Builds `[start, end)`, refusing a span whose start is not before its end.
    pub fn try_new(start: Time, end: Time) -> (r: Result<Span, InvariantViolation>)
        requires
            start.valid(),
            end.valid(),
        ensures
            r == span_from(start, end),
            start.before(end) ==> r == Ok::<Span, InvariantViolation>(Span { start, end }),
            !start.before(end) ==> r == Err::<Span, InvariantViolation>(
                InvariantViolation::EmptySpan,
            ),
    {
        if start.is_before(&end) {
            Ok(Span { start, end })
        } else {
            Err(InvariantViolation::EmptySpan)
        }
    }

    /// Length in minutes.
    pub fn duration(&self) -> (r: u64)
        requires
            self.wf(),
        ensures
            r == self.spec_duration(),
    {
        self.end.minutes_since(&self.start)
    }

    /// `self` comes strictly before `other` in span order.
    pub fn is_before(&self, other: &Span) -> (r: bool)
        ensures
            r == span_before(*self, *other),
    {
        self.start.is_before(&other.start) || (self.start.hour == other.start.hour
            && self.start.minutes == other.start.minutes && self.end.is_before(&other.end))
    }

    /// `start - end`, both zero-padded.
    pub fn to_string(&self) -> (r: String)
        ensures
            r@ == crate::time::time_text(self.start) + " - "@ + crate::time::time_text(
                self.end,
            ),
    {
        let mut out = self.start.to_string();
        proof { reveal_strlit(" - "); }
        out.append(" - ");
        let e = self.end.to_string();
        out.append(e.as_str());
        out
    }
}

impl Collidable for Span {
    open spec fn spec_collides(&self, other: &Span) -> bool {
        overlap(*self, *other)
    }

    fn collides(&self, other: &Span) -> (r: bool) {
        let a = self.start.hour as u32 * 60 + self.start.minutes as u32;
        let b = self.end.hour as u32 * 60 + self.end.minutes as u32;
        let c = other.start.hour as u32 * 60 + other.start.minutes as u32;
        let d = other.end.hour as u32 * 60 + other.end.minutes as u32;
        assert(a == self.start.minute_of_day() && b == self.end.minute_of_day());
        assert(c == other.start.minute_of_day() && d == other.end.minute_of_day());
        a < d && c < b
    }
}

} // verus!

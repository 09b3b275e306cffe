//! Why an input was refused.
use vstd::prelude::*;

verus! {

/// A malformed textual field of the feed.
#[derive(Clone, Copy, Debug, PartialEq, Eq)]
pub enum ParseError {
    /// The separator between the fields is missing.
    MissingSeparator,
    /// A field is not a run of decimal digits that fits in a byte.
    InvalidNumber,
    /// The fields read, but name no instant of the day.
    OutOfRange,
    /// The text splits into the wrong number of fields.
    FieldCount,
    /// The text names no weekday.
    UnknownDay,
}

/// A value that breaks an invariant of the schedule model.
#[derive(Clone, Copy, Debug, PartialEq, Eq)]
pub enum InvariantViolation {
    /// A span whose start is not before its end.
    EmptySpan,
    /// A subject without commissions.
    EmptySubject,
    /// A meeting time outside `00:00 ..= 24:00`.
    InvalidTime,
}

} // verus!

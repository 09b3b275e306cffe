//! Instants of the day.
use vstd::prelude::*;

use crate::error::ParseError;
use crate::text::{
    byte_of, chars_of, lemma_padded_of_text, lemma_padded_reads_back, padded, parse_byte,
    push_padded, push_separator, split_once, split_position, all_digits, first_at,
    lemma_first_at_unique, is_digit, decimal_value, lemma_decimal_nonneg,
};

verus! {

/// An instant of the day, at minute precision.
#[derive(Clone, Copy, Debug, PartialEq, Eq, PartialOrd, Ord, Hash)]
pub struct Time {
    pub hour: u8,
    pub minutes: u8,
}

/// `hour` and `minutes` name an instant in `00:00 ..= 24:00`.
pub open spec fn valid_time(hour: int, minutes: int) -> bool {
    (hour < 24 || (hour == 24 && minutes == 0)) && 0 <= minutes < 60 && 0 <= hour
}

/// The zero-padded form `HH:MM`.
pub open spec fn time_text(t: Time) -> Seq<char> {
    padded(t.hour as int) + seq![':'] + padded(t.minutes as int)
}

/// What `Time::parse` makes of a text.
pub open spec fn time_from_text(s: Seq<char>) -> Result<Time, ParseError> {
    match split_once(s, ':') {
        None => Err(ParseError::MissingSeparator),
        Some((h, m)) => match (byte_of(h), byte_of(m)) {
            (Some(hour), Some(minutes)) => if valid_time(hour as int, minutes as int) {
                Ok(Time { hour, minutes })
            } else {
                Err(ParseError::OutOfRange)
            },
            _ => Err(ParseError::InvalidNumber),
        },
    }
}

/// A text in the canonical form: two digits, a colon, two digits.
pub open spec fn is_padded_time_text(s: Seq<char>) -> bool {
    &&& s.len() == 5
    &&& s[2] == ':'
    &&& is_digit(s[0]) && is_digit(s[1]) && is_digit(s[3]) && is_digit(s[4])
}

impl Time {
    /// The time is valid when it lies in `00:00 ..= 24:00`.
    pub open spec fn valid(self) -> bool {
        valid_time(self.hour as int, self.minutes as int)
    }

    /// Minutes elapsed since midnight.
    pub open spec fn minute_of_day(self) -> int {
        self.hour * 60 + self.minutes
    }

    /// The order of the day: by hour, then by minute.
    pub open spec fn before(self, other: Time) -> bool {
        self.hour < other.hour || (self.hour == other.hour && self.minutes < other.minutes)
    }

    pub fn new(hour: u8, minutes: u8) -> (t: Time)
        requires
            valid_time(hour as int, minutes as int),
        ensures
            t.hour == hour,
            t.minutes == minutes,
    {
        Time { hour, minutes }
    }

    /// Reads `HH:MM`; zero-padding is optional.
    pub fn parse(s: &str) -> (r: Result<Time, ParseError>)
        ensures
            r == time_from_text(s@),
    {
        let cs = chars_of(s);
        match split_position(&cs, ':') {
            None => Err(ParseError::MissingSeparator),
            Some(i) => {
                let n = cs.len();
                let h = parse_byte(&cs, 0, i);
                let m = parse_byte(&cs, i + 1, n);
                match (h, m) {
                    (Some(hour), Some(minutes)) => {
                        if (hour < 24 || (hour == 24 && minutes == 0)) && minutes < 60 {
                            Ok(Time { hour, minutes })
                        } else {
                            Err(ParseError::OutOfRange)
                        }
                    },
                    _ => Err(ParseError::InvalidNumber),
                }
            },
        }
    }

    /// The zero-padded form `HH:MM`.
    pub fn to_string(&self) -> (r: String)
        ensures
            r@ == time_text(*self),
    {
        let mut out = String::new();
        push_padded(&mut out, self.hour);
        push_separator(&mut out, ':');
        push_padded(&mut out, self.minutes);
        assert(out@ =~= time_text(*self));
        out
    }

    /// Whole minutes from `earlier` to `self`.
    pub fn minutes_since(&self, earlier: &Time) -> (r: u64)
        requires
            earlier.minute_of_day() <= self.minute_of_day(),
        ensures
            r == self.minute_of_day() - earlier.minute_of_day(),
    {
        (self.hour as u64 * 60 + self.minutes as u64) - (earlier.hour as u64 * 60
            + earlier.minutes as u64)
    }

    /// `self` comes strictly before `other` in the day.
    pub fn is_before(&self, other: &Time) -> (r: bool)
        ensures
            r == self.before(*other),
    {
        self.hour < other.hour || (self.hour == other.hour && self.minutes < other.minutes)
    }
}

/// Printing a valid time and reading the text back gives the same time.
pub proof fn lemma_time_text_round_trip(t: Time)
    requires
        t.valid(),
    ensures
        time_from_text(time_text(t)) == Ok::<Time, ParseError>(t),
{
    let s = time_text(t);
    let h = padded(t.hour as int);
    let m = padded(t.minutes as int);
    lemma_padded_reads_back(t.hour as int);
    lemma_padded_reads_back(t.minutes as int);
    let i = h.len() as int;
    assert(s[i] == ':');
    assert forall|k: int| 0 <= k < i implies s[k] != ':' by {
        assert(s[k] == h[k]);
        assert(is_digit(h[k]));
    }
    assert(first_at(s, ':', i));
    let j = choose|j: int| first_at(s, ':', j);
    lemma_first_at_unique(s, ':', i, j);
    assert(s.subrange(0, i) =~= h);
    assert(s.subrange(i + 1, s.len() as int) =~= m);
}

/// Reading a time written as `HH:MM` and printing it gives the same text back.
pub proof fn lemma_time_parse_then_print(s: Seq<char>)
    requires
        is_padded_time_text(s),
        time_from_text(s) is Ok,
    ensures
        time_text(time_from_text(s)->Ok_0) == s,
{
    assert(first_at(s, ':', 2));
    let j = choose|j: int| first_at(s, ':', j);
    lemma_first_at_unique(s, ':', 2, j);
    let h = s.subrange(0, 2);
    let m = s.subrange(3, 5);
    assert(all_digits(h)) by {
        assert forall|k: int| 0 <= k < 2 implies is_digit(#[trigger] h[k]) by {
            assert(h[k] == s[k]);
        }
    }
    assert(all_digits(m)) by {
        assert forall|k: int| 0 <= k < 2 implies is_digit(#[trigger] m[k]) by {
            assert(m[k] == s[k + 3]);
        }
    }
    assert(s.subrange(3, s.len() as int) =~= m);
    assert(split_once(s, ':') == Some((h, m)));
    lemma_decimal_nonneg(h);
    lemma_decimal_nonneg(m);
    lemma_padded_of_text(h);
    lemma_padded_of_text(m);
    let t = time_from_text(s)->Ok_0;
    assert(t.hour as int == decimal_value(h));
    assert(t.minutes as int == decimal_value(m));
    assert(time_text(t) =~= s);
}

} // verus!

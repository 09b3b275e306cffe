//! Subject codes of the form `HH.LL`.
use vstd::prelude::*;
use vstd::string::*;

use crate::error::ParseError;
use crate::text::{
    byte_of, chars_of, padded, parse_byte, push_padded, push_separator, split_once,
    split_position, first_at, lemma_first_at_unique, lemma_padded_reads_back, is_digit,
};

verus! {

/// A subject identifier: two numeric fields separated by a dot.
#[derive(Clone, Copy, Debug, Eq, PartialOrd, Ord, Hash)]
pub struct Code {
    pub high: u8,
    pub low: u8,
}

impl PartialEq for Code {
    fn eq(&self, other: &Code) -> (r: bool) {
        self.high == other.high && self.low == other.low
    }
}

impl vstd::std_specs::cmp::PartialEqSpecImpl for Code {
    open spec fn obeys_eq_spec() -> bool {
        true
    }

    open spec fn eq_spec(&self, other: &Code) -> bool {
        *self == *other
    }
}

/// The printed form, both fields zero-padded (`03.06`).
pub open spec fn code_text(c: Code) -> Seq<char> {
    padded(c.high as int) + seq!['.'] + padded(c.low as int)
}

/// What `Code::parse` makes of a text.
pub open spec fn code_from_text(s: Seq<char>) -> Result<Code, ParseError> {
    match split_once(s, '.') {
        None => Err(ParseError::MissingSeparator),
        Some((h, l)) => match (byte_of(h), byte_of(l)) {
            (Some(high), Some(low)) => Ok(Code { high, low }),
            _ => Err(ParseError::InvalidNumber),
        },
    }
}

impl Code {
    /// Reads `HH.LL`; zero-padding is optional.
    pub fn parse(s: &str) -> (r: Result<Code, ParseError>)
        ensures
            r == code_from_text(s@),
    {
        let cs = chars_of(s);
        Code::parse_chars(&cs)
    }

    /// Reads `HH.LL` from its characters.
    pub fn parse_chars(cs: &Vec<char>) -> (r: Result<Code, ParseError>)
        ensures
            r == code_from_text(cs@),
    {
        match split_position(cs, '.') {
            None => Err(ParseError::MissingSeparator),
            Some(i) => {
                let n = cs.len();
                let h = parse_byte(cs, 0, i);
                let l = parse_byte(cs, i + 1, n);
                match (h, l) {
                    (Some(high), Some(low)) => Ok(Code { high, low }),
                    _ => Err(ParseError::InvalidNumber),
                }
            },
        }
    }

    /// The zero-padded form `HH.LL`.
    pub fn to_string(&self) -> (r: String)
        ensures
            r@ == code_text(*self),
    {
        let mut out = String::new();
        push_padded(&mut out, self.high);
        push_separator(&mut out, '.');
        push_padded(&mut out, self.low);
        assert(out@ =~= code_text(*self));
        out
    }

    /// Reads the code that opens a line of a code list: its first five
    /// characters (or all of them, when there are fewer).
    pub fn parse_prefix(line: &str) -> (r: Result<Code, ParseError>)
        ensures
            r == code_from_text(
                line@.subrange(0, if line@.len() < 5 { line@.len() as int } else { 5 }),
            ),
    {
        let n = line.unicode_len();
        let end: usize = if n < 5 { n } else { 5 };
        let head = line.substring_char(0, end);
        Code::parse(head)
    }

    pub fn same(&self, other: &Code) -> (r: bool)
        ensures
            r == (*self == *other),
    {
        self.high == other.high && self.low == other.low
    }
}

/// Every code reads back from its printed form.
pub proof fn lemma_code_text_round_trip(c: Code)
    ensures
        code_from_text(code_text(c)) == Ok::<Code, ParseError>(c),
{
    let s = code_text(c);
    let h = padded(c.high as int);
    let l = padded(c.low as int);
    lemma_padded_reads_back(c.high as int);
    lemma_padded_reads_back(c.low as int);
    let i = h.len() as int;
    assert(s[i] == '.');
    assert forall|k: int| 0 <= k < i implies s[k] != '.' by {
        assert(s[k] == h[k]);
        assert(is_digit(h[k]));
    }
    assert(first_at(s, '.', i));
    let j = choose|j: int| first_at(s, '.', j);
    lemma_first_at_unique(s, '.', i, j);
    assert(s.subrange(0, i) =~= h);
    assert(s.subrange(i + 1, s.len() as int) =~= l);
}

} // verus!

//! Character-level helpers shared by the parsers and printers of the feed's
//! textual fields (`HH:MM`, `HH.LL`, `D/M/YY`, weekday names).
use vstd::prelude::*;
use vstd::string::*;

verus! {

pub open spec fn is_digit(c: char) -> bool {
    '0' <= c && c <= '9'
}

pub open spec fn digit_value(c: char) -> int {
    c as int - '0' as int
}

pub open spec fn all_digits(s: Seq<char>) -> bool {
    forall|i: int| 0 <= i < s.len() ==> is_digit(#[trigger] s[i])
}

/// The number that a run of decimal digits denotes.
pub open spec fn decimal_value(s: Seq<char>) -> int
    decreases s.len(),
{
    if s.len() == 0 {
        0
    } else {
        decimal_value(s.drop_last()) * 10 + digit_value(s.last())
    }
}

/// What a field holding a byte in decimal reads as: one or more digits whose
/// value fits in a `u8`, or nothing.
pub open spec fn byte_of(s: Seq<char>) -> Option<u8> {
    if 0 < s.len() && all_digits(s) && decimal_value(s) <= 255 {
        Some(decimal_value(s) as u8)
    } else {
        None
    }
}

/// `i` is the first position of `c` in `s`.
pub open spec fn first_at(s: Seq<char>, c: char, i: int) -> bool {
    &&& 0 <= i < s.len()
    &&& s[i] == c
    &&& forall|k: int| 0 <= k < i ==> s[k] != c
}

/// The text before and after the first occurrence of `c`, if there is one.
pub open spec fn split_once(s: Seq<char>, c: char) -> Option<(Seq<char>, Seq<char>)> {
    if exists|i: int| first_at(s, c, i) {
        let i = choose|i: int| first_at(s, c, i);
        Some((s.subrange(0, i), s.subrange(i + 1, s.len() as int)))
    } else {
        None
    }
}

pub open spec fn digit_char(d: int) -> char {
    if d <= 0 {
        '0'
    } else if d == 1 {
        '1'
    } else if d == 2 {
        '2'
    } else if d == 3 {
        '3'
    } else if d == 4 {
        '4'
    } else if d == 5 {
        '5'
    } else if d == 6 {
        '6'
    } else if d == 7 {
        '7'
    } else if d == 8 {
        '8'
    } else {
        '9'
    }
}

/// A byte written in decimal with at least two digits (`7` is `"07"`).
pub open spec fn padded(v: int) -> Seq<char> {
    if v < 100 {
        seq![digit_char(v / 10), digit_char(v % 10)]
    } else {
        seq![digit_char(v / 100), digit_char((v / 10) % 10), digit_char(v % 10)]
    }
}

pub proof fn lemma_first_at_unique(s: Seq<char>, c: char, i: int, j: int)
    requires
        first_at(s, c, i),
        first_at(s, c, j),
    ensures
        i == j,
{
}

proof fn lemma_digit_char(d: int)
    requires
        0 <= d < 10,
    ensures
        is_digit(digit_char(d)),
        digit_value(digit_char(d)) == d,
        digit_char(d) != ':',
        digit_char(d) != '.',
        digit_char(d) != '/',
{
}

/// Printing a byte with `padded` and reading it back gives the byte.
pub proof fn lemma_padded_reads_back(v: int)
    requires
        0 <= v <= 255,
    ensures
        all_digits(padded(v)),
        decimal_value(padded(v)) == v,
        byte_of(padded(v)) == Some(v as u8),
        forall|k: int| 0 <= k < padded(v).len() ==> is_digit(#[trigger] padded(v)[k]),
{
    reveal_with_fuel(decimal_value, 4);
    let p = padded(v);
    if v < 100 {
        lemma_digit_char(v / 10);
        lemma_digit_char(v % 10);
        assert(p.drop_last() =~= seq![digit_char(v / 10)]);
        assert(p.drop_last().drop_last() =~= Seq::<char>::empty());
        assert(decimal_value(p.drop_last()) == v / 10);
    } else {
        lemma_digit_char(v / 100);
        lemma_digit_char((v / 10) % 10);
        lemma_digit_char(v % 10);
        assert(p.drop_last() =~= seq![digit_char(v / 100), digit_char((v / 10) % 10)]);
        assert(p.drop_last().drop_last() =~= seq![digit_char(v / 100)]);
        assert(p.drop_last().drop_last().drop_last() =~= Seq::<char>::empty());
        assert(decimal_value(p.drop_last()) == (v / 100) * 10 + (v / 10) % 10);
        assert(v / 10 == (v / 100) * 10 + (v / 10) % 10);
    }
}

/// A digit run of at least two digits is what `padded` prints for its value
/// exactly when it has no superfluous leading zero.
pub proof fn lemma_padded_of_text(s: Seq<char>)
    requires
        2 <= s.len() <= 3,
        all_digits(s),
        s.len() == 3 ==> s[0] != '0',
        decimal_value(s) <= 255,
    ensures
        padded(decimal_value(s)) == s,
{
    reveal_with_fuel(decimal_value, 4);
    let v = decimal_value(s);
    if s.len() == 2 {
        assert(s.drop_last().drop_last() =~= Seq::<char>::empty());
        assert(decimal_value(s.drop_last()) == digit_value(s[0]));
        assert(v == digit_value(s[0]) * 10 + digit_value(s[1]));
        assert(v / 10 == digit_value(s[0]));
        assert(v % 10 == digit_value(s[1]));
        assert(padded(v) =~= s);
    } else {
        assert(s.drop_last().drop_last().drop_last() =~= Seq::<char>::empty());
        assert(s.drop_last().drop_last() =~= seq![s[0]]);
        assert(decimal_value(s.drop_last().drop_last()) == digit_value(s[0]));
        assert(decimal_value(s.drop_last()) == digit_value(s[0]) * 10 + digit_value(s[1]));
        assert(v == digit_value(s[0]) * 100 + digit_value(s[1]) * 10 + digit_value(s[2]));
        assert(v / 100 == digit_value(s[0]));
        assert(v / 10 == digit_value(s[0]) * 10 + digit_value(s[1]));
        assert((v / 10) % 10 == digit_value(s[1]));
        assert(v % 10 == digit_value(s[2]));
        assert(padded(v) =~= s);
    }
}

pub proof fn lemma_decimal_nonneg(s: Seq<char>)
    requires
        all_digits(s),
    ensures
        decimal_value(s) >= 0,
    decreases s.len(),
{
    if s.len() > 0 {
        lemma_decimal_nonneg(s.drop_last());
    }
}

/// Leading digits never denote more than the whole run.
proof fn lemma_decimal_prefix(s: Seq<char>, k: int)
    requires
        all_digits(s),
        0 <= k <= s.len(),
    ensures
        decimal_value(s.subrange(0, k)) <= decimal_value(s),
    decreases s.len(),
{
    if k < s.len() {
        let t = s.drop_last();
        assert(t.subrange(0, k) =~= s.subrange(0, k));
        lemma_decimal_prefix(t, k);
        lemma_decimal_nonneg(t);
    } else {
        assert(s.subrange(0, k) =~= s);
    }
}

/// The characters of `s`, one per element.
pub fn chars_of(s: &str) -> (r: Vec<char>)
    ensures
        r@ == s@,
{
    let n = s.unicode_len();
    let mut r: Vec<char> = Vec::new();
    let mut i: usize = 0;
    while i < n
        invariant
            i <= n,
            n == s@.len(),
            r@ == s@.subrange(0, i as int),
        decreases n - i,
    {
        let c = s.get_char(i);
        r.push(c);
        i = i + 1;
        assert(r@ =~= s@.subrange(0, i as int));
    }
    assert(r@ =~= s@);
    r
}

/// Reads `s[lo..hi]` as a byte in decimal.
pub fn parse_byte(s: &Vec<char>, lo: usize, hi: usize) -> (r: Option<u8>)
    requires
        lo <= hi <= s@.len(),
    ensures
        r == byte_of(s@.subrange(lo as int, hi as int)),
{
    let ghost whole = s@.subrange(lo as int, hi as int);
    if lo == hi {
        return None;
    }
    let mut v: u32 = 0;
    let mut i: usize = lo;
    while i < hi
        invariant
            lo <= i <= hi,
            hi <= s@.len(),
            whole == s@.subrange(lo as int, hi as int),
            all_digits(s@.subrange(lo as int, i as int)),
            v == decimal_value(s@.subrange(lo as int, i as int)),
            v <= 255,
        decreases hi - i,
    {
        let c = s[i];
        if !('0' <= c && c <= '9') {
            assert(!is_digit(whole[i - lo]));
            return None;
        }
        let ghost before = s@.subrange(lo as int, i as int);
        let ghost after = s@.subrange(lo as int, i + 1);
        assert(after.drop_last() =~= before);
        assert(after.last() == c);
        let d = (c as u32) - ('0' as u32);
        v = v * 10 + d;
        i = i + 1;
        assert(all_digits(after)) by {
            assert forall|k: int| 0 <= k < after.len() implies is_digit(#[trigger] after[k]) by {
                if k < before.len() {
                    assert(after[k] == before[k]);
                }
            }
        }
        if v > 255 {
            proof {
                if all_digits(whole) {
                    lemma_decimal_prefix(whole, i - lo);
                    assert(whole.subrange(0, i - lo) =~= after);
                }
            }
            return None;
        }
    }
    assert(s@.subrange(lo as int, i as int) =~= whole);
    Some(v as u8)
}

/// The first position of `c` in `s[from..]`, if any.
pub fn find_char(s: &Vec<char>, c: char, from: usize) -> (r: Option<usize>)
    requires
        from <= s@.len(),
    ensures
        match r {
            Some(i) => from <= i < s@.len() && s@[i as int] == c && forall|k: int|
                from <= k < i ==> s@[k] != c,
            None => forall|k: int| from <= k < s@.len() ==> s@[k] != c,
        },
{
    let mut i: usize = from;
    while i < s.len()
        invariant
            from <= i <= s@.len(),
            forall|k: int| from <= k < i ==> s@[k] != c,
        decreases s@.len() - i,
    {
        if s[i] == c {
            return Some(i);
        }
        i = i + 1;
    }
    None
}

/// Splits `s` at the first `c`, returning the position of that `c`.
pub fn split_position(s: &Vec<char>, c: char) -> (r: Option<usize>)
    ensures
        match r {
            Some(i) => i < s@.len() && split_once(s@, c) == Some(
                (s@.subrange(0, i as int), s@.subrange(i + 1, s@.len() as int)),
            ),
            None => split_once(s@, c) is None,
        },
{
    let r = find_char(s, c, 0);
    match r {
        Some(i) => {
            assert(first_at(s@, c, i as int));
            proof {
                let j = choose|j: int| first_at(s@, c, j);
                lemma_first_at_unique(s@, c, i as int, j);
            }
        },
        None => {
            assert(!exists|i: int| first_at(s@, c, i));
        },
    }
    r
}

fn digit_text(d: u8) -> (r: &'static str)
    requires
        d < 10,
    ensures
        r@ == seq![digit_char(d as int)],
{
    if d == 0 {
        proof { reveal_strlit("0"); }
        "0"
    } else if d == 1 {
        proof { reveal_strlit("1"); }
        "1"
    } else if d == 2 {
        proof { reveal_strlit("2"); }
        "2"
    } else if d == 3 {
        proof { reveal_strlit("3"); }
        "3"
    } else if d == 4 {
        proof { reveal_strlit("4"); }
        "4"
    } else if d == 5 {
        proof { reveal_strlit("5"); }
        "5"
    } else if d == 6 {
        proof { reveal_strlit("6"); }
        "6"
    } else if d == 7 {
        proof { reveal_strlit("7"); }
        "7"
    } else if d == 8 {
        proof { reveal_strlit("8"); }
        "8"
    } else {
        proof { reveal_strlit("9"); }
        "9"
    }
}

/// Appends `v` in decimal, zero-padded to two digits.
pub fn push_padded(out: &mut String, v: u8)
    ensures
        final(out)@ == old(out)@ + padded(v as int),
{
    if v >= 100 {
        out.append(digit_text(v / 100));
        out.append(digit_text((v / 10) % 10));
    } else {
        out.append(digit_text(v / 10));
    }
    out.append(digit_text(v % 10));
    assert(out@ =~= old(out)@ + padded(v as int));
}

/// Appends the one-character string `c` (one of `:`, `.`).
pub fn push_separator(out: &mut String, c: char)
    requires
        c == ':' || c == '.',
    ensures
        final(out)@ == old(out)@.push(c),
{
    if c == ':' {
        proof { reveal_strlit(":"); }
        out.append(":");
    } else {
        proof { reveal_strlit("."); }
        out.append(".");
    }
    assert(out@ =~= old(out)@.push(c));
}

} // verus!

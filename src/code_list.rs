//! Lists of subject codes: one code per line, with comments.
use vstd::prelude::*;

use crate::code::{code_from_text, Code};
use crate::error::ParseError;
use crate::feed::fields;
use crate::text::chars_of;

verus! {

/// White space as Unicode's White_Space property has it.
pub open spec fn is_space(c: char) -> bool {
    ||| c == ' '
    ||| ('\t' <= c && c <= '\r')
    ||| c == '\u{85}'
    ||| c == '\u{a0}'
    ||| c == '\u{1680}'
    ||| ('\u{2000}' <= c && c <= '\u{200a}')
    ||| c == '\u{2028}'
    ||| c == '\u{2029}'
    ||| c == '\u{202f}'
    ||| c == '\u{205f}'
    ||| c == '\u{3000}'
}

fn space(c: char) -> (r: bool)
    ensures
        r == is_space(c),
{
    c == ' ' || ('\t' <= c && c <= '\r') || c == '\u{85}' || c == '\u{a0}' || c == '\u{1680}'
        || ('\u{2000}' <= c && c <= '\u{200a}') || c == '\u{2028}' || c == '\u{2029}' || c
        == '\u{202f}' || c == '\u{205f}' || c == '\u{3000}'
}

/// `s` without its leading white space.
pub open spec fn strip_front(s: Seq<char>) -> Seq<char>
    decreases s.len(),
{
    if s.len() > 0 && is_space(s[0]) {
        strip_front(s.drop_first())
    } else {
        s
    }
}

/// `s` without its trailing white space.
pub open spec fn strip_back(s: Seq<char>) -> Seq<char>
    decreases s.len(),
{
    if s.len() > 0 && is_space(s.last()) {
        strip_back(s.drop_last())
    } else {
        s
    }
}

pub open spec fn trimmed(s: Seq<char>) -> Seq<char> {
    strip_back(strip_front(s))
}

/// What a line contributes: nothing when, trimmed, it is empty or starts with
/// `#`; else the code that its first five characters (or all, if fewer) read.
pub open spec fn line_code(l: Seq<char>) -> Option<Result<Code, ParseError>> {
    let t = trimmed(l);
    if t.len() == 0 || t[0] == '#' {
        None
    } else {
        Some(code_from_text(t.subrange(0, if t.len() < 5 { t.len() as int } else { 5 })))
    }
}

/// The codes of the lines, in order; the first line that does not read stops
/// the list with its error.
pub open spec fn codes_from(ls: Seq<Seq<char>>) -> Result<Seq<Code>, ParseError>
    decreases ls.len(),
{
    if ls.len() == 0 {
        Ok(Seq::empty())
    } else {
        match codes_from(ls.drop_last()) {
            Err(e) => Err(e),
            Ok(cs) => match line_code(ls.last()) {
                None => Ok(cs),
                Some(Err(e)) => Err(e),
                Some(Ok(c)) => Ok(cs.push(c)),
            },
        }
    }
}

/// The codes of a list, its lines separated by `\n`.
pub open spec fn codes_of_text(text: Seq<char>) -> Result<Seq<Code>, ParseError> {
    codes_from(fields(text, '\n'))
}

proof fn lemma_fields_extend(s: Seq<char>, j: int)
    requires
        0 <= j <= s.len(),
    ensures
        fields(s.subrange(0, j), '\n').len() <= fields(s, '\n').len(),
        forall|i: int|
            0 <= i < fields(s.subrange(0, j), '\n').len() - 1 ==> (#[trigger] fields(
                s.subrange(0, j),
                '\n',
            )[i]) == fields(s, '\n')[i],
    decreases s.len() - j,
{
    crate::feed::lemma_fields_nonempty(s.subrange(0, j), '\n');
    if j < s.len() {
        lemma_fields_extend(s, j + 1);
        let a = fields(s.subrange(0, j), '\n');
        let b = fields(s.subrange(0, j + 1), '\n');
        assert(s.subrange(0, j + 1).drop_last() =~= s.subrange(0, j));
        assert forall|i: int| 0 <= i < a.len() - 1 implies #[trigger] a[i] == fields(s, '\n')[i] by {
            assert(b[i] == a[i]);
        }
    } else {
        assert(s.subrange(0, j) =~= s);
    }
}

proof fn lemma_error_stays(ls: Seq<Seq<char>>, m: int)
    requires
        0 <= m <= ls.len(),
        codes_from(ls.subrange(0, m)) is Err,
    ensures
        codes_from(ls) == codes_from(ls.subrange(0, m)),
    decreases ls.len() - m,
{
    if m < ls.len() {
        let t = ls.drop_last();
        assert(t.subrange(0, m) =~= ls.subrange(0, m));
        lemma_error_stays(t, m);
    } else {
        assert(ls.subrange(0, m) =~= ls);
    }
}

fn copy_range(v: &Vec<char>, lo: usize, hi: usize) -> (r: Vec<char>)
    requires
        lo <= hi <= v@.len(),
    ensures
        r@ == v@.subrange(lo as int, hi as int),
{
    let mut r: Vec<char> = Vec::new();
    let mut i: usize = lo;
    while i < hi
        invariant
            lo <= i <= hi,
            hi <= v@.len(),
            r@ == v@.subrange(lo as int, i as int),
        decreases hi - i,
    {
        r.push(v[i]);
        i = i + 1;
        assert(r@ =~= v@.subrange(lo as int, i as int));
    }
    r
}

fn trim_chars(l: &Vec<char>) -> (r: Vec<char>)
    ensures
        r@ == trimmed(l@),
{
    let n = l.len();
    let mut a: usize = 0;
    assert(l@.subrange(0, n as int) =~= l@);
    while a < n && space(l[a])
        invariant
            a <= n,
            n == l@.len(),
            strip_front(l@) == strip_front(l@.subrange(a as int, n as int)),
        decreases n - a,
    {
        assert(l@.subrange(a as int, n as int).drop_first() =~= l@.subrange(a + 1, n as int));
        a = a + 1;
    }
    let front = copy_range(l, a, n);
    let m = front.len();
    let mut b: usize = m;
    assert(front@.subrange(0, m as int) =~= front@);
    while b > 0 && space(front[b - 1])
        invariant
            b <= m,
            m == front@.len(),
            strip_back(front@) == strip_back(front@.subrange(0, b as int)),
        decreases b,
    {
        assert(front@.subrange(0, b as int).drop_last() =~= front@.subrange(0, b - 1));
        b = b - 1;
    }
    copy_range(&front, 0, b)
}

fn read_line(l: &Vec<char>) -> (r: Option<Result<Code, ParseError>>)
    ensures
        r == line_code(l@),
{
    let t = trim_chars(l);
    if t.len() == 0 || t[0] == '#' {
        return None;
    }
    let end: usize = if t.len() < 5 { t.len() } else { 5 };
    let head = copy_range(&t, 0, end);
    Some(Code::parse_chars(&head))
}

/// Reads a list of codes: each line is trimmed; empty lines and lines that
/// start with `#` are skipped; the first five characters of every other line
/// (or all of them, if fewer) are read as a code.
pub fn codes_from_text(text: &str) -> (r: Result<Vec<Code>, ParseError>)
    ensures
        match r {
            Ok(v) => codes_of_text(text@) == Ok::<Seq<Code>, ParseError>(v@),
            Err(e) => codes_of_text(text@) == Err::<Seq<Code>, ParseError>(e),
        },
{
    let cs = chars_of(text);
    let n = cs.len();
    let mut out: Vec<Code> = Vec::new();
    let mut line: Vec<char> = Vec::new();
    let ghost mut done: Seq<Seq<char>> = Seq::empty();
    let mut k: usize = 0;
    assert(cs@.subrange(0, 0) =~= Seq::<char>::empty());
    assert(fields(cs@.subrange(0, 0), '\n') =~= done.push(line@));
    while k < n
        invariant
            k <= n,
            n == cs@.len(),
            cs@ == text@,
            fields(cs@.subrange(0, k as int), '\n') == done.push(line@),
            codes_from(done) == Ok::<Seq<Code>, ParseError>(out@),
        decreases n - k,
    {
        let c = cs[k];
        proof {
            assert(cs@.subrange(0, k + 1).drop_last() =~= cs@.subrange(0, k as int));
            assert(cs@.subrange(0, k + 1).last() == c);
        }
        if c == '\n' {
            let got = read_line(&line);
            proof {
                assert(done.push(line@).drop_last() =~= done);
            }
            match got {
                None => {},
                Some(Err(e)) => {
                    proof {
                        let p = done.push(line@);
                        assert(codes_from(p) == Err::<Seq<Code>, ParseError>(e));
                        lemma_fields_extend(cs@, k + 1);
                        let f = fields(cs@.subrange(0, k + 1), '\n');
                        assert(f =~= p.push(Seq::<char>::empty()));
                        let all = fields(cs@, '\n');
                        assert(all.subrange(0, p.len() as int) =~= p) by {
                            assert forall|i: int| 0 <= i < p.len() implies #[trigger] all[i] == p[i] by {
                                assert(f[i] == p[i]);
                            }
                        }
                        assert(cs@ == text@);
                        lemma_error_stays(all, p.len() as int);
                    }
                    return Err(e);
                },
                Some(Ok(code)) => {
                    out.push(code);
                },
            }
            proof {
                done = done.push(line@);
            }
            line = Vec::new();
            assert(fields(cs@.subrange(0, k + 1), '\n') =~= done.push(line@));
        } else {
            let ghost before = line@;
            line.push(c);
            assert(fields(cs@.subrange(0, k + 1), '\n') =~= done.push(line@));
        }
        k = k + 1;
    }
    assert(cs@.subrange(0, n as int) =~= cs@);
    let got = read_line(&line);
    proof {
        assert(done.push(line@).drop_last() =~= done);
    }
    match got {
        None => Ok(out),
        Some(Err(e)) => Err(e),
        Some(Ok(code)) => {
            out.push(code);
            Ok(out)
        },
    }
}

} // verus!

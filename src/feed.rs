//! The records of the commissions feed, and the readers of its text fields.
use vstd::prelude::*;

use crate::code::Code;
use crate::error::ParseError;
use crate::text::{byte_of, chars_of, parse_byte, split_once, split_position};

verus! {

#[derive(Debug, Clone, Copy, PartialEq, Eq)]
pub enum SubjectType {
    Annual,
    Normal,
    Seminary,
}

/// A calendar date as the feed writes it, `D/M/YY`.
#[derive(Debug, Clone, Copy, PartialEq, Eq)]
pub struct Date {
    pub day: u8,
    pub month: u8,
    pub year: u8,
}

/// A weekday of the feed.
#[derive(Debug, Clone, Copy, PartialEq, Eq)]
pub enum Day {
    Monday,
    Tuesday,
    Wednesday,
    Thursday,
    Friday,
    Saturday,
    Sunday,
}

/// A clock reading of the feed, `HH:MM`, not yet checked against the day.
#[derive(Debug, Clone, Copy, PartialEq, Eq)]
pub struct Time {
    pub hours: u8,
    pub minutes: u8,
}

#[derive(Debug, Clone, Copy, PartialEq, Eq)]
pub struct Span {
    pub start: Time,
    pub end: Time,
}

/// One weekly meeting of a commission.
#[derive(Debug, PartialEq, Eq)]
pub struct CommissionTime {
    pub day: Day,
    pub classroom: Option<String>,
    pub building: String,
    pub span: Span,
}

/// The meetings of a commission; the feed writes one, a list, or nothing.
#[derive(Debug, PartialEq, Eq)]
pub struct CommissionTimes(pub Vec<CommissionTime>);

/// One record of the feed: one commission of one subject.
#[derive(Debug, PartialEq, Eq)]
pub struct SubjectCommission {
    pub subject_code: Code,
    pub subject_name: String,
    pub subject_type: SubjectType,
    pub course_start: Date,
    pub course_end: Date,
    pub commission_name: String,
    pub commission_id: String,
    pub quota: u64,
    pub enrolled_students: u64,
    pub course_commission_times: CommissionTimes,
}

/// The whole feed.
#[derive(Debug, PartialEq, Eq)]
pub struct SubjectCommissions(pub Vec<SubjectCommission>);

#[derive(Debug, Clone, Copy, PartialEq, Eq)]
pub enum DegreeLevel {
    Graduate,
}

#[derive(Debug, PartialEq, Eq)]
pub struct CareerPlanInfo {
    pub name: String,
    pub career: String,
    pub degree_level: DegreeLevel,
    pub since: String,
}

#[derive(Debug, PartialEq, Eq)]
pub struct CareerPlans(pub Vec<CareerPlanInfo>);

#[derive(Debug, PartialEq, Eq)]
pub struct Link {
    pub rel: String,
    pub href: String,
}

#[derive(Debug, PartialEq, Eq)]
pub struct Student {
    pub code: String,
    pub dni: String,
    pub civic_id: String,
    pub career: String,
    pub career_code: String,
    pub active_career_plans: CareerPlans,
    pub plan: String,
    pub email: String,
    pub start_year: String,
    pub start_period: String,
    pub student_type: String,
    pub links: Vec<Link>,
}

#[derive(Debug, PartialEq, Eq)]
pub struct People {
    pub dni: String,
    pub first_name: String,
    pub last_name: String,
    pub email_itba: String,
    pub links: Vec<Link>,
}

/// What `Time::parse` makes of a text: two bytes around a colon.
pub open spec fn clock_from_text(s: Seq<char>) -> Result<Time, ParseError> {
    match split_once(s, ':') {
        None => Err(ParseError::MissingSeparator),
        Some((h, m)) => match (byte_of(h), byte_of(m)) {
            (Some(hours), Some(minutes)) => Ok(Time { hours, minutes }),
            _ => Err(ParseError::InvalidNumber),
        },
    }
}

impl Time {
    /// Reads `HH:MM`; the fields are bytes, not yet checked against the day.
    pub fn parse(s: &str) -> (r: Result<Time, ParseError>)
        ensures
            r == clock_from_text(s@),
    {
        let cs = chars_of(s);
        match split_position(&cs, ':') {
            None => Err(ParseError::MissingSeparator),
            Some(i) => {
                let n = cs.len();
                let h = parse_byte(&cs, 0, i);
                let m = parse_byte(&cs, i + 1, n);
                match (h, m) {
                    (Some(hours), Some(minutes)) => Ok(Time { hours, minutes }),
                    _ => Err(ParseError::InvalidNumber),
                }
            },
        }
    }
}

/// The fields of `s` between the occurrences of `c`.
pub open spec fn fields(s: Seq<char>, c: char) -> Seq<Seq<char>>
    decreases s.len(),
{
    if s.len() == 0 {
        seq![Seq::<char>::empty()]
    } else {
        let f = fields(s.drop_last(), c);
        if s.last() == c {
            f.push(Seq::<char>::empty())
        } else {
            f.update(f.len() - 1, f.last().push(s.last()))
        }
    }
}

pub proof fn lemma_fields_nonempty(s: Seq<char>, c: char)
    ensures
        fields(s, c).len() >= 1,
    decreases s.len(),
{
    if s.len() > 0 {
        lemma_fields_nonempty(s.drop_last(), c);
    }
}

/// What `Date::parse` makes of a text: three bytes separated by slashes.
pub open spec fn date_from_text(s: Seq<char>) -> Result<Date, ParseError> {
    let fs = fields(s, '/');
    if exists|i: int| 0 <= i < fs.len() && (#[trigger] byte_of(fs[i])) is None {
        Err(ParseError::InvalidNumber)
    } else if fs.len() != 3 {
        Err(ParseError::FieldCount)
    } else {
        Ok(
            Date {
                day: byte_of(fs[0])->Some_0,
                month: byte_of(fs[1])->Some_0,
                year: byte_of(fs[2])->Some_0,
            },
        )
    }
}

/// The positions `[from, to)` of each field of `cs[0..k]`.
spec fn ranges_match(cs: Seq<char>, k: int, ranges: Seq<(usize, usize)>) -> bool {
    let f = fields(cs.subrange(0, k), '/');
    &&& ranges.len() == f.len()
    &&& forall|r: int|
        0 <= r < ranges.len() ==> (#[trigger] ranges[r]).0 <= ranges[r].1 <= k && cs.subrange(
            ranges[r].0 as int,
            ranges[r].1 as int,
        ) == f[r]
    &&& ranges.last().1 == k
}

impl Date {
    /// Reads `D/M/YY`.
    pub fn parse(s: &str) -> (r: Result<Date, ParseError>)
        ensures
            r == date_from_text(s@),
    {
        let cs = chars_of(s);
        let n = cs.len();
        let mut ranges: Vec<(usize, usize)> = Vec::new();
        ranges.push((0, 0));
        let mut k: usize = 0;
        proof {
            assert(cs@.subrange(0, 0) =~= Seq::<char>::empty());
            assert(cs@.subrange(0, 0) =~= fields(cs@.subrange(0, 0), '/')[0]);
        }
        while k < n
            invariant
                n == cs@.len(),
                k <= n,
                ranges@.len() >= 1,
                ranges_match(cs@, k as int, ranges@),
            decreases n - k,
        {
            let ghost before = cs@.subrange(0, k as int);
            let ghost after = cs@.subrange(0, k + 1);
            proof {
                assert(after.drop_last() =~= before);
                lemma_fields_nonempty(before, '/');
            }
            let last = ranges.len() - 1;
            if cs[k] == '/' {
                ranges.push((k + 1, k + 1));
                proof {
                    let f = fields(after, '/');
                    assert(cs@.subrange(k + 1, k + 1) =~= Seq::<char>::empty());
                    assert forall|r: int| 0 <= r < ranges@.len() implies (#[trigger] ranges@[r]).0
                        <= ranges@[r].1 <= k + 1 && cs@.subrange(
                        ranges@[r].0 as int,
                        ranges@[r].1 as int,
                    ) == f[r] by {}
                }
            } else {
                let (from, _) = ranges[last];
                let ghost prev = ranges@;
                ranges[last] = (from, k + 1);
                proof {
                    let f = fields(after, '/');
                    let g = fields(before, '/');
                    assert(cs@.subrange(from as int, k + 1) =~= cs@.subrange(from as int, k as int).push(
                        cs@[k as int],
                    ));
                    assert forall|r: int| 0 <= r < ranges@.len() implies (#[trigger] ranges@[r]).0
                        <= ranges@[r].1 <= k + 1 && cs@.subrange(
                        ranges@[r].0 as int,
                        ranges@[r].1 as int,
                    ) == f[r] by {
                        if r < last {
                            assert(ranges@[r] == prev[r]);
                        }
                    }
                }
            }
            k = k + 1;
        }
        assert(cs@.subrange(0, n as int) =~= cs@);
        let ghost fs = fields(cs@, '/');
        let mut values: Vec<u8> = Vec::new();
        let mut r: usize = 0;
        while r < ranges.len()
            invariant
                ranges_match(cs@, n as int, ranges@),
                n == cs@.len(),
                cs@ == s@,
                cs@.subrange(0, n as int) == cs@,
                fs == fields(s@, '/'),
                r <= ranges@.len(),
                values@.len() == r,
                forall|q: int| 0 <= q < r ==> byte_of(#[trigger] fs[q]) == Some(values@[q]),
            decreases ranges@.len() - r,
        {
            let (from, to) = ranges[r];
            assert(ranges@[r as int] == (from, to));
            assert(cs@.subrange(from as int, to as int) == fs[r as int]);
            match parse_byte(&cs, from, to) {
                Some(v) => values.push(v),
                None => {
                    assert(byte_of(fs[r as int]) is None);
                    return Err(ParseError::InvalidNumber);
                },
            }
            r = r + 1;
        }
        assert(!exists|i: int| 0 <= i < fs.len() && (#[trigger] byte_of(fs[i])) is None) by {
            assert forall|i: int| 0 <= i < fs.len() implies (#[trigger] byte_of(fs[i])) is Some by {
                assert(byte_of(fs[i]) == Some(values@[i]));
            }
        }
        if values.len() != 3 {
            return Err(ParseError::FieldCount);
        }
        Ok(Date { day: values[0], month: values[1], year: values[2] })
    }
}

/// `c` folded to lower case when it is an ASCII capital.
pub open spec fn folded(c: char) -> int {
    if 'A' <= c && c <= 'Z' {
        c as int + 32
    } else {
        c as int
    }
}

/// `a` and `b` are the same text when ASCII case is ignored.
pub open spec fn same_ignoring_case(a: Seq<char>, b: Seq<char>) -> bool {
    a.len() == b.len() && forall|i: int| 0 <= i < a.len() ==> folded(#[trigger] a[i]) == folded(b[i])
}

pub open spec fn day_name(d: Day) -> Seq<char> {
    match d {
        Day::Monday => seq!['m', 'o', 'n', 'd', 'a', 'y'],
        Day::Tuesday => seq!['t', 'u', 'e', 's', 'd', 'a', 'y'],
        Day::Wednesday => seq!['w', 'e', 'd', 'n', 'e', 's', 'd', 'a', 'y'],
        Day::Thursday => seq!['t', 'h', 'u', 'r', 's', 'd', 'a', 'y'],
        Day::Friday => seq!['f', 'r', 'i', 'd', 'a', 'y'],
        Day::Saturday => seq!['s', 'a', 't', 'u', 'r', 'd', 'a', 'y'],
        Day::Sunday => seq!['s', 'u', 'n', 'd', 'a', 'y'],
    }
}

/// The canonical upper-case name of a weekday.
pub open spec fn upper_name(d: Day) -> Seq<char> {
    match d {
        Day::Monday => seq!['M', 'O', 'N', 'D', 'A', 'Y'],
        Day::Tuesday => seq!['T', 'U', 'E', 'S', 'D', 'A', 'Y'],
        Day::Wednesday => seq!['W', 'E', 'D', 'N', 'E', 'S', 'D', 'A', 'Y'],
        Day::Thursday => seq!['T', 'H', 'U', 'R', 'S', 'D', 'A', 'Y'],
        Day::Friday => seq!['F', 'R', 'I', 'D', 'A', 'Y'],
        Day::Saturday => seq!['S', 'A', 'T', 'U', 'R', 'D', 'A', 'Y'],
        Day::Sunday => seq!['S', 'U', 'N', 'D', 'A', 'Y'],
    }
}

/// What `Day::parse` makes of a text: the weekday whose English name it is, in
/// any case.
pub open spec fn day_from_text(s: Seq<char>) -> Result<Day, ParseError> {
    if same_ignoring_case(s, day_name(Day::Monday)) {
        Ok(Day::Monday)
    } else if same_ignoring_case(s, day_name(Day::Tuesday)) {
        Ok(Day::Tuesday)
    } else if same_ignoring_case(s, day_name(Day::Wednesday)) {
        Ok(Day::Wednesday)
    } else if same_ignoring_case(s, day_name(Day::Thursday)) {
        Ok(Day::Thursday)
    } else if same_ignoring_case(s, day_name(Day::Friday)) {
        Ok(Day::Friday)
    } else if same_ignoring_case(s, day_name(Day::Saturday)) {
        Ok(Day::Saturday)
    } else if same_ignoring_case(s, day_name(Day::Sunday)) {
        Ok(Day::Sunday)
    } else {
        Err(ParseError::UnknownDay)
    }
}

fn fold_char(c: char) -> (r: u32)
    ensures
        r == folded(c),
{
    if 'A' <= c && c <= 'Z' {
        (c as u32) + 32
    } else {
        c as u32
    }
}

fn matches_name(cs: &Vec<char>, name: &Vec<char>) -> (r: bool)
    ensures
        r == same_ignoring_case(cs@, name@),
{
    if cs.len() != name.len() {
        return false;
    }
    let mut i: usize = 0;
    while i < cs.len()
        invariant
            cs@.len() == name@.len(),
            i <= cs@.len(),
            forall|k: int| 0 <= k < i ==> folded(#[trigger] cs@[k]) == folded(name@[k]),
        decreases cs@.len() - i,
    {
        if fold_char(cs[i]) != fold_char(name[i]) {
            return false;
        }
        i = i + 1;
    }
    true
}

impl Day {
    /// Reads an English weekday name, in any case (`MONDAY`, `monday`, `Monday`).
    pub fn parse(s: &str) -> (r: Result<Day, ParseError>)
        ensures
            r == day_from_text(s@),
    {
        let cs = chars_of(s);
        let monday = vec!['m', 'o', 'n', 'd', 'a', 'y'];
        let tuesday = vec!['t', 'u', 'e', 's', 'd', 'a', 'y'];
        let wednesday = vec!['w', 'e', 'd', 'n', 'e', 's', 'd', 'a', 'y'];
        let thursday = vec!['t', 'h', 'u', 'r', 's', 'd', 'a', 'y'];
        let friday = vec!['f', 'r', 'i', 'd', 'a', 'y'];
        let saturday = vec!['s', 'a', 't', 'u', 'r', 'd', 'a', 'y'];
        let sunday = vec!['s', 'u', 'n', 'd', 'a', 'y'];
        assert(monday@ =~= day_name(Day::Monday));
        assert(tuesday@ =~= day_name(Day::Tuesday));
        assert(wednesday@ =~= day_name(Day::Wednesday));
        assert(thursday@ =~= day_name(Day::Thursday));
        assert(friday@ =~= day_name(Day::Friday));
        assert(saturday@ =~= day_name(Day::Saturday));
        assert(sunday@ =~= day_name(Day::Sunday));
        if matches_name(&cs, &monday) {
            Ok(Day::Monday)
        } else if matches_name(&cs, &tuesday) {
            Ok(Day::Tuesday)
        } else if matches_name(&cs, &wednesday) {
            Ok(Day::Wednesday)
        } else if matches_name(&cs, &thursday) {
            Ok(Day::Thursday)
        } else if matches_name(&cs, &friday) {
            Ok(Day::Friday)
        } else if matches_name(&cs, &saturday) {
            Ok(Day::Saturday)
        } else if matches_name(&cs, &sunday) {
            Ok(Day::Sunday)
        } else {
            Err(ParseError::UnknownDay)
        }
    }

    /// The canonical upper-case name.
    pub fn to_upper_name(&self) -> (r: &'static str)
        ensures
            r@ == upper_name(*self),
            same_ignoring_case(r@, day_name(*self)),
    {
        match self {
            Day::Monday => {
                proof { reveal_strlit("MONDAY"); }
                assert("MONDAY"@ =~= upper_name(Day::Monday));
                "MONDAY"
            },
            Day::Tuesday => {
                proof { reveal_strlit("TUESDAY"); }
                assert("TUESDAY"@ =~= upper_name(Day::Tuesday));
                "TUESDAY"
            },
            Day::Wednesday => {
                proof { reveal_strlit("WEDNESDAY"); }
                assert("WEDNESDAY"@ =~= upper_name(Day::Wednesday));
                "WEDNESDAY"
            },
            Day::Thursday => {
                proof { reveal_strlit("THURSDAY"); }
                assert("THURSDAY"@ =~= upper_name(Day::Thursday));
                "THURSDAY"
            },
            Day::Friday => {
                proof { reveal_strlit("FRIDAY"); }
                assert("FRIDAY"@ =~= upper_name(Day::Friday));
                "FRIDAY"
            },
            Day::Saturday => {
                proof { reveal_strlit("SATURDAY"); }
                assert("SATURDAY"@ =~= upper_name(Day::Saturday));
                "SATURDAY"
            },
            Day::Sunday => {
                proof { reveal_strlit("SUNDAY"); }
                assert("SUNDAY"@ =~= upper_name(Day::Sunday));
                "SUNDAY"
            },
        }
    }
}

} // verus!

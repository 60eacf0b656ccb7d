//! Calendar dates and timestamps, their fixed text forms, and the parsing
//! and successor arithmetic the store's key formats and date-range scans use.
//!
//! A date renders as `YYYY-MM-DD` and a timestamp as
//! `YYYY-MM-DDTHH:MM:SS.sss`; both renderings are injective on valid values,
//! and parsing accepts exactly the rendered forms.

use vstd::arithmetic::div_mod::lemma_fundamental_div_mod_converse;
use vstd::prelude::*;

use crate::error::Error;

verus! {

/// A calendar date.
#[derive(Clone, Copy, Debug, PartialEq, Eq, Structural)]
pub struct Date {
    pub year: u32,
    pub month: u32,
    pub day: u32,
}

/// A calendar date with a time of day, millisecond precision.
#[derive(Clone, Copy, Debug, PartialEq, Eq, Structural)]
pub struct Timestamp {
    pub date: Date,
    pub hour: u32,
    pub minute: u32,
    pub second: u32,
    pub millisecond: u32,
}

/// Whether `year` is a leap year of the proleptic Gregorian calendar.
pub open spec fn spec_is_leap_year(year: int) -> bool {
    year % 4 == 0 && (year % 100 != 0 || year % 400 == 0)
}

/// The number of days of month `month` in year `year`.
pub open spec fn spec_days_in_month(year: int, month: int) -> int {
    if month == 2 {
        if spec_is_leap_year(year) {
            29
        } else {
            28
        }
    } else if month == 4 || month == 6 || month == 9 || month == 11 {
        30
    } else {
        31
    }
}

impl Date {
    /// A valid calendar date of the four-digit-year era.
    pub open spec fn valid(&self) -> bool {
        &&& 1 <= self.year <= 9999
    &&& 1 <= self.month <= 12
    &&& 1 <= self.day <= spec_days_in_month(self.year as int, self.month as int)
    }

    /// The greatest valid date.
    pub open spec fn is_max(&self) -> bool {
        self.year == 9999 && self.month == 12 && self.day == 31
    }

    /// Checks validity.
    pub fn check_valid(&self) -> (r: bool)
        ensures
            r == self.valid(),
    {
        1 <= self.year && self.year <= 9999 && 1 <= self.month && self.month <= 12 && 1 <= self.day
            && self.day <= days_in_month(self.year, self.month)
    }
}

impl Timestamp {
    /// A valid timestamp: a valid date and an in-range time of day.
    pub open spec fn valid(&self) -> bool {
        &&& self.date.valid()
    &&& self.hour < 24
    &&& self.minute < 60
    &&& self.second < 60
    &&& self.millisecond < 1000
    }

    /// Checks validity.
    pub fn check_valid(&self) -> (r: bool)
        ensures
            r == self.valid(),
    {
        self.date.check_valid() && self.hour < 24 && self.minute < 60 && self.second < 60
            && self.millisecond < 1000
    }
}

/// Whether `year` is a leap year.
pub fn is_leap_year(year: u32) -> (r: bool)
    ensures
        r == spec_is_leap_year(year as int),
{
    year % 4 == 0 && (year % 100 != 0 || year % 400 == 0)
}

/// The number of days of month `month` in year `year`.
pub fn days_in_month(year: u32, month: u32) -> (r: u32)
    ensures
        r == spec_days_in_month(year as int, month as int),
{
    if month == 2 {
        if is_leap_year(year) {
            29
        } else {
            28
        }
    } else if month == 4 || month == 6 || month == 9 || month == 11 {
        30
    } else {
        31
    }
}

/// The decimal digit character for `d`.
pub open spec fn digit_char(d: int) -> char {
    seq!['0', '1', '2', '3', '4', '5', '6', '7', '8', '9'][d]
}

/// Whether `c` is a decimal digit character.
pub open spec fn is_digit_char(c: char) -> bool {
    exists|d: int| 0 <= d < 10 && c == digit_char(d)
}

/// Two decimal digits, most significant first.
pub open spec fn digits2(n: int) -> Seq<char> {
    seq![digit_char(n / 10), digit_char(n % 10)]
}

/// Three decimal digits, most significant first.
pub open spec fn digits3(n: int) -> Seq<char> {
    seq![digit_char(n / 100)] + digits2(n % 100)
}

/// Four decimal digits, most significant first.
pub open spec fn digits4(n: int) -> Seq<char> {
    digits2(n / 100) + digits2(n % 100)
}

/// The `YYYY-MM-DD` text of a date.
pub open spec fn date_text(d: Date) -> Seq<char> {
    digits4(d.year as int) + seq!['-'] + digits2(d.month as int) + seq!['-'] + digits2(
        d.day as int,
    )
}

/// The `YYYY-MM-DDTHH:MM:SS.sss` text of a timestamp.
pub open spec fn timestamp_text(t: Timestamp) -> Seq<char> {
    date_text(t.date) + seq!['T'] + digits2(t.hour as int) + seq![':'] + digits2(t.minute as int)
        + seq![':'] + digits2(t.second as int) + seq!['.'] + digits3(t.millisecond as int)
}

/// Distinct digits render as distinct characters.
pub proof fn lemma_digit_char_injective(a: int, b: int)
    requires
        0 <= a < 10,
        0 <= b < 10,
        digit_char(a) == digit_char(b),
    ensures
        a == b,
{
    assert(digit_char(0) == '0');
    assert(digit_char(1) == '1');
    assert(digit_char(2) == '2');
    assert(digit_char(3) == '3');
    assert(digit_char(4) == '4');
    assert(digit_char(5) == '5');
    assert(digit_char(6) == '6');
    assert(digit_char(7) == '7');
    assert(digit_char(8) == '8');
    assert(digit_char(9) == '9');
}

/// A two-digit rendering determines its value.
pub proof fn lemma_digits2_determined(a: int, b: int)
    requires
        0 <= a < 100,
        0 <= b < 100,
        digits2(a) == digits2(b),
    ensures
        a == b,
{
    assert(digits2(a)[0] == digits2(b)[0]);
    assert(digits2(a)[1] == digits2(b)[1]);
    lemma_digit_char_injective(a / 10, b / 10);
    lemma_digit_char_injective(a % 10, b % 10);
}

/// A three-digit rendering determines its value.
pub proof fn lemma_digits3_determined(a: int, b: int)
    requires
        0 <= a < 1000,
        0 <= b < 1000,
        digits3(a) == digits3(b),
    ensures
        a == b,
{
    assert(digits3(a)[0] == digit_char(a / 100));
    assert(digits3(b)[0] == digit_char(b / 100));
    lemma_digit_char_injective(a / 100, b / 100);
    assert(digits2(a % 100) =~= digits3(a).subrange(1, 3));
    assert(digits2(b % 100) =~= digits3(b).subrange(1, 3));
    lemma_digits2_determined(a % 100, b % 100);
}

/// A four-digit rendering determines its value.
pub proof fn lemma_digits4_determined(a: int, b: int)
    requires
        0 <= a < 10000,
        0 <= b < 10000,
        digits4(a) == digits4(b),
    ensures
        a == b,
{
    assert(digits2(a / 100) =~= digits4(a).subrange(0, 2));
    assert(digits2(b / 100) =~= digits4(b).subrange(0, 2));
    assert(digits2(a % 100) =~= digits4(a).subrange(2, 4));
    assert(digits2(b % 100) =~= digits4(b).subrange(2, 4));
    lemma_digits2_determined(a / 100, b / 100);
    lemma_digits2_determined(a % 100, b % 100);
}

/// Digit characters grow with their digits.
pub proof fn lemma_digit_char_increasing(a: int, b: int)
    requires
        0 <= a < b < 10,
    ensures
        (digit_char(a) as u32) < (digit_char(b) as u32),
{
    assert(digit_char(0) == '0');
    assert(digit_char(1) == '1');
    assert(digit_char(2) == '2');
    assert(digit_char(3) == '3');
    assert(digit_char(4) == '4');
    assert(digit_char(5) == '5');
    assert(digit_char(6) == '6');
    assert(digit_char(7) == '7');
    assert(digit_char(8) == '8');
    assert(digit_char(9) == '9');
}

/// Two-digit renderings grow lexicographically with their values.
pub proof fn lemma_digits2_increasing(a: int, b: int)
    requires
        0 <= a < b < 100,
    ensures
        crate::strings::text_lt(digits2(a), digits2(b)),
{
    vstd::arithmetic::div_mod::lemma_div_is_ordered(a, b, 10);
    if a / 10 < b / 10 {
        lemma_digit_char_increasing(a / 10, b / 10);
        assert(crate::strings::text_lt(digits2(a), digits2(b)));
    } else {
        assert(a / 10 == b / 10);
        assert(a % 10 < b % 10) by {
            vstd::arithmetic::div_mod::lemma_fundamental_div_mod(a, 10);
            vstd::arithmetic::div_mod::lemma_fundamental_div_mod(b, 10);
        }
        lemma_digit_char_increasing(a % 10, b % 10);
        assert(digits2(a)[0] == digits2(b)[0]);
        assert(digits2(a).drop_first() =~= seq![digit_char(a % 10)]);
        assert(digits2(b).drop_first() =~= seq![digit_char(b % 10)]);
        assert(crate::strings::text_lt(
            seq![digit_char(a % 10)],
            seq![digit_char(b % 10)],
        ));
    }
}

/// Four-digit renderings grow lexicographically with their values.
pub proof fn lemma_digits4_increasing(a: int, b: int)
    requires
        0 <= a < b < 10000,
    ensures
        crate::strings::text_lt(digits4(a), digits4(b)),
{
    vstd::arithmetic::div_mod::lemma_div_is_ordered(a, b, 100);
    if a / 100 < b / 100 {
        lemma_digits2_increasing(a / 100, b / 100);
        crate::strings::lemma_text_lt_prefix_dominates(
            digits2(a / 100),
            digits2(b / 100),
            digits2(a % 100),
            digits2(b % 100),
        );
    } else {
        assert(a / 100 == b / 100);
        assert(a % 100 < b % 100) by {
            vstd::arithmetic::div_mod::lemma_fundamental_div_mod(a, 100);
            vstd::arithmetic::div_mod::lemma_fundamental_div_mod(b, 100);
        }
        lemma_digits2_increasing(a % 100, b % 100);
        crate::strings::lemma_text_lt_common_prefix(
            digits2(a / 100),
            digits2(a % 100),
            digits2(b % 100),
        );
    }
}

/// Date text grows lexicographically with the date: the rendering is
/// order-preserving, so an ordered store keeps date-prefixed keys grouped
/// by ascending date.
pub proof fn lemma_date_text_increasing(d1: Date, d2: Date)
    requires
        d1.valid(),
        d2.valid(),
        spec_date_lt(d1, d2),
    ensures
        crate::strings::text_lt(date_text(d1), date_text(d2)),
{
    let y1 = d1.year as int;
    let y2 = d2.year as int;
    let m1 = d1.month as int;
    let m2 = d2.month as int;
    let a1 = d1.day as int;
    let a2 = d2.day as int;
    if y1 < y2 {
        lemma_digits4_increasing(y1, y2);
        assert(date_text(d1) =~= digits4(y1) + (seq!['-'] + digits2(m1) + seq!['-'] + digits2(
            a1,
        )));
        assert(date_text(d2) =~= digits4(y2) + (seq!['-'] + digits2(m2) + seq!['-'] + digits2(
            a2,
        )));
        crate::strings::lemma_text_lt_prefix_dominates(
            digits4(y1),
            digits4(y2),
            seq!['-'] + digits2(m1) + seq!['-'] + digits2(a1),
            seq!['-'] + digits2(m2) + seq!['-'] + digits2(a2),
        );
    } else if m1 < m2 {
        assert(y1 == y2);
        lemma_digits2_increasing(m1, m2);
        assert(date_text(d1) =~= (digits4(y1) + seq!['-']) + (digits2(m1) + (seq!['-'] + digits2(
            a1,
        ))));
        assert(date_text(d2) =~= (digits4(y1) + seq!['-']) + (digits2(m2) + (seq!['-'] + digits2(
            a2,
        ))));
        crate::strings::lemma_text_lt_prefix_dominates(
            digits2(m1),
            digits2(m2),
            seq!['-'] + digits2(a1),
            seq!['-'] + digits2(a2),
        );
        crate::strings::lemma_text_lt_common_prefix(
            digits4(y1) + seq!['-'],
            digits2(m1) + (seq!['-'] + digits2(a1)),
            digits2(m2) + (seq!['-'] + digits2(a2)),
        );
    } else {
        assert(y1 == y2 && m1 == m2 && a1 < a2);
        lemma_digits2_increasing(a1, a2);
        assert(date_text(d1) =~= (digits4(y1) + seq!['-'] + digits2(m1) + seq!['-']) + digits2(
            a1,
        ));
        assert(date_text(d2) =~= (digits4(y1) + seq!['-'] + digits2(m1) + seq!['-']) + digits2(
            a2,
        ));
        crate::strings::lemma_text_lt_common_prefix(
            digits4(y1) + seq!['-'] + digits2(m1) + seq!['-'],
            digits2(a1),
            digits2(a2),
        );
    }
}

/// The pieces of a date's text: fixed length, fixed separators, and the
/// digit groups of the three components.
pub proof fn lemma_date_text_shape(d: Date)
    ensures
        date_text(d).len() == 10,
        date_text(d).subrange(0, 4) == digits4(d.year as int),
        date_text(d)[4] == '-',
        date_text(d).subrange(5, 7) == digits2(d.month as int),
        date_text(d)[7] == '-',
        date_text(d).subrange(8, 10) == digits2(d.day as int),
{
    assert(date_text(d).subrange(0, 4) =~= digits4(d.year as int));
    assert(date_text(d).subrange(5, 7) =~= digits2(d.month as int));
    assert(date_text(d).subrange(8, 10) =~= digits2(d.day as int));
}

/// The pieces of a timestamp's text: its date text as the leading ten
/// characters, fixed separators, and the digit groups of the time of day.
pub proof fn lemma_timestamp_text_shape(t: Timestamp)
    ensures
        timestamp_text(t).len() == 23,
        timestamp_text(t).subrange(0, 10) == date_text(t.date),
        timestamp_text(t)[10] == 'T',
        timestamp_text(t).subrange(11, 13) == digits2(t.hour as int),
        timestamp_text(t)[13] == ':',
        timestamp_text(t).subrange(14, 16) == digits2(t.minute as int),
        timestamp_text(t)[16] == ':',
        timestamp_text(t).subrange(17, 19) == digits2(t.second as int),
        timestamp_text(t)[19] == '.',
        timestamp_text(t).subrange(20, 23) == digits3(t.millisecond as int),
{
    lemma_date_text_shape(t.date);
    assert(timestamp_text(t).subrange(0, 10) =~= date_text(t.date));
    assert(timestamp_text(t).subrange(11, 13) =~= digits2(t.hour as int));
    assert(timestamp_text(t).subrange(14, 16) =~= digits2(t.minute as int));
    assert(timestamp_text(t).subrange(17, 19) =~= digits2(t.second as int));
    assert(timestamp_text(t).subrange(20, 23) =~= digits3(t.millisecond as int));
}

/// Distinct valid dates render as distinct text.
pub proof fn lemma_date_text_injective(a: Date, b: Date)
    requires
        a.valid(),
        b.valid(),
        date_text(a) == date_text(b),
    ensures
        a == b,
{
    lemma_date_text_shape(a);
    lemma_date_text_shape(b);
    lemma_digits4_determined(a.year as int, b.year as int);
    lemma_digits2_determined(a.month as int, b.month as int);
    lemma_digits2_determined(a.day as int, b.day as int);
}

/// Distinct valid timestamps render as distinct text.
pub proof fn lemma_timestamp_text_injective(a: Timestamp, b: Timestamp)
    requires
        a.valid(),
        b.valid(),
        timestamp_text(a) == timestamp_text(b),
    ensures
        a == b,
{
    lemma_timestamp_text_shape(a);
    lemma_timestamp_text_shape(b);
    lemma_date_text_injective(a.date, b.date);
    lemma_digits2_determined(a.hour as int, b.hour as int);
    lemma_digits2_determined(a.minute as int, b.minute as int);
    lemma_digits2_determined(a.second as int, b.second as int);
    lemma_digits3_determined(a.millisecond as int, b.millisecond as int);
}

/// Appends the digit character of `d` to `s`.
fn push_digit(s: &mut String, d: u32)
    requires
        d < 10,
    ensures
        final(s)@ == old(s)@ + seq![digit_char(d as int)],
{
    proof {
        reveal_strlit("0");
        reveal_strlit("1");
        reveal_strlit("2");
        reveal_strlit("3");
        reveal_strlit("4");
        reveal_strlit("5");
        reveal_strlit("6");
        reveal_strlit("7");
        reveal_strlit("8");
        reveal_strlit("9");
    }
    let t: &str = match d {
        0 => "0",
        1 => "1",
        2 => "2",
        3 => "3",
        4 => "4",
        5 => "5",
        6 => "6",
        7 => "7",
        8 => "8",
        _ => "9",
    };
    assert(t@ =~= seq![digit_char(d as int)]);
    s.append(t);
}

/// Appends the two-digit rendering of `n` to `s`.
fn push_digits2(s: &mut String, n: u32)
    requires
        n < 100,
    ensures
        final(s)@ == old(s)@ + digits2(n as int),
{
    push_digit(s, n / 10);
    push_digit(s, n % 10);
    assert(final(s)@ =~= old(s)@ + digits2(n as int));
}

/// Renders a date as `YYYY-MM-DD`.
pub fn render_date(d: &Date) -> (r: String)
    requires
        d.valid(),
    ensures
        r@ == date_text(*d),
{
    proof {
        reveal_strlit("-");
    }
    let mut s = String::new();
    push_digits2(&mut s, d.year / 100);
    push_digits2(&mut s, d.year % 100);
    s.append("-");
    push_digits2(&mut s, d.month);
    s.append("-");
    push_digits2(&mut s, d.day);
    assert(s@ =~= date_text(*d));
    s
}

/// Renders a timestamp as `YYYY-MM-DDTHH:MM:SS.sss`.
pub fn render_timestamp(t: &Timestamp) -> (r: String)
    requires
        t.valid(),
    ensures
        r@ == timestamp_text(*t),
{
    proof {
        reveal_strlit("T");
        reveal_strlit(":");
        reveal_strlit(".");
    }
    let mut s = render_date(&t.date);
    s.append("T");
    push_digits2(&mut s, t.hour);
    s.append(":");
    push_digits2(&mut s, t.minute);
    s.append(":");
    push_digits2(&mut s, t.second);
    s.append(".");
    push_digit(&mut s, t.millisecond / 100);
    push_digits2(&mut s, t.millisecond % 100);
    assert(s@ =~= timestamp_text(*t));
    s
}

/// The digit value of `c`, if `c` is a decimal digit character.
fn char_digit(c: char) -> (r: Option<u32>)
    ensures
        match r {
            Some(d) => d < 10 && c == digit_char(d as int),
            None => !is_digit_char(c),
        },
{
    proof {
        assert(digit_char(0) == '0');
        assert(digit_char(1) == '1');
        assert(digit_char(2) == '2');
        assert(digit_char(3) == '3');
        assert(digit_char(4) == '4');
        assert(digit_char(5) == '5');
        assert(digit_char(6) == '6');
        assert(digit_char(7) == '7');
        assert(digit_char(8) == '8');
        assert(digit_char(9) == '9');
    }
    match c {
        '0' => Some(0),
        '1' => Some(1),
        '2' => Some(2),
        '3' => Some(3),
        '4' => Some(4),
        '5' => Some(5),
        '6' => Some(6),
        '7' => Some(7),
        '8' => Some(8),
        '9' => Some(9),
        _ => None,
    }
}

/// Reads the two-digit number at position `i` of `s`.
fn read2(s: &str, i: usize) -> (r: Option<u32>)
    requires
        i + 2 <= s@.len(),
        s@.len() <= usize::MAX,
    ensures
        match r {
            Some(n) => n < 100 && s@.subrange(i as int, i + 2) == digits2(n as int),
            None => !is_digit_char(s@[i as int]) || !is_digit_char(s@[i + 1]),
        },
{
    let a = match char_digit(s.get_char(i)) {
        Some(d) => d,
        None => {
            return None;
        },
    };
    let b = match char_digit(s.get_char(i + 1)) {
        Some(d) => d,
        None => {
            return None;
        },
    };
    let n = a * 10 + b;
    proof {
        lemma_fundamental_div_mod_converse(n as int, 10, a as int, b as int);
        assert(s@.subrange(i as int, i + 2) =~= digits2(n as int));
    }
    Some(n)
}

/// Reads the four-digit number at position `i` of `s`.
fn read4(s: &str, i: usize) -> (r: Option<u32>)
    requires
        i + 4 <= s@.len(),
        s@.len() <= usize::MAX,
    ensures
        match r {
            Some(n) => n < 10000 && s@.subrange(i as int, i + 4) == digits4(n as int),
            None => exists|j: int| i <= j < i + 4 && !is_digit_char(s@[j]),
        },
{
    let hi = match read2(s, i) {
        Some(n) => n,
        None => {
            return None;
        },
    };
    let lo = match read2(s, i + 2) {
        Some(n) => n,
        None => {
            return None;
        },
    };
    let n = hi * 100 + lo;
    proof {
        lemma_fundamental_div_mod_converse(n as int, 100, hi as int, lo as int);
        assert(s@.subrange(i as int, i + 4) =~= digits4(n as int));
    }
    Some(n)
}

/// Reads the three-digit number at position `i` of `s`.
fn read3(s: &str, i: usize) -> (r: Option<u32>)
    requires
        i + 3 <= s@.len(),
        s@.len() <= usize::MAX,
    ensures
        match r {
            Some(n) => n < 1000 && s@.subrange(i as int, i + 3) == digits3(n as int),
            None => exists|j: int| i <= j < i + 3 && !is_digit_char(s@[j]),
        },
{
    let hi = match char_digit(s.get_char(i)) {
        Some(d) => d,
        None => {
            return None;
        },
    };
    let lo = match read2(s, i + 1) {
        Some(n) => n,
        None => {
            return None;
        },
    };
    let n = hi * 100 + lo;
    proof {
        lemma_fundamental_div_mod_converse(n as int, 100, hi as int, lo as int);
        assert(s@.subrange(i as int, i + 3) =~= digits3(n as int));
    }
    Some(n)
}

/// Parses `YYYY-MM-DD` text into the valid date it renders; rejects all
/// other text with `InvalidInput`.
pub fn parse_date(s: &str) -> (r: Result<Date, Error>)
    ensures
        match r {
            Ok(d) => d.valid() && s@ == date_text(d),
            Err(e) => e == Error::InvalidInput && (forall|d: Date|
                d.valid() ==> s@ != date_text(d)),
        },
{
    let len = s.unicode_len();
    if len != 10 {
        proof {
            assert forall|d: Date| d.valid() implies s@ != date_text(d) by {
                lemma_date_text_shape(d);
            }
        }
        return Err(Error::InvalidInput);
    }
    if s.get_char(4) != '-' || s.get_char(7) != '-' {
        proof {
            assert forall|d: Date| d.valid() implies s@ != date_text(d) by {
                lemma_date_text_shape(d);
            }
        }
        return Err(Error::InvalidInput);
    }
    let year_opt = read4(s, 0);
    let month_opt = read2(s, 5);
    let day_opt = read2(s, 8);
    match (year_opt, month_opt, day_opt) {
        (Some(year), Some(month), Some(day)) => {
            let d = Date { year, month, day };
            if d.check_valid() {
                proof {
                    lemma_date_text_shape(d);
                    assert(s@ =~= date_text(d));
                }
                Ok(d)
            } else {
                proof {
                    assert forall|x: Date| x.valid() implies s@ != date_text(x) by {
                        if s@ == date_text(x) {
                            lemma_date_text_shape(x);
                            assert(s@.subrange(0, 4) == digits4(x.year as int));
                            assert(s@.subrange(5, 7) == digits2(x.month as int));
                            assert(s@.subrange(8, 10) == digits2(x.day as int));
                            lemma_digits4_determined(x.year as int, year as int);
                            lemma_digits2_determined(x.month as int, month as int);
                            lemma_digits2_determined(x.day as int, day as int);
                        }
                    }
                }
                Err(Error::InvalidInput)
            }
        },
        _ => {
            proof {
                assert forall|x: Date| x.valid() implies s@ != date_text(x) by {
                    if s@ == date_text(x) {
                        lemma_date_text_shape(x);
                        lemma_digit_positions_date(x, s@);
                    }
                }
            }
            Err(Error::InvalidInput)
        },
    }
}

/// Every digit position of a date's text holds a digit character.
proof fn lemma_digit_positions_date(d: Date, s: Seq<char>)
    requires
        d.valid(),
        s == date_text(d),
    ensures
        forall|j: int|
            (0 <= j < 4 || 5 <= j < 7 || 8 <= j < 10) ==> #[trigger] is_digit_char(s[j]),
{
    lemma_date_text_shape(d);
    let y = d.year as int;
    let m = d.month as int;
    let dd = d.day as int;
    assert(s[0] == digit_char(y / 100 / 10) && 0 <= y / 100 / 10 < 10);
    assert(s[1] == digit_char(y / 100 % 10) && 0 <= y / 100 % 10 < 10);
    assert(s[2] == digit_char(y % 100 / 10) && 0 <= y % 100 / 10 < 10);
    assert(s[3] == digit_char(y % 100 % 10) && 0 <= y % 100 % 10 < 10);
    assert(s[5] == digit_char(m / 10) && 0 <= m / 10 < 10);
    assert(s[6] == digit_char(m % 10) && 0 <= m % 10 < 10);
    assert(s[8] == digit_char(dd / 10) && 0 <= dd / 10 < 10);
    assert(s[9] == digit_char(dd % 10) && 0 <= dd % 10 < 10);
}

/// Every digit position of a timestamp's text holds a digit character.
proof fn lemma_digit_positions_timestamp(t: Timestamp, s: Seq<char>)
    requires
        t.valid(),
        s == timestamp_text(t),
    ensures
        forall|j: int|
            (0 <= j < 4 || 5 <= j < 7 || 8 <= j < 10 || 11 <= j < 13 || 14 <= j < 16 || 17 <= j
                < 19 || 20 <= j < 23) ==> #[trigger] is_digit_char(s[j]),
{
    lemma_timestamp_text_shape(t);
    lemma_digit_positions_date(t.date, s.subrange(0, 10));
    assert(forall|j: int| 0 <= j < 10 ==> s[j] == s.subrange(0, 10)[j]);
    let h = t.hour as int;
    let mi = t.minute as int;
    let sec = t.second as int;
    let ms = t.millisecond as int;
    assert(s[11] == digit_char(h / 10) && 0 <= h / 10 < 10);
    assert(s[12] == digit_char(h % 10) && 0 <= h % 10 < 10);
    assert(s[14] == digit_char(mi / 10) && 0 <= mi / 10 < 10);
    assert(s[15] == digit_char(mi % 10) && 0 <= mi % 10 < 10);
    assert(s[17] == digit_char(sec / 10) && 0 <= sec / 10 < 10);
    assert(s[18] == digit_char(sec % 10) && 0 <= sec % 10 < 10);
    assert(s[20] == digit_char(ms / 100) && 0 <= ms / 100 < 10);
    assert(s[21] == digit_char(ms % 100 / 10) && 0 <= ms % 100 / 10 < 10);
    assert(s[22] == digit_char(ms % 100 % 10) && 0 <= ms % 100 % 10 < 10);
}

/// Parses `YYYY-MM-DDTHH:MM:SS.sss` text into the valid timestamp it
/// renders; rejects all other text with `InvalidInput`.
pub fn parse_timestamp(s: &str) -> (r: Result<Timestamp, Error>)
    ensures
        match r {
            Ok(t) => t.valid() && s@ == timestamp_text(t),
            Err(e) => e == Error::InvalidInput && (forall|t: Timestamp|
                t.valid() ==> s@ != timestamp_text(t)),
        },
{
    let len = s.unicode_len();
    if len != 23 {
        proof {
            assert forall|t: Timestamp| t.valid() implies s@ != timestamp_text(t) by {
                lemma_timestamp_text_shape(t);
            }
        }
        return Err(Error::InvalidInput);
    }
    if s.get_char(4) != '-' || s.get_char(7) != '-' || s.get_char(10) != 'T' || s.get_char(13)
        != ':' || s.get_char(16) != ':' || s.get_char(19) != '.' {
        proof {
            assert forall|t: Timestamp| t.valid() implies s@ != timestamp_text(t) by {
                lemma_timestamp_text_shape(t);
                if s@ == timestamp_text(t) {
                    lemma_date_text_shape(t.date);
                    assert(s@[4] == timestamp_text(t).subrange(0, 10)[4]);
                    assert(s@[7] == timestamp_text(t).subrange(0, 10)[7]);
                }
            }
        }
        return Err(Error::InvalidInput);
    }
    let year_opt = read4(s, 0);
    let month_opt = read2(s, 5);
    let day_opt = read2(s, 8);
    let hour_opt = read2(s, 11);
    let minute_opt = read2(s, 14);
    let second_opt = read2(s, 17);
    let milli_opt = read3(s, 20);
    match (year_opt, month_opt, day_opt, hour_opt, minute_opt, second_opt, milli_opt) {
        (Some(year), Some(month), Some(day), Some(hour), Some(minute), Some(second), Some(
            millisecond,
        )) => {
            let t = Timestamp { date: Date { year, month, day }, hour, minute, second, millisecond };
            if t.check_valid() {
                proof {
                    lemma_timestamp_text_shape(t);
                    lemma_date_text_shape(t.date);
                    assert(s@.subrange(0, 10) =~= date_text(t.date));
                    assert(s@ =~= timestamp_text(t));
                }
                Ok(t)
            } else {
                proof {
                    assert forall|x: Timestamp| x.valid() implies s@ != timestamp_text(x) by {
                        if s@ == timestamp_text(x) {
                            lemma_timestamp_text_shape(x);
                            lemma_date_text_shape(x.date);
                            assert(s@.subrange(0, 10) == date_text(x.date));
                            assert(s@.subrange(0, 4) =~= date_text(x.date).subrange(0, 4));
                            assert(s@.subrange(5, 7) =~= date_text(x.date).subrange(5, 7));
                            assert(s@.subrange(8, 10) =~= date_text(x.date).subrange(8, 10));
                            lemma_digits4_determined(x.date.year as int, year as int);
                            lemma_digits2_determined(x.date.month as int, month as int);
                            lemma_digits2_determined(x.date.day as int, day as int);
                            lemma_digits2_determined(x.hour as int, hour as int);
                            lemma_digits2_determined(x.minute as int, minute as int);
                            lemma_digits2_determined(x.second as int, second as int);
                            lemma_digits3_determined(x.millisecond as int, millisecond as int);
                        }
                    }
                }
                Err(Error::InvalidInput)
            }
        },
        _ => {
            proof {
                assert forall|x: Timestamp| x.valid() implies s@ != timestamp_text(x) by {
                    if s@ == timestamp_text(x) {
                        lemma_digit_positions_timestamp(x, s@);
                    }
                }
            }
            Err(Error::InvalidInput)
        },
    }
}

/// Lexicographic order on dates.
pub open spec fn spec_date_le(a: Date, b: Date) -> bool {
    a.year < b.year || (a.year == b.year && (a.month < b.month || (a.month == b.month && a.day
        <= b.day)))
}

/// Strict lexicographic order on dates.
pub open spec fn spec_date_lt(a: Date, b: Date) -> bool {
    spec_date_le(a, b) && a != b
}

/// Compares two dates.
pub fn date_le(a: &Date, b: &Date) -> (r: bool)
    ensures
        r == spec_date_le(*a, *b),
{
    a.year < b.year || (a.year == b.year && (a.month < b.month || (a.month == b.month && a.day
        <= b.day)))
}

/// A measure that strictly increases from a valid date to its successor.
pub open spec fn date_ord(d: Date) -> int {
    d.year * 372 + d.month * 31 + d.day
}

/// The measure respects the date order on valid dates.
pub proof fn lemma_date_ord_le(a: Date, b: Date)
    requires
        a.valid(),
        b.valid(),
        spec_date_le(a, b),
    ensures
        date_ord(a) <= date_ord(b),
        a != b ==> date_ord(a) < date_ord(b),
{
    assert(spec_days_in_month(a.year as int, a.month as int) <= 31);
    assert(spec_days_in_month(b.year as int, b.month as int) <= 31);
}

/// The day after `d`.
pub open spec fn spec_next_day(d: Date) -> Date {
    if d.day < spec_days_in_month(d.year as int, d.month as int) {
        Date { year: d.year, month: d.month, day: (d.day + 1) as u32 }
    } else if d.month < 12 {
        Date { year: d.year, month: (d.month + 1) as u32, day: 1 }
    } else {
        Date { year: (d.year + 1) as u32, month: 1, day: 1 }
    }
}

/// The successor of a valid date is the least valid date strictly after it.
pub proof fn lemma_next_day_successor(d: Date)
    requires
        d.valid(),
        !d.is_max(),
    ensures
        spec_next_day(d).valid(),
        spec_date_lt(d, spec_next_day(d)),
        date_ord(d) < date_ord(spec_next_day(d)),
        forall|x: Date| x.valid() ==> (spec_date_lt(d, x) <==> spec_date_le(spec_next_day(d), x)),
{
    let n = spec_next_day(d);
    assert forall|x: Date| x.valid() implies (spec_date_lt(d, x) <==> spec_date_le(n, x)) by {
        assert(x.day <= spec_days_in_month(x.year as int, x.month as int));
        assert(spec_days_in_month(x.year as int, x.month as int) <= 31);
    }
}

/// Steps a valid date to the next day.
pub fn next_day(d: &Date) -> (r: Date)
    requires
        d.valid(),
        !d.is_max(),
    ensures
        r == spec_next_day(*d),
        r.valid(),
        spec_date_lt(*d, r),
        date_ord(*d) < date_ord(r),
        forall|x: Date| x.valid() ==> (spec_date_lt(*d, x) <==> spec_date_le(r, x)),
{
    proof {
        lemma_next_day_successor(*d);
    }
    if d.day < days_in_month(d.year, d.month) {
        Date { year: d.year, month: d.month, day: d.day + 1 }
    } else if d.month < 12 {
        Date { year: d.year, month: d.month + 1, day: 1 }
    } else {
        Date { year: d.year + 1, month: 1, day: 1 }
    }
}

/// Lexicographic order on timestamps.
pub open spec fn spec_ts_le(a: Timestamp, b: Timestamp) -> bool {
    if a.date != b.date {
        spec_date_lt(a.date, b.date)
    } else if a.hour != b.hour {
        a.hour < b.hour
    } else if a.minute != b.minute {
        a.minute < b.minute
    } else if a.second != b.second {
        a.second < b.second
    } else {
        a.millisecond <= b.millisecond
    }
}

/// Compares two timestamps.
pub fn ts_le(a: &Timestamp, b: &Timestamp) -> (r: bool)
    ensures
        r == spec_ts_le(*a, *b),
{
    let ad = &a.date;
    let bd = &b.date;
    if ad.year != bd.year {
        ad.year < bd.year
    } else if ad.month != bd.month {
        ad.month < bd.month
    } else if ad.day != bd.day {
        ad.day < bd.day
    } else if a.hour != b.hour {
        a.hour < b.hour
    } else if a.minute != b.minute {
        a.minute < b.minute
    } else if a.second != b.second {
        a.second < b.second
    } else {
        a.millisecond <= b.millisecond
    }
}

} // verus!

//! Calendar dates in the form `YYYY-MM-DD`.

use crate::text::{char_is_digit, chars_of, digit_value, is_digit, is_whitespace, string_of};
use vstd::arithmetic::div_mod::lemma_fundamental_div_mod_converse;
use vstd::prelude::*;

verus! {

/// A day of the proleptic Gregorian calendar, with a year of at most four digits.
#[derive(Clone, Copy, Debug, PartialEq, Eq, Structural)]
pub struct Date {
    year: u16,
    month: u8,
    day: u8,
}

/// The parts of a date as numbers.
pub struct DateView {
    pub year: nat,
    pub month: nat,
    pub day: nat,
}

impl View for Date {
    type V = DateView;

    closed spec fn view(&self) -> DateView {
        DateView { year: self.year as nat, month: self.month as nat, day: self.day as nat }
    }
}

/// Leap years have 29 days in February.
pub open spec fn is_leap_year(year: int) -> bool {
    (year % 4 == 0 && year % 100 != 0) || year % 400 == 0
}

/// The number of days of `month` (1 to 12) in `year`.
pub open spec fn days_in_month(year: int, month: int) -> int {
    if month == 2 {
        if is_leap_year(year) {
            29
        } else {
            28
        }
    } else if month == 4 || month == 6 || month == 9 || month == 11 {
        30
    } else {
        31
    }
}

/// The character for the decimal digit `n`.
pub open spec fn digit_char(n: int) -> char
    recommends
        0 <= n <= 9,
{
    (n + 48) as u8 as char
}

/// The ten characters that stand for the date with these parts.
pub open spec fn date_text(date: DateView) -> Seq<char> {
    let y = date.year as int;
    let m = date.month as int;
    let d = date.day as int;
    seq![
        digit_char(y / 1000),
        digit_char(y / 100 % 10),
        digit_char(y / 10 % 10),
        digit_char(y % 10),
        '-',
        digit_char(m / 10),
        digit_char(m % 10),
        '-',
        digit_char(d / 10),
        digit_char(d % 10),
    ]
}

/// True when `s` has the shape `DDDD-DD-DD`, every `D` a decimal digit.
pub open spec fn is_date_shape(s: Seq<char>) -> bool {
    &&& s.len() == 10
    &&& is_digit(s[0])
    &&& is_digit(s[1])
    &&& is_digit(s[2])
    &&& is_digit(s[3])
    &&& s[4] == '-'
    &&& is_digit(s[5])
    &&& is_digit(s[6])
    &&& s[7] == '-'
    &&& is_digit(s[8])
    &&& is_digit(s[9])
}

/// The date that `s` stands for: `s` must have the shape `YYYY-MM-DD` and
/// name a day that exists.
pub open spec fn parse_date(s: Seq<char>) -> Option<DateView> {
    if is_date_shape(s) {
        let y = 1000 * digit_value(s[0]) + 100 * digit_value(s[1]) + 10 * digit_value(s[2])
            + digit_value(s[3]);
        let m = 10 * digit_value(s[5]) + digit_value(s[6]);
        let d = 10 * digit_value(s[8]) + digit_value(s[9]);
        if 1 <= m <= 12 && 1 <= d <= days_in_month(y, m) {
            Some(DateView { year: y as nat, month: m as nat, day: d as nat })
        } else {
            None
        }
    } else {
        None
    }
}

impl DateView {
    /// A date is valid when its day exists and its year has at most four digits.
    pub open spec fn is_valid(self) -> bool {
        &&& self.year <= 9999
        &&& 1 <= self.month <= 12
        &&& 1 <= self.day <= days_in_month(self.year as int, self.month as int)
    }
}

impl Date {
    /// Every date holds a day that exists.
    #[verifier::type_invariant]
    pub open spec fn is_valid(self) -> bool {
        self@.is_valid()
    }

    /// The date with these parts, if that day exists.
    pub fn new(year: u16, month: u8, day: u8) -> (r: Option<Date>)
        ensures
            ({
                let parts = DateView { year: year as nat, month: month as nat, day: day as nat };
                match r {
                    Some(date) => parts.is_valid() && date@ == parts,
                    None => !parts.is_valid(),
                }
            }),
    {
        if year > 9999 || month < 1 || month > 12 || day < 1 {
            return None;
        }
        let leap = (year % 4 == 0 && year % 100 != 0) || year % 400 == 0;
        let last: u8 = if month == 2 {
            if leap {
                29
            } else {
                28
            }
        } else if month == 4 || month == 6 || month == 9 || month == 11 {
            30
        } else {
            31
        };
        if day <= last {
            Some(Date { year, month, day })
        } else {
            None
        }
    }

    /// The year, 0 to 9999.
    pub fn year(&self) -> (y: u16)
        ensures
            y == self@.year,
    {
        self.year
    }

    /// The month, 1 to 12.
    pub fn month(&self) -> (m: u8)
        ensures
            m == self@.month,
    {
        self.month
    }

    /// The day of the month, from 1.
    pub fn day(&self) -> (d: u8)
        ensures
            d == self@.day,
    {
        self.day
    }

    /// Reads a date written as `YYYY-MM-DD`.
    pub fn parse(text: &str) -> (r: Option<Date>)
        ensures
            date_option_view(r) == parse_date(text@),
    {
        let chars = chars_of(text);
        parse_date_chars(&chars)
    }

    /// Writes the date as `YYYY-MM-DD`.
    pub fn render(&self) -> (s: String)
        ensures
            s@ == date_text(self@),
    {
        let mut out: Vec<char> = Vec::new();
        push_date(&mut out, *self);
        string_of(&out)
    }
}

/// The view of a date that may be absent.
pub open spec fn date_option_view(date: Option<Date>) -> Option<DateView> {
    match date {
        Some(d) => Some(d@),
        None => None,
    }
}

/// The value of the decimal digit `c`.
fn digit_of(c: char) -> (n: u16)
    requires
        is_digit(c),
    ensures
        n == digit_value(c),
        n <= 9,
{
    (c as u32 - '0' as u32) as u16
}

/// The character for the decimal digit `n`.
fn char_of_digit(n: u16) -> (c: char)
    requires
        n <= 9,
    ensures
        c == digit_char(n as int),
        is_digit(c),
        digit_value(c) == n,
{
    (n as u8 + 48u8) as char
}

/// Reads a date written as `YYYY-MM-DD` from characters.
pub(crate) fn parse_date_chars(s: &Vec<char>) -> (r: Option<Date>)
    ensures
        date_option_view(r) == parse_date(s@),
{
    if s.len() != 10 {
        return None;
    }
    if !(char_is_digit(s[0]) && char_is_digit(s[1]) && char_is_digit(s[2]) && char_is_digit(s[3])
        && s[4] == '-' && char_is_digit(s[5]) && char_is_digit(s[6]) && s[7] == '-'
        && char_is_digit(s[8]) && char_is_digit(s[9])) {
        return None;
    }
    let year: u16 = 1000 * digit_of(s[0]) + 100 * digit_of(s[1]) + 10 * digit_of(s[2]) + digit_of(
        s[3],
    );
    let month: u16 = 10 * digit_of(s[5]) + digit_of(s[6]);
    let day: u16 = 10 * digit_of(s[8]) + digit_of(s[9]);
    Date::new(year, month as u8, day as u8)
}

/// Appends the ten characters of `date` to `dst`.
pub(crate) fn push_date(dst: &mut Vec<char>, date: Date)
    ensures
        final(dst)@ == old(dst)@ + date_text(date@),
{
    proof {
        use_type_invariant(date);
    }
    let y = date.year;
    let m = date.month as u16;
    let d = date.day as u16;
    dst.push(char_of_digit(y / 1000));
    dst.push(char_of_digit(y / 100 % 10));
    dst.push(char_of_digit(y / 10 % 10));
    dst.push(char_of_digit(y % 10));
    dst.push('-');
    dst.push(char_of_digit(m / 10));
    dst.push(char_of_digit(m % 10));
    dst.push('-');
    dst.push(char_of_digit(d / 10));
    dst.push(char_of_digit(d % 10));
    assert(dst@ =~= old(dst)@ + date_text(date@));
}

/// The character of a digit is a digit with that value.
proof fn lemma_digit_char(n: int)
    requires
        0 <= n <= 9,
    ensures
        is_digit(digit_char(n)),
        digit_value(digit_char(n)) == n,
{
}

/// The digits of a number below ten thousand, read back from its value.
proof fn lemma_four_digits(a: int, b: int, c: int, d: int)
    requires
        0 <= a <= 9,
        0 <= b <= 9,
        0 <= c <= 9,
        0 <= d <= 9,
    ensures
        ({
            let y = 1000 * a + 100 * b + 10 * c + d;
            &&& y / 1000 == a
            &&& y / 100 % 10 == b
            &&& y / 10 % 10 == c
            &&& y % 10 == d
        }),
{
    let y = 1000 * a + 100 * b + 10 * c + d;
    lemma_fundamental_div_mod_converse(y, 1000, a, 100 * b + 10 * c + d);
    lemma_fundamental_div_mod_converse(y, 100, 10 * a + b, 10 * c + d);
    lemma_fundamental_div_mod_converse(10 * a + b, 10, a, b);
    lemma_fundamental_div_mod_converse(y, 10, 100 * a + 10 * b + c, d);
    lemma_fundamental_div_mod_converse(100 * a + 10 * b + c, 10, 10 * a + b, c);
}

/// The digits of a number below one hundred, read back from its value.
proof fn lemma_two_digits(a: int, b: int)
    requires
        0 <= a <= 9,
        0 <= b <= 9,
    ensures
        (10 * a + b) / 10 == a,
        (10 * a + b) % 10 == b,
{
    lemma_fundamental_div_mod_converse(10 * a + b, 10, a, b);
}

/// A digit is the character of its value.
proof fn lemma_digit_char_of_value(c: char)
    requires
        is_digit(c),
    ensures
        digit_char(digit_value(c)) == c,
        0 <= digit_value(c) <= 9,
{
}

/// Reading the text of a valid date gives that date back.
pub proof fn lemma_parse_date_text(date: DateView)
    requires
        date.is_valid(),
    ensures
        parse_date(date_text(date)) == Some(date),
        date_text(date).len() == 10,
        forall|i: int| 0 <= i < 10 ==> !is_whitespace(#[trigger] date_text(date)[i]),
{
    let s = date_text(date);
    let y = date.year as int;
    let m = date.month as int;
    let d = date.day as int;
    let y1 = y / 10;
    let y2 = y1 / 10;
    let y3 = y2 / 10;
    lemma_four_digits(y3, y2 % 10, y1 % 10, y % 10);
    lemma_two_digits(m / 10, m % 10);
    lemma_two_digits(d / 10, d % 10);
    lemma_digit_char(y / 1000);
    lemma_digit_char(y / 100 % 10);
    lemma_digit_char(y / 10 % 10);
    lemma_digit_char(y % 10);
    lemma_digit_char(m / 10);
    lemma_digit_char(m % 10);
    lemma_digit_char(d / 10);
    lemma_digit_char(d % 10);
    assert(is_date_shape(s));
    assert forall|i: int| 0 <= i < 10 implies !is_whitespace(#[trigger] s[i]) by {
        if i == 4 || i == 7 {
            assert(s[i] == '-');
        } else {
            assert(is_digit(s[i]));
        }
    }
}

/// The text of a parsed date is the text that was parsed.
pub proof fn lemma_date_text_of_parsed(s: Seq<char>)
    requires
        parse_date(s) is Some,
    ensures
        date_text(parse_date(s)->0) == s,
{
    let date = parse_date(s)->0;
    let t = date_text(date);
    lemma_digit_char_of_value(s[0]);
    lemma_digit_char_of_value(s[1]);
    lemma_digit_char_of_value(s[2]);
    lemma_digit_char_of_value(s[3]);
    lemma_digit_char_of_value(s[5]);
    lemma_digit_char_of_value(s[6]);
    lemma_digit_char_of_value(s[8]);
    lemma_digit_char_of_value(s[9]);
    lemma_four_digits(digit_value(s[0]), digit_value(s[1]), digit_value(s[2]), digit_value(s[3]));
    lemma_two_digits(digit_value(s[5]), digit_value(s[6]));
    lemma_two_digits(digit_value(s[8]), digit_value(s[9]));
    assert(t.len() == 10);
    assert(t[0] == s[0]);
    assert(t[1] == s[1]);
    assert(t[2] == s[2]);
    assert(t[3] == s[3]);
    assert(t[4] == s[4]);
    assert(t[5] == s[5]);
    assert(t[6] == s[6]);
    assert(t[7] == s[7]);
    assert(t[8] == s[8]);
    assert(t[9] == s[9]);
    assert(t =~= s);
}

} // verus!

//! Classification of section headers: the unreleased section, a release with
//! its version and optional date, or a header of no known kind.

use crate::date::{date_option_view, parse_date, parse_date_chars, Date, DateView};
use crate::text::{
    char_is_digit, char_is_whitespace, chars_of, copy_range, find_char, find_whitespace,
    index_of_char, index_of_whitespace, is_digit, is_whitespace, string_of, trim, trim_end,
    trim_start, trimmed, trimmed_end, trimmed_start,
};
use vstd::prelude::*;

verus! {

/// What a section header denotes.
#[derive(Clone, Debug, PartialEq, Eq)]
pub enum SectionKind {
    /// Changes not yet tied to a release.
    Unreleased,
    /// One release.
    Release { version: String, date: Option<Date> },
    /// A header that is neither of the above.
    Unknown,
}

/// The mathematical form of a [`SectionKind`].
pub enum SectionKindView {
    Unreleased,
    Release { version: Seq<char>, date: Option<DateView> },
    Unknown,
}

impl View for SectionKind {
    type V = SectionKindView;

    open spec fn view(&self) -> SectionKindView {
        match self {
            SectionKind::Unreleased => SectionKindView::Unreleased,
            SectionKind::Release { version, date } => SectionKindView::Release {
                version: version@,
                date: date_option_view(*date),
            },
            SectionKind::Unknown => SectionKindView::Unknown,
        }
    }
}

/// The lower-case form of an ASCII letter; any other character is unchanged.
pub open spec fn to_lower(c: char) -> char {
    if 'A' <= c <= 'Z' {
        ((c as u8) + 32) as u8 as char
    } else {
        c
    }
}

/// The label of the unreleased section, in lower case.
pub open spec fn unreleased_word() -> Seq<char> {
    seq!['u', 'n', 'r', 'e', 'l', 'e', 'a', 's', 'e', 'd']
}

/// True when `s` spells the unreleased label, whatever the case of its letters.
pub open spec fn is_unreleased_word(s: Seq<char>) -> bool {
    &&& s.len() == unreleased_word().len()
    &&& forall|i: int| 0 <= i < s.len() ==> to_lower(#[trigger] s[i]) == unreleased_word()[i]
}

/// True when `t` is the unreleased label, bare or in square brackets.
pub open spec fn is_unreleased_label(t: Seq<char>) -> bool {
    ||| is_unreleased_word(t)
    ||| (t.len() >= 2 && t[0] == '[' && t.last() == ']' && is_unreleased_word(
        t.subrange(1, t.len() - 1),
    ))
}

/// A version token starts with a digit, or with `v` or `V` and a digit, and
/// holds neither white space nor square brackets.
pub open spec fn is_version_token(t: Seq<char>) -> bool {
    &&& t.len() > 0
    &&& (is_digit(t[0]) || ((t[0] == 'v' || t[0] == 'V') && t.len() > 1 && is_digit(t[1])))
    &&& forall|i: int|
        0 <= i < t.len() ==> !is_whitespace(#[trigger] t[i]) && t[i] != '[' && t[i] != ']'
}

/// Splits a header into its label and what follows it. A label in square
/// brackets ends at the first `]`; a bare label ends at the first white space.
/// A `[` that is never closed gives `None`.
pub open spec fn split_label(t: Seq<char>) -> Option<(Seq<char>, Seq<char>)> {
    if t.len() > 0 && t[0] == '[' {
        let inner = t.drop_first();
        let j = find_char(inner, ']');
        if j < inner.len() {
            Some((inner.take(j), inner.skip(j + 1)))
        } else {
            None
        }
    } else {
        let j = find_whitespace(t);
        Some((t.take(j), t.skip(j)))
    }
}

/// The date that follows a label: white space, an optional `-`, white space
/// and a date. Anything else stands for no date.
pub open spec fn header_date(rest: Seq<char>) -> Option<DateView> {
    let r1 = trim_start(rest);
    let r2 = if r1.len() > 0 && r1[0] == '-' {
        trim_start(r1.drop_first())
    } else {
        r1
    };
    parse_date(trim_end(r2))
}

/// The kind of the section that the header text `text` opens.
pub open spec fn classify_spec(text: Seq<char>) -> SectionKindView {
    let t = trim(text);
    if is_unreleased_label(t) {
        SectionKindView::Unreleased
    } else {
        match split_label(t) {
            Some((token, rest)) => if is_version_token(token) {
                SectionKindView::Release { version: token, date: header_date(rest) }
            } else {
                SectionKindView::Unknown
            },
            None => SectionKindView::Unknown,
        }
    }
}

/// Tells whether `c` in lower case is `expected`.
fn lower_is(c: char, expected: char) -> (r: bool)
    ensures
        r == (to_lower(c) == expected),
{
    if 'A' <= c && c <= 'Z' {
        ((c as u8) + 32) as char == expected
    } else {
        c == expected
    }
}

/// Tells whether `v[from..to]` spells the unreleased label.
fn spells_unreleased(v: &Vec<char>, from: usize, to: usize) -> (r: bool)
    requires
        from <= to <= v.len(),
    ensures
        r == is_unreleased_word(v@.subrange(from as int, to as int)),
{
    if to - from != 10 {
        return false;
    }
    let ghost s = v@.subrange(from as int, to as int);
    let r = lower_is(v[from], 'u') && lower_is(v[from + 1], 'n') && lower_is(v[from + 2], 'r')
        && lower_is(v[from + 3], 'e') && lower_is(v[from + 4], 'l') && lower_is(v[from + 5], 'e')
        && lower_is(v[from + 6], 'a') && lower_is(v[from + 7], 's') && lower_is(v[from + 8], 'e')
        && lower_is(v[from + 9], 'd');
    proof {
        assert(s[0] == v@[from + 0] && s[1] == v@[from + 1] && s[2] == v@[from + 2] && s[3]
            == v@[from + 3] && s[4] == v@[from + 4] && s[5] == v@[from + 5] && s[6] == v@[from
            + 6] && s[7] == v@[from + 7] && s[8] == v@[from + 8] && s[9] == v@[from + 9]);
        if r {
            assert forall|i: int| 0 <= i < s.len() implies to_lower(#[trigger] s[i])
                == unreleased_word()[i] by {
                if i == 0 {
                } else if i == 1 {
                } else if i == 2 {
                } else if i == 3 {
                } else if i == 4 {
                } else if i == 5 {
                } else if i == 6 {
                } else if i == 7 {
                } else if i == 8 {
                } else {
                }
            }
        }
    }
    r
}

/// Tells whether `t` is the unreleased label, bare or in square brackets.
fn check_unreleased_label(t: &Vec<char>) -> (r: bool)
    ensures
        r == is_unreleased_label(t@),
{
    let n = t.len();
    assert(t@.subrange(0, n as int) =~= t@);
    if spells_unreleased(t, 0, n) {
        return true;
    }
    n >= 2 && t[0] == '[' && t[n - 1] == ']' && spells_unreleased(t, 1, n - 1)
}

/// Tells whether `t` is a version token.
fn check_version_token(t: &Vec<char>) -> (r: bool)
    ensures
        r == is_version_token(t@),
{
    let n = t.len();
    if n == 0 {
        return false;
    }
    let starts = char_is_digit(t[0]) || ((t[0] == 'v' || t[0] == 'V') && n > 1 && char_is_digit(
        t[1],
    ));
    if !starts {
        return false;
    }
    let mut i: usize = 0;
    while i < n
        invariant
            i <= n == t.len(),
            forall|k: int|
                0 <= k < i ==> !is_whitespace(#[trigger] t@[k]) && t@[k] != '[' && t@[k] != ']',
        decreases n - i,
    {
        let c = t[i];
        if char_is_whitespace(c) || c == '[' || c == ']' {
            return false;
        }
        i += 1;
    }
    true
}

/// Splits a header into its label and what follows it.
fn label_and_rest(t: &Vec<char>) -> (r: Option<(Vec<char>, Vec<char>)>)
    ensures
        match r {
            Some((label, rest)) => split_label(t@) == Some((label@, rest@)),
            None => split_label(t@) is None,
        },
{
    if t.len() > 0 && t[0] == '[' {
        let inner = copy_range(t, 1, t.len());
        assert(inner@ =~= t@.drop_first());
        let j = index_of_char(&inner, ']');
        if j < inner.len() {
            let label = copy_range(&inner, 0, j);
            let rest = copy_range(&inner, j + 1, inner.len());
            Some((label, rest))
        } else {
            None
        }
    } else {
        let j = index_of_whitespace(t);
        let label = copy_range(t, 0, j);
        let rest = copy_range(t, j, t.len());
        Some((label, rest))
    }
}

/// The date that follows a label, if one is written there.
fn date_after_label(rest: &Vec<char>) -> (r: Option<Date>)
    ensures
        date_option_view(r) == header_date(rest@),
{
    let r1 = trimmed_start(rest);
    let r2 = if r1.len() > 0 && r1[0] == '-' {
        let tail = copy_range(&r1, 1, r1.len());
        assert(tail@ =~= r1@.drop_first());
        trimmed_start(&tail)
    } else {
        r1
    };
    let r3 = trimmed_end(&r2);
    parse_date_chars(&r3)
}

/// Classifies header text given as characters.
pub(crate) fn classify_chars(text: &Vec<char>) -> (kind: SectionKind)
    ensures
        kind@ == classify_spec(text@),
{
    let t = trimmed(text);
    if check_unreleased_label(&t) {
        return SectionKind::Unreleased;
    }
    match label_and_rest(&t) {
        Some((label, rest)) => {
            if check_version_token(&label) {
                let date = date_after_label(&rest);
                SectionKind::Release { version: string_of(&label), date }
            } else {
                SectionKind::Unknown
            }
        },
        None => SectionKind::Unknown,
    }
}

/// Classifies the text of a section header: `Unreleased` for the unreleased
/// label, `Release` for a version token with an optional date, and `Unknown`
/// for anything else.
pub fn classify(header_text: &str) -> (kind: SectionKind)
    ensures
        kind@ == classify_spec(header_text@),
{
    let chars = chars_of(header_text);
    classify_chars(&chars)
}

} // verus!

//! The document scanner: splits a changelog text into its sections.
//!
//! A section starts at a heading line and runs to the next heading line of
//! the same or a shallower level. The level that counts is the level of the
//! first heading that names the unreleased section or a release.

use crate::classifier::{classify_chars, classify_spec, SectionKind};
use crate::text::{
    char_is_whitespace, chars_of, copy_range, is_blank, is_whitespace, join_lines, join_range,
    line_is_blank, lines_of, lines_view, split_lines, string_of, trim, trimmed,
};
use vstd::prelude::*;

verus! {

/// One section of a document: the text of its heading, the heading's level,
/// and the body with the blank lines around it removed.
#[derive(Clone, Debug, PartialEq, Eq)]
pub struct Section {
    pub header: String,
    pub level: u8,
    pub body: String,
}

/// The mathematical form of a [`Section`].
pub struct SectionView {
    pub header: Seq<char>,
    pub level: nat,
    pub body: Seq<char>,
}

impl View for Section {
    type V = SectionView;

    open spec fn view(&self) -> SectionView {
        SectionView { header: self.header@, level: self.level as nat, body: self.body@ }
    }
}

/// The views of a run of sections.
pub open spec fn sections_view(sections: Seq<Section>) -> Seq<SectionView> {
    Seq::new(sections.len(), |i: int| sections[i]@)
}

/// The number of `#` characters that `line` starts with.
pub open spec fn hash_count(line: Seq<char>) -> nat
    decreases line.len(),
{
    if line.len() > 0 && line[0] == '#' {
        1 + hash_count(line.drop_first())
    } else {
        0
    }
}

/// The level of a heading line: one to six `#` characters at the start of
/// the line and white space after them. Any other line has no level.
pub open spec fn heading_level(line: Seq<char>) -> Option<nat> {
    let n = hash_count(line);
    if 1 <= n <= 6 && n < line.len() && is_whitespace(line[n as int]) {
        Some(n)
    } else {
        None
    }
}

/// The text of a heading line: what follows the `#` characters, trimmed.
pub open spec fn heading_text(line: Seq<char>) -> Seq<char> {
    trim(line.skip(hash_count(line) as int))
}

/// True for a heading line that names the unreleased section or a release.
pub open spec fn is_recognized(line: Seq<char>) -> bool {
    heading_level(line) is Some && !(classify_spec(heading_text(line)) is Unknown)
}

/// The level of the first recognized heading among `lines`.
pub open spec fn section_level(lines: Seq<Seq<char>>) -> Option<nat>
    decreases lines.len(),
{
    if lines.len() == 0 {
        None
    } else if is_recognized(lines[0]) {
        heading_level(lines[0])
    } else {
        section_level(lines.drop_first())
    }
}

/// True for a heading line that ends a section of level `level`.
pub open spec fn is_boundary(line: Seq<char>, level: nat) -> bool {
    match heading_level(line) {
        Some(l) => l <= level,
        None => false,
    }
}

/// The number of lines at the start of `lines` that come before the first boundary.
pub open spec fn body_len(lines: Seq<Seq<char>>, level: nat) -> nat
    decreases lines.len(),
{
    if lines.len() == 0 || is_boundary(lines[0], level) {
        0
    } else {
        1 + body_len(lines.drop_first(), level)
    }
}

/// `lines` without the blank lines at its start.
pub open spec fn drop_leading_blank(lines: Seq<Seq<char>>) -> Seq<Seq<char>>
    decreases lines.len(),
{
    if lines.len() > 0 && is_blank(lines[0]) {
        drop_leading_blank(lines.drop_first())
    } else {
        lines
    }
}

/// `lines` without the blank lines at its end.
pub open spec fn drop_trailing_blank(lines: Seq<Seq<char>>) -> Seq<Seq<char>>
    decreases lines.len(),
{
    if lines.len() > 0 && is_blank(lines.last()) {
        drop_trailing_blank(lines.drop_last())
    } else {
        lines
    }
}

/// The body that a run of lines stands for: the lines without the blank
/// lines around them, joined; the lines between are kept as they are.
pub open spec fn body_text(lines: Seq<Seq<char>>) -> Seq<char> {
    join_lines(drop_trailing_blank(drop_leading_blank(lines)))
}

/// The section that the boundary line `lines[0]` opens: its body is made of
/// the lines up to the next boundary.
pub open spec fn section_at(lines: Seq<Seq<char>>, level: nat) -> SectionView
    recommends
        lines.len() > 0,
{
    let rest = lines.drop_first();
    SectionView {
        header: heading_text(lines[0]),
        level: heading_level(lines[0])->0,
        body: body_text(rest.take(body_len(rest, level) as int)),
    }
}

/// The sections of `lines` for the section level `level`: one for each
/// boundary line, in order. Lines before the first boundary belong to no section.
pub open spec fn sections_of(lines: Seq<Seq<char>>, level: nat) -> Seq<SectionView>
    decreases lines.len(),
{
    if lines.len() == 0 {
        Seq::empty()
    } else if is_boundary(lines[0], level) {
        seq![section_at(lines, level)] + sections_of(lines.drop_first(), level)
    } else {
        sections_of(lines.drop_first(), level)
    }
}

/// The sections of a document. A document without a recognized heading has none.
pub open spec fn scan_spec(text: Seq<char>) -> Seq<SectionView> {
    let lines = split_lines(text);
    match section_level(lines) {
        Some(level) => sections_of(lines, level),
        None => Seq::empty(),
    }
}

/// The body ends at `m` when no line before `m` is a boundary and `m` is a
/// boundary or the end.
pub proof fn lemma_body_len_at(lines: Seq<Seq<char>>, level: nat, m: int)
    requires
        0 <= m <= lines.len(),
        forall|i: int| 0 <= i < m ==> !is_boundary(#[trigger] lines[i], level),
        m < lines.len() ==> is_boundary(lines[m], level),
    ensures
        body_len(lines, level) == m,
    decreases m,
{
    if m > 0 {
        let t = lines.drop_first();
        assert(!is_boundary(lines[0], level));
        assert forall|i: int| 0 <= i < m - 1 implies !is_boundary(#[trigger] t[i], level) by {
            assert(t[i] == lines[i + 1]);
        }
        lemma_body_len_at(t, level, m - 1);
    }
}

/// Lines that are no boundary add nothing to the sections that follow them.
pub proof fn lemma_sections_skip_body(lines: Seq<Seq<char>>, level: nat, n: int)
    requires
        0 <= n <= lines.len(),
        forall|i: int| 0 <= i < n ==> !is_boundary(#[trigger] lines[i], level),
    ensures
        sections_of(lines, level) == sections_of(lines.skip(n), level),
    decreases n,
{
    if n == 0 {
        assert(lines.skip(0) =~= lines);
    } else {
        let t = lines.drop_first();
        assert(!is_boundary(lines[0], level));
        assert forall|i: int| 0 <= i < n - 1 implies !is_boundary(#[trigger] t[i], level) by {
            assert(t[i] == lines[i + 1]);
        }
        lemma_sections_skip_body(t, level, n - 1);
        assert(t.skip(n - 1) =~= lines.skip(n));
    }
}

/// Dropping leading blank lines drops exactly the leading run of blank lines.
pub proof fn lemma_drop_leading_blank_is_skip(lines: Seq<Seq<char>>, n: int)
    requires
        0 <= n <= lines.len(),
        forall|i: int| 0 <= i < n ==> is_blank(#[trigger] lines[i]),
        n < lines.len() ==> !is_blank(lines[n]),
    ensures
        drop_leading_blank(lines) == lines.skip(n),
    decreases n,
{
    if n == 0 {
        assert(lines.skip(0) =~= lines);
    } else {
        let t = lines.drop_first();
        assert(is_blank(lines[0]));
        assert forall|i: int| 0 <= i < n - 1 implies is_blank(#[trigger] t[i]) by {
            assert(t[i] == lines[i + 1]);
        }
        lemma_drop_leading_blank_is_skip(t, n - 1);
        assert(t.skip(n - 1) =~= lines.skip(n));
    }
}

/// Dropping trailing blank lines keeps exactly what precedes the trailing run
/// of blank lines.
pub proof fn lemma_drop_trailing_blank_is_take(lines: Seq<Seq<char>>, n: int)
    requires
        0 <= n <= lines.len(),
        forall|i: int| n <= i < lines.len() ==> is_blank(#[trigger] lines[i]),
        n > 0 ==> !is_blank(lines[n - 1]),
    ensures
        drop_trailing_blank(lines) == lines.take(n),
    decreases lines.len() - n,
{
    if n == lines.len() {
        assert(lines.take(n) =~= lines);
    } else {
        let t = lines.drop_last();
        assert(is_blank(lines.last()));
        lemma_drop_trailing_blank_is_take(t, n);
        assert(t.take(n) =~= lines.take(n));
    }
}

/// The level and text of a heading line, or `None` for any other line.
pub fn heading_of(line: &Vec<char>) -> (r: Option<(u8, Vec<char>)>)
    ensures
        match r {
            Some((level, text)) => heading_level(line@) == Some(level as nat) && text@
                == heading_text(line@),
            None => heading_level(line@) is None,
        },
{
    let n = line.len();
    let mut k: usize = 0;
    assert(line@.skip(0) =~= line@);
    while k < n && k < 7 && line[k] == '#'
        invariant
            k <= n == line.len(),
            k <= 7,
            hash_count(line@) == k + hash_count(line@.skip(k as int)),
        decreases n - k,
    {
        proof {
            let s = line@.skip(k as int);
            assert(s[0] == line@[k as int]);
            assert(s.drop_first() =~= line@.skip(k + 1));
        }
        k += 1;
    }
    proof {
        let s = line@.skip(k as int);
        if k < n {
            assert(s[0] == line@[k as int]);
            if k == 7 {
                assert(hash_count(line@) >= 7);
            }
        }
        assert(line@.skip(0) =~= line@);
    }
    if 1 <= k && k <= 6 && k < n && char_is_whitespace(line[k]) {
        let tail = copy_range(line, k, n);
        assert(tail@ =~= line@.skip(k as int));
        let text = trimmed(&tail);
        Some((k as u8, text))
    } else {
        None
    }
}

/// Tells whether `line` is a heading that ends a section of level `level`.
fn check_boundary(line: &Vec<char>, level: u8) -> (r: bool)
    ensures
        r == is_boundary(line@, level as nat),
{
    match heading_of(line) {
        Some((l, _)) => l <= level,
        None => false,
    }
}

/// The level of the first recognized heading among `lines`.
fn find_section_level(lines: &Vec<Vec<char>>) -> (r: Option<u8>)
    ensures
        match r {
            Some(level) => section_level(lines_view(lines@)) == Some(level as nat),
            None => section_level(lines_view(lines@)) is None,
        },
{
    let ghost all = lines_view(lines@);
    let mut i: usize = 0;
    assert(all.skip(0) =~= all);
    while i < lines.len()
        invariant
            i <= lines.len(),
            all == lines_view(lines@),
            section_level(all) == section_level(all.skip(i as int)),
        decreases lines.len() - i,
    {
        proof {
            let s = all.skip(i as int);
            assert(s[0] == lines@[i as int]@);
            assert(s.drop_first() =~= all.skip(i + 1));
        }
        match heading_of(&lines[i]) {
            Some((level, text)) => {
                let kind = classify_chars(&text);
                match kind {
                    SectionKind::Unknown => {},
                    _ => {
                        return Some(level);
                    },
                }
            },
            None => {},
        }
        i += 1;
    }
    None
}

/// The body that the lines `lines[from..to]` stand for.
fn body_of(lines: &Vec<Vec<char>>, from: usize, to: usize) -> (body: Vec<char>)
    requires
        from <= to <= lines.len(),
    ensures
        body@ == body_text(lines_view(lines@).subrange(from as int, to as int)),
{
    let ghost all = lines_view(lines@);
    let ghost part = all.subrange(from as int, to as int);
    let mut a: usize = from;
    while a < to && line_is_blank(&lines[a])
        invariant
            from <= a <= to <= lines.len(),
            all == lines_view(lines@),
            forall|i: int| from <= i < a ==> is_blank(#[trigger] all[i]),
        decreases to - a,
    {
        a += 1;
    }
    let mut b: usize = to;
    while b > a && line_is_blank(&lines[b - 1])
        invariant
            a <= b <= to <= lines.len(),
            all == lines_view(lines@),
            forall|i: int| b <= i < to ==> is_blank(#[trigger] all[i]),
        decreases b,
    {
        b -= 1;
    }
    proof {
        assert forall|i: int| 0 <= i < a - from implies is_blank(#[trigger] part[i]) by {
            assert(part[i] == all[from + i]);
        }
        if a < to {
            assert(part[a - from] == all[a as int]);
        }
        lemma_drop_leading_blank_is_skip(part, a - from);
        let t = part.skip(a - from);
        assert(t =~= all.subrange(a as int, to as int));
        assert forall|i: int| b - a <= i < t.len() implies is_blank(#[trigger] t[i]) by {
            assert(t[i] == all[a + i]);
        }
        if b > a {
            assert(t[b - a - 1] == all[b - 1]);
        }
        lemma_drop_trailing_blank_is_take(t, b - a);
        assert(t.take(b - a) =~= all.subrange(a as int, b as int));
    }
    join_range(lines, a, b)
}

/// The sections of `lines` for the section level `level`.
fn collect_sections(lines: &Vec<Vec<char>>, level: u8) -> (out: Vec<Section>)
    ensures
        sections_view(out@) == sections_of(lines_view(lines@), level as nat),
{
    let ghost all = lines_view(lines@);
    let n = lines.len();
    let mut out: Vec<Section> = Vec::new();
    let mut i: usize = 0;
    proof {
        assert(all.skip(0) =~= all);
        assert(sections_view(out@) + sections_of(all, level as nat) =~= sections_of(
            all,
            level as nat,
        ));
    }
    while i < n
        invariant
            i <= n == lines.len(),
            all == lines_view(lines@),
            sections_of(all, level as nat) == sections_view(out@) + sections_of(
                all.skip(i as int),
                level as nat,
            ),
        decreases n - i,
    {
        let ghost here = all.skip(i as int);
        proof {
            assert(here[0] == lines@[i as int]@);
            assert(here.drop_first() =~= all.skip(i + 1));
        }
        match heading_of(&lines[i]) {
            Some((l, text)) => {
                if l <= level {
                    let mut j: usize = i + 1;
                    while j < n && !check_boundary(&lines[j], level)
                        invariant
                            i < j <= n == lines.len(),
                            all == lines_view(lines@),
                            forall|k: int|
                                i < k < j ==> !is_boundary(#[trigger] all[k], level as nat),
                        decreases n - j,
                    {
                        j += 1;
                    }
                    let body = body_of(lines, i + 1, j);
                    let ghost rest = here.drop_first();
                    let ghost before = sections_view(out@);
                    proof {
                        assert forall|k: int| 0 <= k < j - i - 1 implies !is_boundary(
                            #[trigger] rest[k],
                            level as nat,
                        ) by {
                            assert(rest[k] == all[i + 1 + k]);
                        }
                        if j < n {
                            assert(rest[j - i - 1] == all[j as int]);
                        }
                        lemma_body_len_at(rest, level as nat, j - i - 1);
                        lemma_sections_skip_body(rest, level as nat, j - i - 1);
                        assert(rest.take(j - i - 1) =~= all.subrange(i + 1, j as int));
                        assert(rest.skip(j - i - 1) =~= all.skip(j as int));
                    }
                    let section = Section { header: string_of(&text), level: l, body: string_of(&body) };
                    out.push(section);
                    proof {
                        assert(sections_view(out@) =~= before + seq![section@]);
                        assert(before + (seq![section@] + sections_of(
                            all.skip(j as int),
                            level as nat,
                        )) =~= (before + seq![section@]) + sections_of(
                            all.skip(j as int),
                            level as nat,
                        ));
                    }
                    i = j;
                } else {
                    i += 1;
                }
            },
            None => {
                i += 1;
            },
        }
    }
    proof {
        assert(all.skip(n as int) =~= Seq::<Seq<char>>::empty());
        assert(sections_view(out@) + Seq::<SectionView>::empty() =~= sections_view(out@));
    }
    out
}

/// Splits a document into the sections that the headings of level `level`
/// or shallower open, whatever the headings say.
pub fn scan_at_level(text: &str, level: u8) -> (sections: Vec<Section>)
    ensures
        sections_view(sections@) == sections_of(split_lines(text@), level as nat),
        sections@.len() == sections_of(split_lines(text@), level as nat).len(),
{
    let chars = chars_of(text);
    let lines = lines_of(&chars);
    collect_sections(&lines, level)
}

/// Splits a document into its sections, in document order. An empty
/// document, and one without a recognized heading, has no sections.
pub fn scan(text: &str) -> (sections: Vec<Section>)
    ensures
        sections_view(sections@) == scan_spec(text@),
        sections@.len() == scan_spec(text@).len(),
{
    let chars = chars_of(text);
    let lines = lines_of(&chars);
    match find_section_level(&lines) {
        Some(level) => collect_sections(&lines, level),
        None => {
            let out: Vec<Section> = Vec::new();
            assert(sections_view(out@) =~= Seq::<SectionView>::empty());
            out
        },
    }
}

} // verus!

//! Reading canonical text gives back the changelog that was written.

use crate::changelog::{
    build_from, build_spec, has_version, is_body_at, parse_spec, present_body, BuildState,
    ChangelogView, ParseErrorView, ReleaseEntryView,
};
use crate::classifier::{
    classify_spec, header_date, is_unreleased_label, is_unreleased_word, is_version_token,
    split_label, to_lower, unreleased_word, SectionKindView,
};
use crate::date::{date_text, lemma_parse_date_text, DateView};
use crate::invariants::{document_level, lemma_parsed_is_well_formed, lemma_wf_at_shallower};
use crate::render::{
    date_suffix, release_heading, release_text, release_texts, render_spec, section_text,
    unreleased_heading,
};
use crate::scanner::{
    body_text, hash_count, heading_level, heading_text, is_boundary, is_recognized,
    lemma_body_len_at, lemma_drop_leading_blank_is_skip, lemma_drop_trailing_blank_is_take,
    lemma_sections_skip_body, section_at, section_level, sections_of, SectionView,
};
use crate::text::{
    all_lines, is_blank, is_line, is_whitespace, join_lines, lemma_find_char_at, lemma_join_concat,
    lemma_join_split, lemma_split_join, lemma_split_lines_are_lines, lemma_trim_end_is_take,
    lemma_trim_start_is_skip, newline, split_lines, trim, trim_end, trim_start,
};
use vstd::prelude::*;

verus! {

/// The label part of the heading of the unreleased section.
pub open spec fn unreleased_label() -> Seq<char> {
    seq!['[', 'U', 'n', 'r', 'e', 'l', 'e', 'a', 's', 'e', 'd', ']']
}

/// The label part of the heading of a release.
pub open spec fn release_label(version: Seq<char>, date: Option<DateView>) -> Seq<char> {
    seq!['['] + version + seq![']'] + date_suffix(date)
}

/// A text with no white space at either end is its own trimmed form.
pub proof fn lemma_trim_identity(s: Seq<char>)
    requires
        s.len() > 0,
        !is_whitespace(s[0]),
        !is_whitespace(s.last()),
    ensures
        trim(s) == s,
        trim_start(s) == s,
        trim_end(s) == s,
{
    lemma_trim_start_is_skip(s, 0);
    assert(s.skip(0) =~= s);
    lemma_trim_end_is_take(s, s.len() as int);
    assert(s.take(s.len() as int) =~= s);
}

/// A line made of `## ` and a label that has no white space at either end
/// is a heading of level two whose text is the label.
proof fn lemma_heading_of_label(label: Seq<char>)
    requires
        label.len() > 0,
        !is_whitespace(label[0]),
        !is_whitespace(label.last()),
    ensures
        heading_level(seq!['#', '#', ' '] + label) == Some(2nat),
        heading_text(seq!['#', '#', ' '] + label) == label,
{
    let line = seq!['#', '#', ' '] + label;
    let l1 = line.drop_first();
    let l2 = l1.drop_first();
    assert(line[0] == '#');
    assert(l1[0] == '#');
    assert(l2[0] == ' ');
    assert(hash_count(l2) == 0);
    assert(hash_count(l1) == 1);
    assert(hash_count(line) == 2);
    assert(line[2] == ' ');
    let tail = line.skip(2);
    assert(tail =~= seq![' '] + label);
    assert(tail[0] == ' ');
    assert(tail[1] == label[0]);
    lemma_trim_start_is_skip(tail, 1);
    assert(tail.skip(1) =~= label);
    lemma_trim_identity(label);
}

/// The characters of the date part of a heading are not white space at its
/// end, and the part reads back as the date.
proof fn lemma_date_suffix(date: Option<DateView>)
    requires
        date matches Some(d) ==> d.is_valid(),
    ensures
        header_date(date_suffix(date)) == date,
        date_suffix(date).len() > 0 ==> !is_whitespace(date_suffix(date).last()),
        is_line(date_suffix(date)),
{
    match date {
        Some(d) => {
            let dt = date_text(d);
            lemma_parse_date_text(d);
            let s = date_suffix(date);
            assert(s =~= seq![' ', '-', ' '] + dt);
            assert(s[0] == ' ');
            assert(s[1] == '-');
            lemma_trim_start_is_skip(s, 1);
            let r1 = s.skip(1);
            assert(r1 =~= seq!['-', ' '] + dt);
            assert(r1[0] == '-');
            let r1t = r1.drop_first();
            assert(r1t =~= seq![' '] + dt);
            assert(r1t[0] == ' ');
            assert(r1t[1] == dt[0]);
            lemma_trim_start_is_skip(r1t, 1);
            assert(r1t.skip(1) =~= dt);
            assert(!is_whitespace(dt[0]));
            assert(!is_whitespace(dt[9]));
            lemma_trim_identity(dt);
            assert(s.last() == dt[9]);
            assert forall|i: int| 0 <= i < s.len() implies #[trigger] s[i] != '\n' by {
                if i >= 3 {
                    assert(s[i] == dt[i - 3]);
                    assert(!is_whitespace(dt[i - 3]));
                }
            }
        },
        None => {
            let e = Seq::<char>::empty();
            assert(trim_start(e) == e);
            assert(trim_end(e) == e);
        },
    }
}

/// The label of a release is classified as that release.
proof fn lemma_classify_release_label(version: Seq<char>, date: Option<DateView>)
    requires
        is_version_token(version),
        date matches Some(d) ==> d.is_valid(),
    ensures
        classify_spec(release_label(version, date)) == (SectionKindView::Release { version, date }),
        release_label(version, date).len() > 0,
        !is_whitespace(release_label(version, date)[0]),
        !is_whitespace(release_label(version, date).last()),
        is_line(release_label(version, date)),
{
    let suffix = date_suffix(date);
    let t = release_label(version, date);
    lemma_date_suffix(date);
    let n = version.len() as int;
    assert(t.len() == n + 2 + suffix.len());
    assert(t[0] == '[');
    assert(forall|i: int| 0 <= i < n ==> t[i + 1] == version[i]);
    assert(t[n + 1] == ']');
    assert(forall|i: int| 0 <= i < suffix.len() ==> t[n + 2 + i] == suffix[i]);
    if suffix.len() > 0 {
        assert(t.last() == suffix.last());
    } else {
        assert(t.last() == ']');
    }
    lemma_trim_identity(t);
    assert forall|i: int| 0 <= i < t.len() implies #[trigger] t[i] != '\n' by {
        if 1 <= i <= n {
            assert(t[i] == version[i - 1]);
            assert(!is_whitespace(version[i - 1]));
        } else if i >= n + 2 {
            assert(t[i] == suffix[i - n - 2]);
        }
    }
    // The label is not the unreleased label.
    assert(!is_unreleased_word(t)) by {
        if is_unreleased_word(t) {
            assert(to_lower(t[0]) == unreleased_word()[0]);
        }
    }
    if t.len() >= 2 && t.last() == ']' {
        let inner = t.subrange(1, t.len() - 1);
        if is_unreleased_word(inner) {
            assert(inner[0] == version[0]);
            assert(to_lower(inner[0]) == unreleased_word()[0]);
            assert(false);
        }
    }
    assert(!is_unreleased_label(t));
    // The label ends at the first closing bracket.
    let inner = t.drop_first();
    assert forall|i: int| 0 <= i < n implies #[trigger] inner[i] != ']' by {
        assert(inner[i] == version[i]);
    }
    assert(inner[n] == ']');
    lemma_find_char_at(inner, ']', n);
    assert(inner.take(n) =~= version);
    assert(inner.skip(n + 1) =~= suffix);
    assert(split_label(t) == Some((version, suffix)));
}

/// The label of the unreleased section is classified as that section.
proof fn lemma_classify_unreleased_label()
    ensures
        classify_spec(unreleased_label()) == SectionKindView::Unreleased,
{
    let t = unreleased_label();
    assert(t[0] == '[');
    assert(t.last() == ']');
    lemma_trim_identity(t);
    let inner = t.subrange(1, t.len() - 1);
    assert(inner =~= seq!['U', 'n', 'r', 'e', 'l', 'e', 'a', 's', 'e', 'd']);
    assert forall|i: int| 0 <= i < inner.len() implies to_lower(#[trigger] inner[i])
        == unreleased_word()[i] by {
        if i == 0 {
        } else if i == 1 {
        } else if i == 2 {
        } else if i == 3 {
        } else if i == 4 {
        } else if i == 5 {
        } else if i == 6 {
        } else if i == 7 {
        } else if i == 8 {
        } else {
        }
    }
    assert(is_unreleased_word(inner));
}

/// The canonical heading of the unreleased section is a heading of level
/// two that names the unreleased section.
pub proof fn lemma_unreleased_heading()
    ensures
        heading_level(unreleased_heading()) == Some(2nat),
        classify_spec(heading_text(unreleased_heading())) == SectionKindView::Unreleased,
        is_line(unreleased_heading()),
{
    let label = unreleased_label();
    assert(label[0] == '[');
    assert(label.last() == ']');
    lemma_heading_of_label(label);
    lemma_classify_unreleased_label();
    assert(unreleased_heading() =~= seq!['#', '#', ' '] + label);
}

/// The canonical heading of a release is a heading of level two that names
/// that release, with its date.
pub proof fn lemma_release_heading(version: Seq<char>, date: Option<DateView>)
    requires
        is_version_token(version),
        date matches Some(d) ==> d.is_valid(),
    ensures
        heading_level(release_heading(version, date)) == Some(2nat),
        classify_spec(heading_text(release_heading(version, date))) == (SectionKindView::Release {
            version,
            date,
        }),
        is_line(release_heading(version, date)),
{
    let label = release_label(version, date);
    lemma_classify_release_label(version, date);
    lemma_heading_of_label(label);
    let line = release_heading(version, date);
    assert(line =~= seq!['#', '#', ' '] + label);
    assert forall|i: int| 0 <= i < line.len() implies #[trigger] line[i] != '\n' by {
        if i >= 3 {
            assert(line[i] == label[i - 3]);
        }
    }
}

/// The lines of one section of canonical text: the heading, for a body that
/// is not empty a blank line and the lines of the body, and a closing blank line.
pub open spec fn block_lines(heading: Seq<char>, body: Seq<char>) -> Seq<Seq<char>> {
    if body.len() == 0 {
        seq![heading, Seq::empty()]
    } else {
        seq![heading, Seq::empty()] + split_lines(body) + seq![Seq::empty()]
    }
}

/// The lines of the sections of `releases` in canonical text.
pub open spec fn release_lines(releases: Seq<ReleaseEntryView>) -> Seq<Seq<char>>
    decreases releases.len(),
{
    if releases.len() == 0 {
        Seq::empty()
    } else {
        block_lines(release_heading(releases[0].version, releases[0].date), releases[0].body)
            + release_lines(releases.drop_first())
    }
}

/// The lines of the canonical text of a changelog that has a section.
pub open spec fn canonical_lines(log: ChangelogView) -> Seq<Seq<char>> {
    match log.unreleased {
        Some(body) => block_lines(unreleased_heading(), body) + release_lines(log.releases),
        None => release_lines(log.releases),
    }
}

/// The section that a release stands for in canonical text.
pub open spec fn release_section(entry: ReleaseEntryView) -> SectionView {
    SectionView {
        header: heading_text(release_heading(entry.version, entry.date)),
        level: 2,
        body: entry.body,
    }
}

/// The sections that `releases` stand for in canonical text.
pub open spec fn release_sections(releases: Seq<ReleaseEntryView>) -> Seq<SectionView> {
    Seq::new(releases.len(), |i: int| release_section(releases[i]))
}

/// The sections that a changelog stands for in canonical text.
pub open spec fn canonical_sections(log: ChangelogView) -> Seq<SectionView> {
    match log.unreleased {
        Some(body) => seq![
            SectionView { header: heading_text(unreleased_heading()), level: 2, body },
        ] + release_sections(log.releases),
        None => release_sections(log.releases),
    }
}

/// The text of a section is its lines, joined.
pub proof fn lemma_section_text_lines(heading: Seq<char>, body: Seq<char>)
    ensures
        section_text(heading, body) == join_lines(block_lines(heading, body)),
        block_lines(heading, body).len() >= 2,
{
    let e = Seq::<char>::empty();
    let head = seq![heading, e];
    let last = head.drop_first();
    assert(last =~= seq![e]);
    assert(last.len() == 1);
    assert(last[0] == e);
    assert(join_lines(last) == e);
    assert(head.len() == 2);
    assert(head[0] == heading);
    assert(join_lines(head) == heading + newline() + join_lines(last));
    assert(join_lines(head) =~= heading + newline());
    if body.len() > 0 {
        let mid = split_lines(body);
        lemma_split_lines_are_lines(body);
        lemma_join_split(body);
        let tail = mid + seq![e];
        lemma_join_concat(mid, seq![e]);
        lemma_join_concat(head, tail);
        assert(head + tail =~= block_lines(heading, body));
        assert(join_lines(tail) =~= body + newline());
        assert(join_lines(head) + newline() + (body + newline()) =~= section_text(heading, body));
    }
}

/// Every line of a section of canonical text is free of line breaks.
pub proof fn lemma_block_lines_are_lines(heading: Seq<char>, body: Seq<char>)
    requires
        is_line(heading),
    ensures
        all_lines(block_lines(heading, body)),
{
    let e = Seq::<char>::empty();
    let block = block_lines(heading, body);
    lemma_split_lines_are_lines(body);
    assert forall|i: int| 0 <= i < block.len() implies is_line(#[trigger] block[i]) by {
        if body.len() > 0 && 2 <= i < block.len() - 1 {
            assert(block[i] == split_lines(body)[i - 2]);
        }
    }
}

/// Joining a text that is itself joined lines, and further texts, is joining
/// all the lines.
pub proof fn lemma_join_nested(a: Seq<Seq<char>>, texts: Seq<Seq<char>>, lines: Seq<Seq<char>>)
    requires
        a.len() >= 1,
        join_lines(texts) == join_lines(lines),
        texts.len() == 0 <==> lines.len() == 0,
    ensures
        join_lines(seq![join_lines(a)] + texts) == join_lines(a + lines),
{
    if texts.len() == 0 {
        assert(seq![join_lines(a)] + texts =~= seq![join_lines(a)]);
        assert(a + lines =~= a);
    } else {
        lemma_join_concat(seq![join_lines(a)], texts);
        lemma_join_concat(a, lines);
    }
}

/// The texts of the sections of `releases`, joined, are their lines, joined.
proof fn lemma_release_texts_lines(releases: Seq<ReleaseEntryView>)
    ensures
        join_lines(release_texts(releases)) == join_lines(release_lines(releases)),
        releases.len() == 0 <==> release_lines(releases).len() == 0,
    decreases releases.len(),
{
    if releases.len() > 0 {
        let rest = releases.drop_first();
        lemma_release_texts_lines(rest);
        let heading = release_heading(releases[0].version, releases[0].date);
        lemma_section_text_lines(heading, releases[0].body);
        assert(release_texts(releases) =~= seq![release_text(releases[0])] + release_texts(rest));
        lemma_join_nested(
            block_lines(heading, releases[0].body),
            release_texts(rest),
            release_lines(rest),
        );
    } else {
        assert(release_texts(releases) =~= Seq::<Seq<char>>::empty());
    }
}

/// Canonical text is its canonical lines, joined.
proof fn lemma_render_lines(log: ChangelogView)
    ensures
        render_spec(log) == join_lines(canonical_lines(log)),
        canonical_lines(log).len() == 0 <==> (log.unreleased is None && log.releases.len() == 0),
{
    lemma_release_texts_lines(log.releases);
    match log.unreleased {
        Some(body) => {
            lemma_section_text_lines(unreleased_heading(), body);
            lemma_join_nested(
                block_lines(unreleased_heading(), body),
                release_texts(log.releases),
                release_lines(log.releases),
            );
        },
        None => {},
    }
}

/// The lines of the sections of well-formed releases are free of line breaks.
proof fn lemma_release_lines_are_lines(releases: Seq<ReleaseEntryView>)
    requires
        forall|i: int| 0 <= i < releases.len() ==> (#[trigger] releases[i]).wf_at(2),
    ensures
        all_lines(release_lines(releases)),
    decreases releases.len(),
{
    if releases.len() > 0 {
        let rest = releases.drop_first();
        assert forall|i: int| 0 <= i < rest.len() implies (#[trigger] rest[i]).wf_at(2) by {
            assert(rest[i] == releases[i + 1]);
        }
        lemma_release_lines_are_lines(rest);
        let first = releases[0];
        assert(first.wf_at(2));
        lemma_release_heading(first.version, first.date);
        let block = block_lines(release_heading(first.version, first.date), first.body);
        lemma_block_lines_are_lines(release_heading(first.version, first.date), first.body);
        let all = release_lines(releases);
        assert forall|i: int| 0 <= i < all.len() implies is_line(#[trigger] all[i]) by {
            if i < block.len() {
                assert(all[i] == block[i]);
            } else {
                assert(all[i] == release_lines(rest)[i - block.len()]);
            }
        }
    }
}

/// Scanning the lines of one section, and the lines after it, yields that
/// section and then the sections of the lines after it.
pub proof fn lemma_scan_block(
    heading: Seq<char>,
    body: Seq<char>,
    tail: Seq<Seq<char>>,
    level: nat,
)
    requires
        heading_level(heading) == Some(level),
        is_body_at(body, level),
        tail.len() > 0 ==> is_boundary(tail[0], level),
    ensures
        sections_of(block_lines(heading, body) + tail, level) == seq![
            SectionView { header: heading_text(heading), level, body },
        ] + sections_of(tail, level),
{
    let e = Seq::<char>::empty();
    let block = block_lines(heading, body);
    let lines = block + tail;
    let rest = lines.drop_first();
    let inner = block.drop_first();
    let n = inner.len() as int;
    assert(lines[0] == heading);
    assert(rest =~= inner + tail);
    assert(hash_count(e) == 0);
    assert(!is_boundary(e, level));
    assert(is_blank(e));
    assert(inner[0] == e);
    if body.len() > 0 {
        let mid = split_lines(body);
        lemma_split_lines_are_lines(body);
        assert(inner =~= seq![e] + mid + seq![e]);
        assert forall|i: int| 0 <= i < n implies !is_boundary(#[trigger] rest[i], level) by {
            if 1 <= i < n - 1 {
                assert(rest[i] == mid[i - 1]);
            } else {
                assert(rest[i] == e);
            }
        }
        assert(inner[1] == mid[0]);
        lemma_drop_leading_blank_is_skip(inner, 1);
        let after = inner.skip(1);
        assert(after =~= mid + seq![e]);
        assert(after.last() == e);
        assert(after[mid.len() - 1] == mid.last());
        assert forall|i: int| mid.len() <= i < after.len() implies is_blank(#[trigger] after[i]) by {
            assert(after[i] == e);
        }
        lemma_drop_trailing_blank_is_take(after, mid.len() as int);
        assert(after.take(mid.len() as int) =~= mid);
        lemma_join_split(body);
        assert(body_text(inner) == body);
    } else {
        assert(inner =~= seq![e]);
        assert forall|i: int| 0 <= i < n implies !is_boundary(#[trigger] rest[i], level) by {
            assert(rest[i] == e);
        }
        lemma_drop_leading_blank_is_skip(inner, 1);
        assert(inner.skip(1) =~= Seq::<Seq<char>>::empty());
        assert(body_text(inner) =~= body);
    }
    if n < rest.len() {
        assert(rest[n] == tail[0]);
    }
    lemma_body_len_at(rest, level, n);
    assert(rest.take(n) =~= inner);
    assert(rest.skip(n) =~= tail);
    lemma_sections_skip_body(rest, level, n);
    assert(section_at(lines, level) == SectionView { header: heading_text(heading), level, body });
}

/// Scanning the lines of the sections of well-formed releases yields their sections.
proof fn lemma_scan_release_lines(releases: Seq<ReleaseEntryView>)
    requires
        forall|i: int| 0 <= i < releases.len() ==> (#[trigger] releases[i]).wf_at(2),
    ensures
        sections_of(release_lines(releases), 2) == release_sections(releases),
        releases.len() > 0 ==> release_lines(releases).len() > 0 && is_recognized(
            release_lines(releases)[0],
        ) && heading_level(release_lines(releases)[0]) == Some(2nat),
    decreases releases.len(),
{
    if releases.len() > 0 {
        let rest = releases.drop_first();
        assert forall|i: int| 0 <= i < rest.len() implies (#[trigger] rest[i]).wf_at(2) by {
            assert(rest[i] == releases[i + 1]);
        }
        lemma_scan_release_lines(rest);
        let first = releases[0];
        assert(first.wf_at(2));
        let heading = release_heading(first.version, first.date);
        lemma_release_heading(first.version, first.date);
        let tail = release_lines(rest);
        lemma_scan_block(heading, first.body, tail, 2);
        assert(release_lines(releases)[0] == heading);
        assert(release_sections(releases) =~= seq![release_section(first)] + release_sections(
            rest,
        ));
    } else {
        assert(release_sections(releases) =~= Seq::<SectionView>::empty());
    }
}

/// Scanning the canonical lines of a well-formed changelog yields its sections.
proof fn lemma_scan_canonical_lines(log: ChangelogView)
    requires
        log.wf(),
    ensures
        canonical_lines(log).len() > 0 ==> section_level(canonical_lines(log)) == Some(2nat),
        sections_of(canonical_lines(log), 2) == canonical_sections(log),
{
    lemma_scan_release_lines(log.releases);
    match log.unreleased {
        Some(body) => {
            lemma_unreleased_heading();
            lemma_scan_block(unreleased_heading(), body, release_lines(log.releases), 2);
            assert(canonical_lines(log)[0] == unreleased_heading());
        },
        None => {},
    }
}

/// Building from the sections of well-formed releases, after the first `k`
/// of them are in, yields all of them in their order.
proof fn lemma_build_releases(
    unreleased: Option<Seq<char>>,
    seen: bool,
    releases: Seq<ReleaseEntryView>,
    k: int,
)
    requires
        0 <= k <= releases.len(),
        forall|i: int| 0 <= i < releases.len() ==> (#[trigger] releases[i]).wf_at(2),
        forall|i: int, j: int|
            0 <= i < j < releases.len() ==> (#[trigger] releases[i]).version != (
            #[trigger] releases[j]).version,
    ensures
        build_from(
            BuildState {
                seen_unreleased: seen,
                log: ChangelogView { unreleased, releases: releases.take(k) },
            },
            release_sections(releases).skip(k),
        ) == Ok::<ChangelogView, ParseErrorView>(ChangelogView { unreleased, releases }),
    decreases releases.len() - k,
{
    let state = BuildState {
        seen_unreleased: seen,
        log: ChangelogView { unreleased, releases: releases.take(k) },
    };
    let sections = release_sections(releases).skip(k);
    if k == releases.len() {
        assert(releases.take(k) =~= releases);
        assert(sections.len() == 0);
    } else {
        let entry = releases[k];
        assert(entry.wf_at(2));
        assert(sections[0] == release_section(entry));
        lemma_release_heading(entry.version, entry.date);
        let done = releases.take(k);
        assert(!has_version(done, entry.version)) by {
            if has_version(done, entry.version) {
                let i = choose|i: int| 0 <= i < done.len() && (#[trigger] done[i]).version
                    == entry.version;
                assert(done[i] == releases[i]);
                assert(releases[i].version != releases[k].version);
            }
        }
        let pushed = done.push(
            ReleaseEntryView { version: entry.version, date: entry.date, body: entry.body },
        );
        assert(pushed =~= releases.take(k + 1));
        assert(sections.drop_first() =~= release_sections(releases).skip(k + 1));
        lemma_build_releases(unreleased, seen, releases, k + 1);
    }
}

/// Building from the canonical sections of a well-formed changelog yields it.
proof fn lemma_build_canonical_sections(log: ChangelogView)
    requires
        log.wf(),
    ensures
        build_spec(canonical_sections(log)) == Ok::<ChangelogView, ParseErrorView>(log),
{
    let releases = log.releases;
    assert(releases.take(0) =~= Seq::<ReleaseEntryView>::empty());
    assert(release_sections(releases).skip(0) =~= release_sections(releases));
    match log.unreleased {
        Some(body) => {
            lemma_unreleased_heading();
            let sections = canonical_sections(log);
            assert(sections[0].header == heading_text(unreleased_heading()));
            assert(sections[0].body == body);
            assert(sections.drop_first() =~= release_sections(releases));
            assert(present_body(body) == Some(body));
            lemma_build_releases(Some(body), true, releases, 0);
        },
        None => {
            lemma_build_releases(None, false, releases, 0);
        },
    }
}

/// Reading the canonical text of a well-formed changelog gives that
/// changelog back.
pub proof fn lemma_parse_render(log: ChangelogView)
    requires
        log.wf(),
    ensures
        parse_spec(render_spec(log)) == Ok::<ChangelogView, ParseErrorView>(log),
{
    lemma_render_lines(log);
    let lines = canonical_lines(log);
    let text = render_spec(log);
    if lines.len() == 0 {
        let e = Seq::<char>::empty();
        assert(text =~= e);
        let only = split_lines(e);
        assert(only =~= seq![e]);
        assert(hash_count(e) == 0);
        assert(!is_recognized(only[0]));
        assert(only.drop_first().len() == 0);
        assert(section_level(only.drop_first()) is None);
        assert(section_level(only) is None);
        assert(log.releases =~= Seq::<ReleaseEntryView>::empty());
    } else {
        lemma_release_lines_are_lines(log.releases);
        match log.unreleased {
            Some(body) => {
                lemma_unreleased_heading();
                lemma_block_lines_are_lines(unreleased_heading(), body);
                let block = block_lines(unreleased_heading(), body);
                assert forall|i: int| 0 <= i < lines.len() implies is_line(#[trigger] lines[i]) by {
                    if i < block.len() {
                        assert(lines[i] == block[i]);
                    } else {
                        assert(lines[i] == release_lines(log.releases)[i - block.len()]);
                    }
                }
            },
            None => {},
        }
        lemma_split_join(lines);
        lemma_scan_canonical_lines(log);
        lemma_build_canonical_sections(log);
    }
}

/// Canonical text is stable: the changelog read from the canonical text of a
/// well-formed changelog renders to that same text.
pub proof fn lemma_render_parse_render(log: ChangelogView)
    requires
        log.wf(),
    ensures
        parse_spec(render_spec(log)) is Ok,
        render_spec(parse_spec(render_spec(log))->Ok_0) == render_spec(log),
{
    lemma_parse_render(log);
}

/// Rendering what was read and reading it again changes nothing, for every
/// document whose sections have level two or deeper.
pub proof fn lemma_parse_render_parse(text: Seq<char>)
    requires
        parse_spec(text) is Ok,
        document_level(text) >= 2,
    ensures
        parse_spec(render_spec(parse_spec(text)->Ok_0)) == parse_spec(text),
{
    let log = parse_spec(text)->Ok_0;
    lemma_parsed_is_well_formed(text);
    lemma_wf_at_shallower(log, document_level(text), 2);
    lemma_parse_render(log);
}

} // verus!

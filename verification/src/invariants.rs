//! What holds of every changelog that parsing yields.

use crate::changelog::{
    build_from, build_step, has_version, initial_state, is_body_at, parse_spec, BuildState,
    ChangelogView, ReleaseEntryView,
};
use crate::classifier::{classify_spec, SectionKindView};
use crate::scanner::{
    body_len, body_text, drop_leading_blank, drop_trailing_blank, is_boundary, scan_spec,
    section_level, sections_of, SectionView,
};
use crate::text::{
    all_lines, is_blank, is_line, join_lines, lemma_split_join, lemma_split_lines_are_lines,
    split_lines,
};
use vstd::prelude::*;

verus! {

/// The section level of a document: the level of its first recognized
/// heading, or six for a document that has none.
pub open spec fn document_level(text: Seq<char>) -> nat {
    match section_level(split_lines(text)) {
        Some(level) => level,
        None => 6,
    }
}

/// What is left after dropping leading blank lines is a tail of the lines
/// that does not start with a blank line.
pub proof fn lemma_drop_leading_blank(lines: Seq<Seq<char>>) -> (n: int)
    ensures
        0 <= n <= lines.len(),
        drop_leading_blank(lines) == lines.skip(n),
        n < lines.len() ==> !is_blank(lines[n]),
    decreases lines.len(),
{
    if lines.len() > 0 && is_blank(lines[0]) {
        let m = lemma_drop_leading_blank(lines.drop_first());
        assert(lines.drop_first().skip(m) =~= lines.skip(m + 1));
        if m + 1 < lines.len() {
            assert(lines.drop_first()[m] == lines[m + 1]);
        }
        m + 1
    } else {
        assert(lines.skip(0) =~= lines);
        0
    }
}

/// What is left after dropping trailing blank lines is a head of the lines
/// that does not end with a blank line.
pub proof fn lemma_drop_trailing_blank(lines: Seq<Seq<char>>) -> (n: int)
    ensures
        0 <= n <= lines.len(),
        drop_trailing_blank(lines) == lines.take(n),
        n > 0 ==> !is_blank(lines[n - 1]),
    decreases lines.len(),
{
    if lines.len() > 0 && is_blank(lines.last()) {
        let m = lemma_drop_trailing_blank(lines.drop_last());
        assert(lines.drop_last().take(m) =~= lines.take(m));
        if m > 0 {
            assert(lines.drop_last()[m - 1] == lines[m - 1]);
        }
        m
    } else {
        assert(lines.take(lines.len() as int) =~= lines);
        lines.len() as int
    }
}

/// No line of a body is a boundary.
pub proof fn lemma_body_len_lines(lines: Seq<Seq<char>>, level: nat)
    ensures
        body_len(lines, level) <= lines.len(),
        forall|i: int| 0 <= i < body_len(lines, level) ==> !is_boundary(#[trigger] lines[i], level),
        body_len(lines, level) < lines.len() ==> is_boundary(
            lines[body_len(lines, level) as int],
            level,
        ),
    decreases lines.len(),
{
    if lines.len() == 0 || is_boundary(lines[0], level) {
    } else {
        let t = lines.drop_first();
        lemma_body_len_lines(t, level);
        let n = body_len(lines, level);
        assert forall|i: int| 0 <= i < n implies !is_boundary(#[trigger] lines[i], level) by {
            if i > 0 {
                assert(t[i - 1] == lines[i]);
            }
        }
        if n < lines.len() {
            assert(t[n - 1] == lines[n as int]);
        }
    }
}

/// The text that a run of lines without boundaries stands for can be the
/// body of a section.
pub proof fn lemma_body_text_is_body(lines: Seq<Seq<char>>, level: nat)
    requires
        all_lines(lines),
        forall|i: int| 0 <= i < lines.len() ==> !is_boundary(#[trigger] lines[i], level),
    ensures
        is_body_at(body_text(lines), level),
{
    let a = lemma_drop_leading_blank(lines);
    let mid = lines.skip(a);
    let b = lemma_drop_trailing_blank(mid);
    let kept = mid.take(b);
    let body = body_text(lines);
    assert(body == join_lines(kept));
    if body.len() > 0 {
        assert(kept.len() > 0);
        assert forall|i: int| 0 <= i < kept.len() implies is_line(#[trigger] kept[i])
            && !is_boundary(kept[i], level) by {
            assert(kept[i] == lines[a + i]);
        }
        lemma_split_join(kept);
        assert(kept[0] == mid[0]);
        assert(mid[0] == lines[a]);
        assert(kept.last() == mid[b - 1]);
    }
}

/// Every section that the scanner yields has a body fit for its level.
pub proof fn lemma_sections_have_bodies(lines: Seq<Seq<char>>, level: nat)
    requires
        all_lines(lines),
    ensures
        forall|i: int|
            0 <= i < sections_of(lines, level).len() ==> is_body_at(
                (#[trigger] sections_of(lines, level)[i]).body,
                level,
            ),
    decreases lines.len(),
{
    if lines.len() == 0 {
    } else {
        let rest = lines.drop_first();
        assert forall|i: int| 0 <= i < rest.len() implies is_line(#[trigger] rest[i]) by {
            assert(rest[i] == lines[i + 1]);
        }
        lemma_sections_have_bodies(rest, level);
        if is_boundary(lines[0], level) {
            lemma_body_len_lines(rest, level);
            let n = body_len(rest, level) as int;
            let part = rest.take(n);
            assert forall|i: int| 0 <= i < part.len() implies is_line(#[trigger] part[i])
                && !is_boundary(part[i], level) by {
                assert(part[i] == rest[i]);
            }
            lemma_body_text_is_body(part, level);
            let out = sections_of(lines, level);
            assert forall|i: int| 0 <= i < out.len() implies is_body_at(
                (#[trigger] out[i]).body,
                level,
            ) by {
                if i > 0 {
                    assert(out[i] == sections_of(rest, level)[i - 1]);
                }
            }
        }
    }
}

/// One step of the builder keeps the changelog well formed.
pub proof fn lemma_build_step_keeps_wf(state: BuildState, section: SectionView, level: nat)
    requires
        state.log.wf_at(level),
        is_body_at(section.body, level),
        build_step(state, section) is Ok,
    ensures
        build_step(state, section)->Ok_0.log.wf_at(level),
{
    let next = build_step(state, section)->Ok_0;
    match classify_spec(section.header) {
        SectionKindView::Unreleased => {},
        SectionKindView::Release { version, date } => {
            let old_releases = state.log.releases;
            let entry = ReleaseEntryView { version, date, body: section.body };
            assert(next.log.releases == old_releases.push(entry));
            assert(!has_version(old_releases, version));
            assert forall|i: int, j: int| 0 <= i < j < next.log.releases.len() implies (
            #[trigger] next.log.releases[i]).version != (#[trigger] next.log.releases[j]).version by {
                if j == old_releases.len() {
                    assert(old_releases[i].version != version);
                } else {
                    assert(next.log.releases[i] == old_releases[i]);
                    assert(next.log.releases[j] == old_releases[j]);
                }
            }
            assert forall|i: int| 0 <= i < next.log.releases.len() implies (
            #[trigger] next.log.releases[i]).wf_at(level) by {
                if i < old_releases.len() {
                    assert(next.log.releases[i] == old_releases[i]);
                }
            }
        },
        SectionKindView::Unknown => {},
    }
}

/// The builder keeps the changelog well formed over any run of sections.
pub proof fn lemma_build_keeps_wf(state: BuildState, sections: Seq<SectionView>, level: nat)
    requires
        state.log.wf_at(level),
        forall|i: int| 0 <= i < sections.len() ==> is_body_at((#[trigger] sections[i]).body, level),
        build_from(state, sections) is Ok,
    ensures
        build_from(state, sections)->Ok_0.wf_at(level),
    decreases sections.len(),
{
    if sections.len() > 0 {
        lemma_build_step_keeps_wf(state, sections[0], level);
        let next = build_step(state, sections[0])->Ok_0;
        let rest = sections.drop_first();
        assert forall|i: int| 0 <= i < rest.len() implies is_body_at(
            (#[trigger] rest[i]).body,
            level,
        ) by {
            assert(rest[i] == sections[i + 1]);
        }
        lemma_build_keeps_wf(next, rest, level);
    }
}

/// Every changelog that parsing yields is well formed for the section level
/// of its document: there is at most one unreleased body, no version occurs
/// twice, every release has a version token and, if any, a date that exists,
/// and no body holds a heading that would have started a section.
pub proof fn lemma_parsed_is_well_formed(text: Seq<char>)
    requires
        parse_spec(text) is Ok,
    ensures
        parse_spec(text)->Ok_0.wf_at(document_level(text)),
{
    let lines = split_lines(text);
    let level = document_level(text);
    lemma_split_lines_are_lines(text);
    match section_level(lines) {
        Some(l) => {
            lemma_sections_have_bodies(lines, l);
        },
        None => {},
    }
    lemma_build_keeps_wf(initial_state(), scan_spec(text), level);
}

/// A changelog that is well formed for some level is well formed for every
/// shallower level.
pub proof fn lemma_wf_at_shallower(log: ChangelogView, deep: nat, shallow: nat)
    requires
        log.wf_at(deep),
        shallow <= deep,
    ensures
        log.wf_at(shallow),
{
    assert forall|i: int| 0 <= i < log.releases.len() implies (#[trigger] log.releases[i]).wf_at(
        shallow,
    ) by {
        assert(log.releases[i].wf_at(deep));
    }
}

} // verus!

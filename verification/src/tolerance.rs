//! What a document may hold without changing the changelog that is read from it.

use crate::changelog::{
    build_from, build_step, initial_state, parse_spec, BuildState, ParseErrorView,
};
use crate::classifier::classify_spec;
use crate::scanner::{
    is_boundary, is_recognized, section_at, section_level, sections_of, SectionView,
};
use crate::text::{
    first_newline, lemma_first_newline, lemma_split_cons, lemma_split_single_line, newline,
    split_lines,
};
use vstd::prelude::*;

verus! {

/// True when no line of `lines` is a heading that names the unreleased
/// section or a release.
pub open spec fn none_recognized(lines: Seq<Seq<char>>) -> bool {
    forall|i: int| 0 <= i < lines.len() ==> !is_recognized(#[trigger] lines[i])
}

/// The lines of two texts with a line break between them are the lines of
/// the first and then the lines of the second.
pub proof fn lemma_split_concat(a: Seq<char>, b: Seq<char>)
    ensures
        split_lines(a + newline() + b) == split_lines(a) + split_lines(b),
    decreases a.len(),
{
    lemma_first_newline(a);
    let i = first_newline(a);
    if i >= a.len() {
        lemma_split_single_line(a);
        lemma_split_cons(a, b);
    } else {
        let head = a.subrange(0, i);
        let tail = a.subrange(i + 1, a.len() as int);
        lemma_split_concat(tail, b);
        lemma_split_cons(head, tail + newline() + b);
        assert(head + newline() + (tail + newline() + b) =~= a + newline() + b);
        assert(seq![head] + (split_lines(tail) + split_lines(b)) =~= (seq![head] + split_lines(
            tail,
        )) + split_lines(b));
    }
}

/// Lines without a recognized heading do not decide the section level.
proof fn lemma_section_level_after(before: Seq<Seq<char>>, rest: Seq<Seq<char>>)
    requires
        none_recognized(before),
    ensures
        section_level(before + rest) == section_level(rest),
    decreases before.len(),
{
    if before.len() == 0 {
        assert(before + rest =~= rest);
    } else {
        let all = before + rest;
        assert(all[0] == before[0]);
        assert(all.drop_first() =~= before.drop_first() + rest);
        assert forall|i: int| 0 <= i < before.drop_first().len() implies !is_recognized(
            #[trigger] before.drop_first()[i],
        ) by {
            assert(before.drop_first()[i] == before[i + 1]);
        }
        lemma_section_level_after(before.drop_first(), rest);
    }
}

/// Sections opened by lines without a recognized heading add nothing to
/// what the builder yields.
proof fn lemma_build_after(
    state: BuildState,
    before: Seq<Seq<char>>,
    rest: Seq<Seq<char>>,
    level: nat,
)
    requires
        none_recognized(before),
    ensures
        build_from(state, sections_of(before + rest, level)) == build_from(
            state,
            sections_of(rest, level),
        ),
    decreases before.len(),
{
    if before.len() == 0 {
        assert(before + rest =~= rest);
    } else {
        let all = before + rest;
        let tail = before.drop_first();
        assert(all[0] == before[0]);
        assert(all.drop_first() =~= tail + rest);
        assert forall|i: int| 0 <= i < tail.len() implies !is_recognized(#[trigger] tail[i]) by {
            assert(tail[i] == before[i + 1]);
        }
        lemma_build_after(state, tail, rest, level);
        if is_boundary(all[0], level) {
            let first = section_at(all, level);
            let sections = sections_of(all, level);
            assert(sections[0] == first);
            assert(sections.drop_first() =~= sections_of(tail + rest, level));
            assert(!is_recognized(before[0]));
            assert(classify_spec(first.header) is Unknown);
            assert(build_step(state, first) == Ok::<BuildState, ParseErrorView>(state));
        }
    }
}

/// Whatever comes before the first recognized heading is skipped: a text
/// none of whose lines is a recognized heading, put in front of a document,
/// changes nothing in what is read.
pub proof fn lemma_unrecognized_prefix_is_skipped(before: Seq<char>, rest: Seq<char>)
    requires
        none_recognized(split_lines(before)),
    ensures
        parse_spec(before + newline() + rest) == parse_spec(rest),
{
    lemma_split_concat(before, rest);
    let a = split_lines(before);
    let b = split_lines(rest);
    lemma_section_level_after(a, b);
    match section_level(b) {
        Some(level) => {
            lemma_build_after(initial_state(), a, b, level);
        },
        None => {},
    }
}

/// A section whose heading is of no known kind is dropped with its content.
pub proof fn lemma_unknown_section_is_dropped(
    state: BuildState,
    section: SectionView,
    rest: Seq<SectionView>,
)
    requires
        classify_spec(section.header) is Unknown,
    ensures
        build_from(state, seq![section] + rest) == build_from(state, rest),
{
    let all = seq![section] + rest;
    assert(all[0] == section);
    assert(all.drop_first() =~= rest);
}

} // verus!

//! Reading release notes back into the projects they were written for, and
//! the law that writing what was read changes nothing.

use crate::aggregate::{
    change_text, changelog_text, collect_sorted, counts_in, entries_view, is_sorted, join_sections,
    lemma_collect_sorted_is_sorted, lemma_collect_sorted_members, lemma_insert_sorted_at,
    lemma_sorted_pairs, lemma_text_lt_asymmetric, no_changes_line, notes_text, project_sections,
    section_gap, text_lt, EntryView,
};
use crate::changelog::is_body_at;
use crate::render::section_text;
use crate::roundtrip::{
    block_lines, lemma_block_lines_are_lines, lemma_join_nested, lemma_scan_block,
    lemma_section_text_lines, lemma_trim_identity,
};
use crate::scanner::{
    hash_count, heading_level, heading_text, is_boundary, scan_at_level, sections_of, SectionView,
};
use crate::text::{
    all_lines, is_blank, is_line, is_whitespace, join_lines, lemma_join_concat, lemma_split_cons,
    lemma_split_join, lemma_split_single_line, lemma_trim_start_is_skip, newline, split_lines,
};
use vstd::prelude::*;

verus! {

/// The project that a section of release notes stands for: the text of the
/// heading is its identifier, the body its changes.
pub open spec fn entry_of_section(section: SectionView) -> EntryView {
    EntryView { id: section.header, changes: Some(Some(section.body)) }
}

/// The projects that release notes stand for: one for each heading of level
/// one, in order.
pub open spec fn read_notes_spec(text: Seq<char>) -> Seq<EntryView> {
    let sections = sections_of(split_lines(text), 1);
    Seq::new(sections.len(), |i: int| entry_of_section(sections[i]))
}

/// Reads release notes back: one pair for each heading of level one, made
/// of the text of the heading and the body beneath it.
pub fn read_notes(text: &str) -> (entries: Vec<(String, Option<Option<String>>)>)
    ensures
        entries_view(entries@) == read_notes_spec(text@),
{
    let sections = scan_at_level(text, 1);
    let ghost wanted = read_notes_spec(text@);
    let mut entries: Vec<(String, Option<Option<String>>)> = Vec::new();
    let mut i: usize = 0;
    while i < sections.len()
        invariant
            i <= sections.len(),
            wanted.len() == sections.len(),
            entries@.len() == i,
            forall|k: int| 0 <= k < sections.len() ==> wanted[k] == entry_of_section(sections@[k]@),
            forall|k: int| 0 <= k < i ==> entries_view(entries@)[k] == wanted[k],
        decreases sections.len() - i,
    {
        let ghost before = entries_view(entries@);
        entries.push((sections[i].header.clone(), Some(Some(sections[i].body.clone()))));
        proof {
            assert forall|k: int| 0 <= k < i + 1 implies entries_view(entries@)[k]
                == wanted[k] by {
                if k < i {
                    assert(entries_view(entries@)[k] == before[k]);
                }
            }
        }
        i += 1;
    }
    assert(entries_view(entries@) =~= wanted);
    entries
}

/// The heading line of a project in release notes.
pub open spec fn project_heading(id: Seq<char>) -> Seq<char> {
    seq!['#', ' '] + id
}

/// What stands beneath the heading of a project: its change text, or the
/// line that stands for none.
pub open spec fn written_body(entry: EntryView) -> Seq<char> {
    match change_text(entry.changes) {
        Some(text) => text,
        None => no_changes_line(),
    }
}

/// An identifier that a heading line gives back: one line without white
/// space at either end.
pub open spec fn is_project_id(id: Seq<char>) -> bool {
    &&& is_line(id)
    &&& id.len() > 0 ==> !is_whitespace(id[0]) && !is_whitespace(id.last())
}

/// A project that release notes give back: its identifier is one that a
/// heading gives back, and its change text, if any, is not empty, has no
/// blank line at either end and holds no heading of level one.
pub open spec fn reads_back(entry: EntryView) -> bool {
    &&& is_project_id(entry.id)
    &&& match change_text(entry.changes) {
        Some(text) => text.len() > 0 && is_body_at(text, 1),
        None => true,
    }
}

/// The lines of the release notes for `map`.
pub open spec fn notes_lines(map: Seq<EntryView>) -> Seq<Seq<char>>
    decreases map.len(),
{
    if map.len() == 0 {
        Seq::empty()
    } else {
        block_lines(project_heading(map[0].id), written_body(map[0])) + notes_lines(
            map.drop_first(),
        )
    }
}

/// The sections of the release notes for `map`, each with its closing line break.
pub open spec fn closed_sections(map: Seq<EntryView>) -> Seq<Seq<char>> {
    Seq::new(map.len(), |i: int| section_text(project_heading(map[i].id), written_body(map[i])))
}

/// The projects as release notes give them back: each with the text that
/// stood beneath its heading.
pub open spec fn as_read(map: Seq<EntryView>) -> Seq<EntryView> {
    Seq::new(
        map.len(),
        |i: int| EntryView { id: map[i].id, changes: Some(Some(written_body(map[i]))) },
    )
}

/// The heading line of a project is a heading of level one whose text is
/// the identifier.
proof fn lemma_project_heading(id: Seq<char>)
    requires
        is_project_id(id),
    ensures
        heading_level(project_heading(id)) == Some(1nat),
        heading_text(project_heading(id)) == id,
        is_line(project_heading(id)),
{
    let line = project_heading(id);
    let l1 = line.drop_first();
    assert(line[0] == '#');
    assert(l1[0] == ' ');
    assert(hash_count(l1) == 0);
    assert(hash_count(line) == 1);
    assert(line[1] == ' ');
    let tail = line.skip(1);
    assert(tail =~= seq![' '] + id);
    assert(tail[0] == ' ');
    if id.len() > 0 {
        assert(tail[1] == id[0]);
        lemma_trim_start_is_skip(tail, 1);
        assert(tail.skip(1) =~= id);
        lemma_trim_identity(id);
    } else {
        lemma_trim_start_is_skip(tail, 1);
        assert(tail.skip(1) =~= id);
    }
    assert forall|i: int| 0 <= i < line.len() implies #[trigger] line[i] != '\n' by {
        if i >= 2 {
            assert(line[i] == id[i - 2]);
        }
    }
}

/// The line that stands for no changes can be the body of a section.
proof fn lemma_no_changes_line_is_body()
    ensures
        no_changes_line().len() > 0,
        is_body_at(no_changes_line(), 1),
{
    let line = no_changes_line();
    assert(line[0] == '-');
    assert forall|i: int| 0 <= i < line.len() implies #[trigger] line[i] != '\n' by {
        if i == 0 {
        } else if i == 1 {
        } else if i == 2 {
        } else if i == 3 {
        } else if i == 4 {
        } else if i == 5 {
        } else if i == 6 {
        } else if i == 7 {
        } else if i == 8 {
        } else if i == 9 {
        } else if i == 10 {
        } else {
        }
    }
    lemma_split_single_line(line);
    assert(!is_blank(line)) by {
        if is_blank(line) {
            assert(is_whitespace(line[0]));
        }
    }
    assert(hash_count(line) == 0);
    assert(split_lines(line)[0] == line);
}

/// What stands beneath the heading of a project that reads back is not
/// empty and can be the body of a section.
proof fn lemma_written_body(entry: EntryView)
    requires
        reads_back(entry),
    ensures
        written_body(entry).len() > 0,
        is_body_at(written_body(entry), 1),
{
    lemma_no_changes_line_is_body();
}

/// The release notes are their sections, each closed by a line break,
/// joined as lines.
proof fn lemma_notes_text_closed(map: Seq<EntryView>)
    requires
        map.len() > 0,
        forall|i: int| 0 <= i < map.len() ==> written_body(#[trigger] map[i]).len() > 0,
    ensures
        notes_text(project_sections(map)) == join_lines(closed_sections(map)),
    decreases map.len(),
{
    let parts = project_sections(map);
    let texts = closed_sections(map);
    let last = map.last();
    assert(written_body(last).len() > 0);
    assert(texts.last() =~= parts.last() + newline());
    if map.len() == 1 {
        assert(texts[0] == texts.last());
        assert(parts[0] == parts.last());
    } else {
        let before = map.drop_last();
        assert forall|i: int| 0 <= i < before.len() implies written_body(#[trigger] before[i]).len()
            > 0 by {
            assert(before[i] == map[i]);
        }
        lemma_notes_text_closed(before);
        assert(parts.drop_last() =~= project_sections(before));
        assert(texts.drop_last() =~= closed_sections(before));
        lemma_join_concat(texts.drop_last(), seq![texts.last()]);
        assert(texts.drop_last() + seq![texts.last()] =~= texts);
        assert(join_sections(parts) == join_sections(parts.drop_last()) + section_gap()
            + parts.last());
        assert(join_sections(parts.drop_last()) + section_gap() + parts.last() + newline() =~= (
        join_sections(parts.drop_last()) + newline()) + newline() + (parts.last() + newline()));
    }
}

/// The closed sections, joined, are the lines of the notes, joined.
proof fn lemma_closed_sections_lines(map: Seq<EntryView>)
    ensures
        join_lines(closed_sections(map)) == join_lines(notes_lines(map)),
        map.len() == 0 <==> notes_lines(map).len() == 0,
    decreases map.len(),
{
    if map.len() > 0 {
        let rest = map.drop_first();
        lemma_closed_sections_lines(rest);
        let heading = project_heading(map[0].id);
        lemma_section_text_lines(heading, written_body(map[0]));
        assert(closed_sections(map) =~= seq![section_text(heading, written_body(map[0]))]
            + closed_sections(rest));
        lemma_join_nested(
            block_lines(heading, written_body(map[0])),
            closed_sections(rest),
            notes_lines(rest),
        );
    } else {
        assert(closed_sections(map) =~= Seq::<Seq<char>>::empty());
    }
}

/// The tail of a run of projects that read back reads back.
proof fn lemma_reads_back_tail(map: Seq<EntryView>)
    requires
        map.len() > 0,
        forall|i: int| 0 <= i < map.len() ==> reads_back(#[trigger] map[i]),
    ensures
        forall|i: int| 0 <= i < map.drop_first().len() ==> reads_back(#[trigger] map.drop_first()[i]),
{
    let rest = map.drop_first();
    assert forall|i: int| 0 <= i < rest.len() implies reads_back(#[trigger] rest[i]) by {
        assert(rest[i] == map[i + 1]);
    }
}

/// No line of the notes holds a line break.
proof fn lemma_notes_lines_are_lines(map: Seq<EntryView>)
    requires
        forall|i: int| 0 <= i < map.len() ==> reads_back(#[trigger] map[i]),
    ensures
        all_lines(notes_lines(map)),
    decreases map.len(),
{
    if map.len() > 0 {
        let rest = map.drop_first();
        lemma_reads_back_tail(map);
        lemma_notes_lines_are_lines(rest);
        assert(reads_back(map[0]));
        let heading = project_heading(map[0].id);
        lemma_project_heading(map[0].id);
        lemma_block_lines_are_lines(heading, written_body(map[0]));
        let block = block_lines(heading, written_body(map[0]));
        let all = notes_lines(map);
        assert forall|i: int| 0 <= i < all.len() implies is_line(#[trigger] all[i]) by {
            if i < block.len() {
                assert(all[i] == block[i]);
            } else {
                assert(all[i] == notes_lines(rest)[i - block.len()]);
            }
        }
    }
}

/// Scanning the lines of the notes yields one section for each project,
/// with its identifier and what stood beneath its heading.
proof fn lemma_scan_notes_lines(map: Seq<EntryView>)
    requires
        forall|i: int| 0 <= i < map.len() ==> reads_back(#[trigger] map[i]),
    ensures
        sections_of(notes_lines(map), 1).len() == map.len(),
        forall|i: int|
            0 <= i < map.len() ==> entry_of_section(
                #[trigger] sections_of(notes_lines(map), 1)[i],
            ) == as_read(map)[i],
        map.len() > 0 ==> notes_lines(map).len() > 0 && is_boundary(notes_lines(map)[0], 1),
    decreases map.len(),
{
    if map.len() > 0 {
        let rest = map.drop_first();
        lemma_reads_back_tail(map);
        lemma_scan_notes_lines(rest);
        assert(reads_back(map[0]));
        lemma_written_body(map[0]);
        let heading = project_heading(map[0].id);
        lemma_project_heading(map[0].id);
        lemma_scan_block(heading, written_body(map[0]), notes_lines(rest), 1);
        assert(notes_lines(map)[0] == heading);
        let out = sections_of(notes_lines(map), 1);
        assert forall|i: int| 0 <= i < map.len() implies entry_of_section(#[trigger] out[i])
            == as_read(map)[i] by {
            if i > 0 {
                assert(out[i] == sections_of(notes_lines(rest), 1)[i - 1]);
                assert(as_read(map)[i] == as_read(rest)[i - 1]);
            }
        }
    }
}

/// Sorting a run of entries that is already sorted changes nothing.
proof fn lemma_collect_sorted_of_sorted(map: Seq<EntryView>)
    requires
        is_sorted(map),
    ensures
        collect_sorted(map) == map,
    decreases map.len(),
{
    if map.len() > 0 {
        let before = map.drop_last();
        let last = map.last();
        assert forall|i: int| 0 <= i < before.len() - 1 implies text_lt(
            #[trigger] before[i].id,
            before[i + 1].id,
        ) by {
            assert(before[i] == map[i]);
            assert(before[i + 1] == map[i + 1]);
        }
        lemma_collect_sorted_of_sorted(before);
        assert forall|k: int| 0 <= k < before.len() implies !text_lt(
            last.id,
            (#[trigger] before[k]).id,
        ) && last.id != before[k].id by {
            lemma_sorted_pairs(map, k, map.len() - 1);
            lemma_text_lt_asymmetric(map[k].id, last.id);
        }
        lemma_insert_sorted_at(before, last, before.len() as int);
        assert(before.take(before.len() as int) + seq![last] + before.skip(before.len() as int)
            =~= map);
    }
}

/// Release notes read back and written again are the same text, for
/// projects whose identifiers and changes the notes give back.
pub proof fn lemma_notes_read_back(entries: Seq<EntryView>)
    requires
        forall|i: int| 0 <= i < entries.len() ==> reads_back(#[trigger] entries[i]),
    ensures
        changelog_text(read_notes_spec(changelog_text(entries))) == changelog_text(entries),
{
    let map = collect_sorted(entries);
    let text = changelog_text(entries);
    lemma_collect_sorted_is_sorted(entries);
    assert forall|k: int| 0 <= k < map.len() implies reads_back(#[trigger] map[k]) by {
        assert(map.contains(map[k]));
        lemma_collect_sorted_members(entries, map[k]);
        assert(counts_in(entries, map[k]));
    }
    let read = read_notes_spec(text);
    if map.len() == 0 {
        let e = Seq::<char>::empty();
        assert(project_sections(map) =~= Seq::<Seq<char>>::empty());
        assert(text =~= e + newline() + e);
        lemma_split_cons(e, e);
        lemma_split_single_line(e);
        let lines = split_lines(text);
        assert(lines =~= seq![e, e]);
        assert(hash_count(e) == 0);
        assert(!is_boundary(e, 1));
        let l1 = lines.drop_first();
        assert(l1[0] == e);
        assert(l1.drop_first().len() == 0);
        assert(sections_of(l1.drop_first(), 1).len() == 0);
        assert(sections_of(l1, 1).len() == 0);
        assert(lines[0] == e);
        assert(sections_of(lines, 1).len() == 0);
        assert(read =~= Seq::<EntryView>::empty());
        assert(collect_sorted(read) =~= map);
    } else {
        assert forall|k: int| 0 <= k < map.len() implies written_body(#[trigger] map[k]).len()
            > 0 by {
            lemma_written_body(map[k]);
        }
        lemma_notes_text_closed(map);
        lemma_closed_sections_lines(map);
        lemma_notes_lines_are_lines(map);
        lemma_split_join(notes_lines(map));
        lemma_scan_notes_lines(map);
        assert(read =~= as_read(map));
        assert forall|i: int| 0 <= i < read.len() - 1 implies text_lt(
            #[trigger] read[i].id,
            read[i + 1].id,
        ) by {
            assert(text_lt(map[i].id, map[i + 1].id));
        }
        lemma_collect_sorted_of_sorted(read);
        assert(project_sections(read) =~= project_sections(map));
    }
}

} // verus!

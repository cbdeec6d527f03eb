//! Release notes across projects: one heading for each project, in the
//! order of the project identifiers, with the project's changes beneath.
//! Every project gets its heading; one without change text gets the line
//! `- No changes`. The text ends with a single line break.

use crate::notes::{lemma_notes_read_back, read_notes_spec, reads_back};
use crate::text::{chars_of, newline, push_all, string_of};
use vstd::prelude::*;

verus! {

/// What one project contributes: its identifier and its changes. The
/// changes are `Some(Some(text))` for a project with change text; `None`
/// and `Some(None)` both stand for a project without any.
pub struct EntryView {
    pub id: Seq<char>,
    pub changes: Option<Option<Seq<char>>>,
}

/// The view of a project's changes.
pub open spec fn changes_view(changes: Option<Option<String>>) -> Option<Option<Seq<char>>> {
    match changes {
        Some(Some(text)) => Some(Some(text@)),
        Some(None) => Some(None),
        None => None,
    }
}

/// The view of one `(identifier, changes)` pair.
pub open spec fn entry_view(entry: (String, Option<Option<String>>)) -> EntryView {
    EntryView { id: entry.0@, changes: changes_view(entry.1) }
}

/// The views of a run of `(identifier, changes)` pairs.
pub open spec fn entries_view(entries: Seq<(String, Option<Option<String>>)>) -> Seq<EntryView> {
    Seq::new(entries.len(), |i: int| entry_view(entries[i]))
}

/// The order of texts: character by character, by code point, a proper
/// prefix before what it is a prefix of.
pub open spec fn text_lt(a: Seq<char>, b: Seq<char>) -> bool
    decreases a.len(),
{
    if b.len() == 0 {
        false
    } else if a.len() == 0 {
        true
    } else if a[0] != b[0] {
        a[0] < b[0]
    } else {
        text_lt(a.drop_first(), b.drop_first())
    }
}

/// True when the identifiers of `map` strictly ascend.
pub open spec fn is_sorted(map: Seq<EntryView>) -> bool {
    forall|i: int| 0 <= i < map.len() - 1 ==> text_lt(#[trigger] map[i].id, map[i + 1].id)
}

/// `map`, which is sorted, with `entry` put in its place; an entry with the
/// same identifier gives way to it.
pub open spec fn insert_sorted(map: Seq<EntryView>, entry: EntryView) -> Seq<EntryView>
    decreases map.len(),
{
    if map.len() == 0 {
        seq![entry]
    } else if text_lt(entry.id, map[0].id) {
        seq![entry] + map
    } else if entry.id == map[0].id {
        seq![entry] + map.drop_first()
    } else {
        seq![map[0]] + insert_sorted(map.drop_first(), entry)
    }
}

/// The entries sorted by identifier; of entries with one identifier the last stays.
pub open spec fn collect_sorted(entries: Seq<EntryView>) -> Seq<EntryView>
    decreases entries.len(),
{
    if entries.len() == 0 {
        Seq::empty()
    } else {
        insert_sorted(collect_sorted(entries.drop_last()), entries.last())
    }
}

/// The line that stands for a project without change text.
pub open spec fn no_changes_line() -> Seq<char> {
    seq!['-', ' ', 'N', 'o', ' ', 'c', 'h', 'a', 'n', 'g', 'e', 's']
}

/// What parts one project's section from the next: a line break and a blank line.
pub open spec fn section_gap() -> Seq<char> {
    seq!['\n', '\n']
}

/// The section of one project: `# `, the identifier, a blank line, and the
/// changes as they are, or the line that stands for none.
pub open spec fn project_section(id: Seq<char>, changes: Option<Seq<char>>) -> Seq<char> {
    seq!['#', ' '] + id + section_gap() + match changes {
        Some(text) => text,
        None => no_changes_line(),
    }
}

/// The change text of a project, if it has any.
pub open spec fn change_text(changes: Option<Option<Seq<char>>>) -> Option<Seq<char>> {
    match changes {
        Some(text) => text,
        None => None,
    }
}

/// The sections of the projects of `map`, one for each, in order.
pub open spec fn project_sections(map: Seq<EntryView>) -> Seq<Seq<char>> {
    Seq::new(map.len(), |i: int| project_section(map[i].id, change_text(map[i].changes)))
}

/// `parts` put together with a blank line between neighbours.
pub open spec fn join_sections(parts: Seq<Seq<char>>) -> Seq<char>
    decreases parts.len(),
{
    if parts.len() == 0 {
        Seq::empty()
    } else if parts.len() == 1 {
        parts[0]
    } else {
        join_sections(parts.drop_last()) + section_gap() + parts.last()
    }
}

/// The release notes made of `sections`: the sections as they are, with a
/// blank line between neighbours, and one line break at the end.
pub open spec fn notes_text(sections: Seq<Seq<char>>) -> Seq<char> {
    join_sections(sections) + newline()
}

/// The release notes for the projects of `entries`.
pub open spec fn changelog_text(entries: Seq<EntryView>) -> Seq<char> {
    notes_text(project_sections(collect_sorted(entries)))
}

/// Of two different texts one comes before the other.
pub proof fn lemma_text_lt_total(a: Seq<char>, b: Seq<char>)
    requires
        a != b,
    ensures
        text_lt(a, b) || text_lt(b, a),
    decreases a.len(),
{
    if a.len() > 0 && b.len() > 0 && a[0] == b[0] {
        if a.drop_first() == b.drop_first() {
            assert(a =~= seq![a[0]] + a.drop_first());
            assert(b =~= seq![b[0]] + b.drop_first());
        }
        lemma_text_lt_total(a.drop_first(), b.drop_first());
    } else if a.len() == 0 && b.len() == 0 {
        assert(a =~= b);
    }
}

/// No text comes before itself, and of two texts at most one comes before the other.
pub proof fn lemma_text_lt_asymmetric(a: Seq<char>, b: Seq<char>)
    ensures
        !(text_lt(a, b) && text_lt(b, a)),
        !text_lt(a, a),
    decreases a.len(),
{
    if a.len() > 0 && b.len() > 0 && a[0] == b[0] {
        lemma_text_lt_asymmetric(a.drop_first(), b.drop_first());
    }
    if a.len() > 0 {
        lemma_text_lt_asymmetric(a.drop_first(), a.drop_first());
    }
}

/// Putting an entry in its place keeps the identifiers ascending, and the
/// first identifier is the old first one or the new one.
pub proof fn lemma_insert_sorted(map: Seq<EntryView>, entry: EntryView)
    requires
        is_sorted(map),
    ensures
        is_sorted(insert_sorted(map, entry)),
        insert_sorted(map, entry).len() >= 1,
        insert_sorted(map, entry)[0].id == entry.id || (map.len() > 0 && insert_sorted(
            map,
            entry,
        )[0] == map[0] && text_lt(map[0].id, entry.id)),
    decreases map.len(),
{
    let out = insert_sorted(map, entry);
    if map.len() == 0 {
    } else if text_lt(entry.id, map[0].id) {
        assert forall|i: int| 0 <= i < out.len() - 1 implies text_lt(
            #[trigger] out[i].id,
            out[i + 1].id,
        ) by {
            if i > 0 {
                assert(out[i] == map[i - 1]);
                assert(out[i + 1] == map[i]);
            }
        }
    } else if entry.id == map[0].id {
        assert forall|i: int| 0 <= i < out.len() - 1 implies text_lt(
            #[trigger] out[i].id,
            out[i + 1].id,
        ) by {
            assert(out[i + 1] == map[i + 1]);
            if i > 0 {
                assert(out[i] == map[i]);
            }
        }
    } else {
        let rest = map.drop_first();
        assert forall|i: int| 0 <= i < rest.len() - 1 implies text_lt(
            #[trigger] rest[i].id,
            rest[i + 1].id,
        ) by {
            assert(rest[i] == map[i + 1]);
            assert(rest[i + 1] == map[i + 2]);
        }
        lemma_insert_sorted(rest, entry);
        lemma_text_lt_total(entry.id, map[0].id);
        let tail = insert_sorted(rest, entry);
        assert forall|i: int| 0 <= i < out.len() - 1 implies text_lt(
            #[trigger] out[i].id,
            out[i + 1].id,
        ) by {
            if i == 0 {
                assert(out[1] == tail[0]);
                if tail[0].id != entry.id {
                    assert(tail[0] == rest[0]);
                    assert(rest[0] == map[1]);
                }
            } else {
                assert(out[i] == tail[i - 1]);
                assert(out[i + 1] == tail[i]);
            }
        }
    }
}

/// The sorted entries have strictly ascending identifiers: the headings of
/// the release notes come in the order of the project identifiers, each once.
pub proof fn lemma_collect_sorted_is_sorted(entries: Seq<EntryView>)
    ensures
        is_sorted(collect_sorted(entries)),
    decreases entries.len(),
{
    if entries.len() > 0 {
        lemma_collect_sorted_is_sorted(entries.drop_last());
        lemma_insert_sorted(collect_sorted(entries.drop_last()), entries.last());
    }
}

/// The order of texts is transitive.
pub proof fn lemma_text_lt_transitive(a: Seq<char>, b: Seq<char>, c: Seq<char>)
    requires
        text_lt(a, b),
        text_lt(b, c),
    ensures
        text_lt(a, c),
    decreases a.len(),
{
    if a.len() > 0 && b.len() > 0 && c.len() > 0 && a[0] == b[0] && b[0] == c[0] {
        lemma_text_lt_transitive(a.drop_first(), b.drop_first(), c.drop_first());
    }
}

/// In a sorted run every entry comes before every later one.
pub proof fn lemma_sorted_pairs(map: Seq<EntryView>, i: int, j: int)
    requires
        is_sorted(map),
        0 <= i < j < map.len(),
    ensures
        text_lt(map[i].id, map[j].id),
    decreases j - i,
{
    if j > i + 1 {
        lemma_sorted_pairs(map, i, j - 1);
        assert(text_lt(map[j - 1].id, map[j].id));
        lemma_text_lt_transitive(map[i].id, map[j - 1].id, map[j].id);
    }
}

/// The tail of a sorted run is sorted.
proof fn lemma_sorted_tail(map: Seq<EntryView>)
    requires
        is_sorted(map),
        map.len() > 0,
    ensures
        is_sorted(map.drop_first()),
{
    let rest = map.drop_first();
    assert forall|i: int| 0 <= i < rest.len() - 1 implies text_lt(
        #[trigger] rest[i].id,
        rest[i + 1].id,
    ) by {
        assert(rest[i] == map[i + 1]);
        assert(rest[i + 1] == map[i + 2]);
    }
}

/// After an entry is put in its place, the run holds that entry and, of the
/// entries it held before, those with another identifier.
pub proof fn lemma_insert_sorted_members(map: Seq<EntryView>, entry: EntryView, x: EntryView)
    requires
        is_sorted(map),
    ensures
        insert_sorted(map, entry).contains(x) <==> (x == entry || (map.contains(x) && x.id
            != entry.id)),
    decreases map.len(),
{
    let out = insert_sorted(map, entry);
    if map.len() == 0 {
        assert(out[0] == entry);
    } else if text_lt(entry.id, map[0].id) {
        assert(out[0] == entry);
        if out.contains(x) {
            let k = choose|k: int| 0 <= k < out.len() && out[k] == x;
            if k > 0 {
                assert(map[k - 1] == x);
            }
        }
        if map.contains(x) {
            let k = choose|k: int| 0 <= k < map.len() && map[k] == x;
            assert(out[k + 1] == x);
            if k > 0 {
                lemma_sorted_pairs(map, 0, k);
                lemma_text_lt_transitive(entry.id, map[0].id, map[k].id);
            }
            lemma_text_lt_asymmetric(entry.id, x.id);
        }
    } else if entry.id == map[0].id {
        let rest = map.drop_first();
        assert(out[0] == entry);
        if out.contains(x) {
            let k = choose|k: int| 0 <= k < out.len() && out[k] == x;
            if k > 0 {
                assert(rest[k - 1] == x);
                assert(map[k] == x);
                lemma_sorted_pairs(map, 0, k);
                lemma_text_lt_asymmetric(map[0].id, x.id);
            }
        }
        if map.contains(x) && x.id != entry.id {
            let k = choose|k: int| 0 <= k < map.len() && map[k] == x;
            assert(k > 0);
            assert(out[k] == rest[k - 1]);
            assert(out[k] == x);
        }
    } else {
        let rest = map.drop_first();
        let tail = insert_sorted(rest, entry);
        lemma_sorted_tail(map);
        lemma_insert_sorted_members(rest, entry, x);
        assert(out[0] == map[0]);
        if out.contains(x) {
            let k = choose|k: int| 0 <= k < out.len() && out[k] == x;
            if k > 0 {
                assert(tail[k - 1] == x);
                assert(tail.contains(x));
                if x != entry {
                    let m = choose|m: int| 0 <= m < rest.len() && rest[m] == x;
                    assert(map[m + 1] == x);
                }
            } else {
                assert(map[0] == x);
            }
        }
        if x == entry || (map.contains(x) && x.id != entry.id) {
            if x == map[0] && x != entry {
                assert(out[0] == x);
            } else {
                if x != entry {
                    let m = choose|m: int| 0 <= m < map.len() && map[m] == x;
                    assert(m > 0);
                    assert(rest[m - 1] == x);
                    assert(rest.contains(x));
                }
                assert(tail.contains(x));
                let k = choose|k: int| 0 <= k < tail.len() && tail[k] == x;
                assert(out[k + 1] == x);
            }
        }
    }
}

/// True when no pair after position `i` has the identifier of the pair at `i`.
pub open spec fn is_last_of_its_id(entries: Seq<EntryView>, i: int) -> bool {
    forall|j: int| i < j < entries.len() ==> (#[trigger] entries[j]).id != entries[i].id
}

/// True when `x` is one of `entries` and the last with its identifier.
pub open spec fn counts_in(entries: Seq<EntryView>, x: EntryView) -> bool {
    exists|i: int| 0 <= i < entries.len() && #[trigger] entries[i] == x && is_last_of_its_id(entries, i)
}

/// The sorted entries are exactly the pairs that count: for each
/// identifier the last pair that has it.
pub proof fn lemma_collect_sorted_members(entries: Seq<EntryView>, x: EntryView)
    ensures
        collect_sorted(entries).contains(x) <==> counts_in(entries, x),
    decreases entries.len(),
{
    if entries.len() == 0 {
    } else {
        let before = entries.drop_last();
        let last = entries.last();
        let n = before.len() as int;
        lemma_collect_sorted_members(before, x);
        lemma_collect_sorted_is_sorted(before);
        lemma_insert_sorted_members(collect_sorted(before), last, x);
        if counts_in(entries, x) {
            let i = choose|i: int|
                0 <= i < entries.len() && #[trigger] entries[i] == x && is_last_of_its_id(
                    entries,
                    i,
                );
            if i < n {
                assert(entries[n] == last);
                assert(x.id != last.id);
                assert(before[i] == x);
                assert forall|j: int| i < j < before.len() implies (#[trigger] before[j]).id
                    != before[i].id by {
                    assert(before[j] == entries[j]);
                }
                assert(is_last_of_its_id(before, i));
                assert(counts_in(before, x));
            }
        }
        if collect_sorted(entries).contains(x) {
            if x == last {
                assert(entries[n] == x);
                assert(is_last_of_its_id(entries, n));
            } else {
                assert(counts_in(before, x));
                let i = choose|i: int|
                    0 <= i < before.len() && #[trigger] before[i] == x && is_last_of_its_id(
                        before,
                        i,
                    );
                assert(entries[i] == x);
                assert forall|j: int| i < j < entries.len() implies (#[trigger] entries[j]).id
                    != entries[i].id by {
                    if j < n {
                        assert(before[j] == entries[j]);
                    }
                }
                assert(is_last_of_its_id(entries, i));
            }
        }
    }
}

/// Every identifier among the entries is the identifier of one of the
/// sorted entries: sorting leaves no project out.
pub proof fn lemma_every_identifier_is_kept(entries: Seq<EntryView>, i: int) -> (k: int)
    requires
        0 <= i < entries.len(),
    ensures
        0 <= k < collect_sorted(entries).len(),
        collect_sorted(entries)[k].id == entries[i].id,
    decreases entries.len(),
{
    let before = entries.drop_last();
    let last = entries.last();
    let sorted = collect_sorted(entries);
    lemma_collect_sorted_is_sorted(before);
    if i == entries.len() - 1 || entries[i].id == last.id {
        lemma_insert_sorted_members(collect_sorted(before), last, last);
        let k = choose|k: int| 0 <= k < sorted.len() && sorted[k] == last;
        k
    } else {
        assert(before[i] == entries[i]);
        let m = lemma_every_identifier_is_kept(before, i);
        let x = collect_sorted(before)[m];
        assert(collect_sorted(before).contains(x));
        lemma_insert_sorted_members(collect_sorted(before), last, x);
        let k = choose|k: int| 0 <= k < sorted.len() && sorted[k] == x;
        k
    }
}

/// Every project has its section in the release notes: for each identifier
/// among the entries one of the sections is that of a project with it.
pub proof fn lemma_every_project_has_its_section(entries: Seq<EntryView>, i: int) -> (k: int)
    requires
        0 <= i < entries.len(),
    ensures
        0 <= k < project_sections(collect_sorted(entries)).len(),
        project_sections(collect_sorted(entries))[k] == project_section(
            entries[i].id,
            change_text(collect_sorted(entries)[k].changes),
        ),
{
    lemma_every_identifier_is_kept(entries, i)
}

/// The release notes end with a line break, and with no more than one
/// where the last section does not itself end with one.
pub proof fn lemma_notes_end_with_one_line_break(sections: Seq<Seq<char>>)
    ensures
        notes_text(sections).len() >= 1,
        notes_text(sections).last() == '\n',
        sections.len() > 0 && sections.last().len() > 0 && sections.last().last() != '\n'
            ==> notes_text(sections).len() >= 2 && notes_text(sections)[notes_text(
            sections,
        ).len() - 2] != '\n',
{
    let joined = join_sections(sections);
    let text = notes_text(sections);
    assert(text.len() == joined.len() + 1);
    if sections.len() > 0 && sections.last().len() > 0 {
        if sections.len() > 1 {
            assert(joined == join_sections(sections.drop_last()) + section_gap()
                + sections.last());
        }
        assert(joined.len() > 0);
        assert(joined.last() == sections.last().last());
        assert(text[text.len() - 2] == joined.last());
    }
}

/// Where an entry goes in a sorted run: after everything that comes before
/// it, at the place of an entry with its identifier if there is one.
pub proof fn lemma_insert_sorted_at(map: Seq<EntryView>, entry: EntryView, pos: int)
    requires
        0 <= pos <= map.len(),
        forall|k: int|
            0 <= k < pos ==> !text_lt(entry.id, (#[trigger] map[k]).id) && entry.id != map[k].id,
        pos < map.len() ==> text_lt(entry.id, map[pos].id) || entry.id == map[pos].id,
    ensures
        insert_sorted(map, entry) == if pos < map.len() && entry.id == map[pos].id {
            map.take(pos) + seq![entry] + map.skip(pos + 1)
        } else {
            map.take(pos) + seq![entry] + map.skip(pos)
        },
    decreases pos,
{
    if pos == 0 {
        assert(map.take(0) =~= Seq::<EntryView>::empty());
        assert(map.skip(0) =~= map);
        if map.len() > 0 {
            lemma_text_lt_asymmetric(entry.id, map[0].id);
            assert(map.skip(1) =~= map.drop_first());
        }
        assert(Seq::<EntryView>::empty() + seq![entry] + map =~= seq![entry] + map);
        assert(Seq::<EntryView>::empty() + seq![entry] + map.drop_first() =~= seq![entry]
            + map.drop_first());
        if map.len() == 0 {
            assert(seq![entry] + map =~= seq![entry]);
        }
    } else {
        let rest = map.drop_first();
        assert(!text_lt(entry.id, map[0].id) && entry.id != map[0].id);
        assert forall|k: int| 0 <= k < pos - 1 implies !text_lt(entry.id, (#[trigger] rest[k]).id)
            && entry.id != rest[k].id by {
            assert(rest[k] == map[k + 1]);
        }
        if pos < map.len() {
            assert(rest[pos - 1] == map[pos]);
        }
        lemma_insert_sorted_at(rest, entry, pos - 1);
        assert(seq![map[0]] + rest.take(pos - 1) =~= map.take(pos));
        assert(rest.skip(pos - 1) =~= map.skip(pos));
        assert(seq![map[0]] + (rest.take(pos - 1) + seq![entry] + rest.skip(pos - 1)) =~= map.take(
            pos,
        ) + seq![entry] + map.skip(pos));
        if pos < map.len() {
            assert(rest.skip(pos) =~= map.skip(pos + 1));
            assert(seq![map[0]] + (rest.take(pos - 1) + seq![entry] + rest.skip(pos)) =~= map.take(
                pos,
            ) + seq![entry] + map.skip(pos + 1));
        }
    }
}

/// Tells whether `a` comes before `b` in the order of texts.
pub fn text_before(a: &Vec<char>, b: &Vec<char>) -> (r: bool)
    ensures
        r == text_lt(a@, b@),
{
    let mut i: usize = 0;
    assert(a@.skip(0) =~= a@);
    assert(b@.skip(0) =~= b@);
    while i < a.len() && i < b.len()
        invariant
            i <= a.len(),
            i <= b.len(),
            text_lt(a@, b@) == text_lt(a@.skip(i as int), b@.skip(i as int)),
        decreases a.len() - i,
    {
        proof {
            let x = a@.skip(i as int);
            let y = b@.skip(i as int);
            assert(x[0] == a@[i as int]);
            assert(y[0] == b@[i as int]);
            assert(x.drop_first() =~= a@.skip(i + 1));
            assert(y.drop_first() =~= b@.skip(i + 1));
        }
        if a[i] != b[i] {
            return a[i] < b[i];
        }
        i += 1;
    }
    proof {
        assert(a@.skip(i as int).len() == a.len() - i);
        assert(b@.skip(i as int).len() == b.len() - i);
    }
    i < b.len()
}

/// A copy of a project's changes.
fn copy_changes(changes: &Option<Option<String>>) -> (r: Option<Option<String>>)
    ensures
        changes_view(r) == changes_view(*changes),
{
    match changes {
        Some(Some(text)) => Some(Some(text.clone())),
        Some(None) => Some(None),
        None => None,
    }
}

/// Puts an entry in its place in a sorted run of entries.
fn insert_entry(
    map: &mut Vec<(String, Option<Option<String>>)>,
    id: String,
    changes: Option<Option<String>>,
)
    ensures
        entries_view(final(map)@) == insert_sorted(
            entries_view(old(map)@),
            EntryView { id: id@, changes: changes_view(changes) },
        ),
{
    let ghost before = entries_view(map@);
    let ghost entry = EntryView { id: id@, changes: changes_view(changes) };
    let key = chars_of(id.as_str());
    let mut pos: usize = 0;
    let mut found = false;
    while pos < map.len()
        invariant_except_break
            pos <= map.len(),
            !found,
        invariant
            map@ == old(map)@,
            before == entries_view(map@),
            key@ == id@,
            entry.id == id@,
            pos <= map.len(),
            forall|k: int|
                0 <= k < pos ==> !text_lt(entry.id, (#[trigger] before[k]).id) && entry.id
                    != before[k].id,
        ensures
            pos < map.len() ==> (found <==> entry.id == before[pos as int].id),
            pos < map.len() && !found ==> text_lt(entry.id, before[pos as int].id),
            pos >= map.len() ==> !found,
        decreases map.len() - pos,
    {
        let other = chars_of(map[pos].0.as_str());
        assert(other@ == before[pos as int].id);
        if text_before(&key, &other) {
            proof {
                lemma_text_lt_asymmetric(key@, other@);
            }
            break ;
        }
        if !text_before(&other, &key) {
            proof {
                if key@ != other@ {
                    lemma_text_lt_total(key@, other@);
                }
            }
            found = true;
            break ;
        }
        proof {
            lemma_text_lt_asymmetric(other@, key@);
        }
        pos += 1;
    }
    proof {
        lemma_insert_sorted_at(before, entry, pos as int);
    }
    if found {
        map.set(pos, (id, changes));
        assert(entries_view(map@) =~= before.take(pos as int) + seq![entry] + before.skip(pos + 1));
    } else {
        map.insert(pos, (id, changes));
        assert(entries_view(map@) =~= before.take(pos as int) + seq![entry] + before.skip(
            pos as int,
        ));
    }
}

/// The views of sections given as `(identifier, changes)` pairs.
pub open spec fn notes_sections(sections: Seq<(String, Option<String>)>) -> Seq<Seq<char>> {
    Seq::new(
        sections.len(),
        |i: int|
            project_section(
                sections[i].0@,
                match sections[i].1 {
                    Some(text) => Some(text@),
                    None => None,
                },
            ),
    )
}

/// Joining one more section puts a blank line before it, unless it is the first.
proof fn lemma_join_sections_push(parts: Seq<Seq<char>>, part: Seq<char>)
    ensures
        join_sections(parts.push(part)) == if parts.len() == 0 {
            part
        } else {
            join_sections(parts) + section_gap() + part
        },
{
    let all = parts.push(part);
    assert(all.drop_last() =~= parts);
    assert(all.last() == part);
}

/// Writes release notes from sections that are already in their order: for
/// each a heading `# identifier`, a blank line, and the changes as they are
/// or the line `- No changes`; a blank line between sections; one line
/// break at the end. Every section gets its heading.
pub fn render_notes(sections: &Vec<(String, Option<String>)>) -> (text: String)
    ensures
        text@ == notes_text(notes_sections(sections@)),
{
    let ghost parts = notes_sections(sections@);
    let mut out: Vec<char> = Vec::new();
    let mut i: usize = 0;
    assert(parts.take(0) =~= Seq::<Seq<char>>::empty());
    while i < sections.len()
        invariant
            i <= sections.len(),
            parts == notes_sections(sections@),
            out@ == join_sections(parts.take(i as int)),
        decreases sections.len() - i,
    {
        let ghost done = parts.take(i as int);
        if i > 0 {
            out.push('\n');
            out.push('\n');
        }
        out.push('#');
        out.push(' ');
        let id = chars_of(sections[i].0.as_str());
        push_all(&mut out, &id);
        out.push('\n');
        out.push('\n');
        match &sections[i].1 {
            Some(text) => {
                let body = chars_of(text.as_str());
                push_all(&mut out, &body);
            },
            None => {
                let line = vec!['-', ' ', 'N', 'o', ' ', 'c', 'h', 'a', 'n', 'g', 'e', 's'];
                assert(line@ =~= no_changes_line());
                push_all(&mut out, &line);
            },
        }
        proof {
            let part = parts[i as int];
            lemma_join_sections_push(done, part);
            assert(parts.take(i + 1) =~= done.push(part));
            if i > 0 {
                assert(out@ =~= join_sections(done) + section_gap() + part);
            } else {
                assert(join_sections(done) =~= Seq::<char>::empty());
                assert(out@ =~= part);
            }
        }
        i += 1;
    }
    assert(parts.take(i as int) =~= parts);
    out.push('\n');
    assert(out@ =~= notes_text(parts));
    string_of(&out)
}

/// The sections of the projects of `map`, as `(identifier, changes)` pairs.
fn sections_to_write(map: &Vec<(String, Option<Option<String>>)>) -> (out: Vec<
    (String, Option<String>),
>)
    ensures
        notes_sections(out@) == project_sections(entries_view(map@)),
{
    let ghost all = entries_view(map@);
    let mut out: Vec<(String, Option<String>)> = Vec::new();
    let mut i: usize = 0;
    while i < map.len()
        invariant
            i <= map.len(),
            all == entries_view(map@),
            out@.len() == i,
            forall|k: int| 0 <= k < i ==> notes_sections(out@)[k] == project_sections(all)[k],
        decreases map.len() - i,
    {
        let ghost before = notes_sections(out@);
        let changes = match &map[i].1 {
            Some(Some(text)) => Some(text.clone()),
            _ => None,
        };
        out.push((map[i].0.clone(), changes));
        proof {
            assert forall|k: int| 0 <= k < i + 1 implies notes_sections(out@)[k]
                == project_sections(all)[k] by {
                if k < i {
                    assert(notes_sections(out@)[k] == before[k]);
                }
            }
        }
        i += 1;
    }
    assert(notes_sections(out@) =~= project_sections(all));
    out
}

/// Writes the release notes for a set of projects, given as pairs of a
/// project identifier and the project's changes. The projects come in the
/// order of their identifiers; of pairs with one identifier the last counts.
/// Every project gets its heading: one with `Some(Some(text))` has the text
/// beneath it, as it is; one with `Some(None)` or `None` has the line
/// `- No changes`. The text ends with one line break. Where the notes give
/// every project back, reading them and writing them again yields the same text.
pub fn generate_changelog(changes_by_buildpack: &Vec<(String, Option<Option<String>>)>) -> (text:
    String)
    ensures
        text@ == changelog_text(entries_view(changes_by_buildpack@)),
        (forall|i: int|
            0 <= i < changes_by_buildpack@.len() ==> reads_back(
                #[trigger] entries_view(changes_by_buildpack@)[i],
            )) ==> changelog_text(read_notes_spec(text@)) == text@,
{
    let ghost all = entries_view(changes_by_buildpack@);
    proof {
        if forall|i: int| 0 <= i < all.len() ==> reads_back(#[trigger] all[i]) {
            lemma_notes_read_back(all);
        }
    }
    let mut sorted: Vec<(String, Option<Option<String>>)> = Vec::new();
    let mut i: usize = 0;
    assert(all.take(0) =~= Seq::<EntryView>::empty());
    assert(entries_view(sorted@) =~= Seq::<EntryView>::empty());
    while i < changes_by_buildpack.len()
        invariant
            i <= changes_by_buildpack.len(),
            all == entries_view(changes_by_buildpack@),
            entries_view(sorted@) == collect_sorted(all.take(i as int)),
        decreases changes_by_buildpack.len() - i,
    {
        proof {
            let next = all.take(i + 1);
            assert(next.drop_last() =~= all.take(i as int));
            assert(next.last() == all[i as int]);
        }
        let id = changes_by_buildpack[i].0.clone();
        let changes = copy_changes(&changes_by_buildpack[i].1);
        insert_entry(&mut sorted, id, changes);
        i += 1;
    }
    assert(all.take(i as int) =~= all);
    let sections = sections_to_write(&sorted);
    render_notes(&sections)
}

} // verus!

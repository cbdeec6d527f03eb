//! The renderer: writes a changelog as canonical text.
//!
//! In canonical form every section opens with a heading of level two, a
//! blank line parts the heading from the body and one section from the next,
//! and the text ends with a single line break.

use crate::changelog::{
    parse_spec, releases_view, Changelog, ChangelogView, ParseErrorView, ReleaseEntry,
    ReleaseEntryView,
};
use crate::date::{date_option_view, date_text, push_date, Date, DateView};
use crate::roundtrip::lemma_parse_render;
use crate::text::{chars_of, join_lines, lemma_join_concat, newline, push_all, string_of};
use vstd::prelude::*;

verus! {

/// The heading line of the unreleased section.
pub open spec fn unreleased_heading() -> Seq<char> {
    seq!['#', '#', ' ', '[', 'U', 'n', 'r', 'e', 'l', 'e', 'a', 's', 'e', 'd', ']']
}

/// What a heading line says of the date of a release.
pub open spec fn date_suffix(date: Option<DateView>) -> Seq<char> {
    match date {
        Some(d) => seq![' ', '-', ' '] + date_text(d),
        None => Seq::empty(),
    }
}

/// The heading line of a release.
pub open spec fn release_heading(version: Seq<char>, date: Option<DateView>) -> Seq<char> {
    seq!['#', '#', ' ', '['] + version + seq![']'] + date_suffix(date)
}

/// The text of one section: the heading line, and for a body that is not
/// empty a blank line and the body. It ends with a line break.
pub open spec fn section_text(heading: Seq<char>, body: Seq<char>) -> Seq<char> {
    if body.len() == 0 {
        heading + newline()
    } else {
        heading + newline() + newline() + body + newline()
    }
}

/// The text of the section of one release.
pub open spec fn release_text(entry: ReleaseEntryView) -> Seq<char> {
    section_text(release_heading(entry.version, entry.date), entry.body)
}

/// The texts of the sections of `releases`, in order.
pub open spec fn release_texts(releases: Seq<ReleaseEntryView>) -> Seq<Seq<char>> {
    Seq::new(releases.len(), |i: int| release_text(releases[i]))
}

/// The texts of the sections of a changelog: the unreleased section first,
/// if there is one, then the releases in their order.
pub open spec fn section_texts(log: ChangelogView) -> Seq<Seq<char>> {
    match log.unreleased {
        Some(body) => seq![section_text(unreleased_heading(), body)] + release_texts(log.releases),
        None => release_texts(log.releases),
    }
}

/// The canonical text of a changelog: its sections with one blank line
/// between them. A changelog without sections is the empty text.
pub open spec fn render_spec(log: ChangelogView) -> Seq<char> {
    join_lines(section_texts(log))
}

/// Appends the text of one section to `out`.
fn push_section(out: &mut Vec<char>, heading: &Vec<char>, body: &Vec<char>)
    ensures
        final(out)@ == old(out)@ + section_text(heading@, body@),
{
    push_all(out, heading);
    out.push('\n');
    if body.len() > 0 {
        out.push('\n');
        push_all(out, body);
        out.push('\n');
    }
    assert(out@ =~= old(out)@ + section_text(heading@, body@));
}

/// The heading line of the unreleased section.
fn make_unreleased_heading() -> (heading: Vec<char>)
    ensures
        heading@ == unreleased_heading(),
{
    let heading = vec!['#', '#', ' ', '[', 'U', 'n', 'r', 'e', 'l', 'e', 'a', 's', 'e', 'd', ']'];
    assert(heading@ =~= unreleased_heading());
    heading
}

/// The heading line of a release.
fn make_release_heading(version: &str, date: Option<Date>) -> (heading: Vec<char>)
    ensures
        heading@ == release_heading(version@, date_option_view(date)),
{
    let mut heading = vec!['#', '#', ' ', '['];
    let chars = chars_of(version);
    push_all(&mut heading, &chars);
    heading.push(']');
    match date {
        Some(d) => {
            heading.push(' ');
            heading.push('-');
            heading.push(' ');
            push_date(&mut heading, d);
        },
        None => {},
    }
    assert(heading@ =~= release_heading(version@, date_option_view(date)));
    heading
}

impl ReleaseEntry {
    /// The heading line of this release: `## [version] - YYYY-MM-DD`, or
    /// `## [version]` for a release without a date.
    pub fn heading(&self) -> (line: String)
        ensures
            line@ == release_heading(self@.version, self@.date),
    {
        let heading = make_release_heading(self.version.as_str(), self.date);
        string_of(&heading)
    }
}

impl Changelog {
    /// Writes the changelog as canonical text. Reading the text of a
    /// well-formed changelog gives that changelog back.
    pub fn render(&self) -> (text: String)
        ensures
            text@ == render_spec(self@),
            self@.wf() ==> parse_spec(text@) == Ok::<ChangelogView, ParseErrorView>(self@),
    {
        proof {
            if self@.wf() {
                lemma_parse_render(self@);
            }
        }
        let mut out: Vec<char> = Vec::new();
        let ghost texts = section_texts(self@);
        let ghost lead: Seq<Seq<char>>;
        let unreleased = self.unreleased();
        let releases = self.releases();
        match unreleased {
            Some(body) => {
                let heading = make_unreleased_heading();
                let body_chars = chars_of(body.as_str());
                push_section(&mut out, &heading, &body_chars);
                proof {
                    lead = seq![section_text(unreleased_heading(), body@)];
                    assert(out@ =~= join_lines(lead));
                }
            },
            None => {
                proof {
                    lead = Seq::empty();
                }
            },
        }
        let ghost all = release_texts(self@.releases);
        proof {
            assert(texts =~= lead + all);
            assert(lead + all.take(0) =~= lead);
        }
        let mut i: usize = 0;
        while i < releases.len()
            invariant
                i <= releases.len(),
                all == release_texts(releases_view(releases@)),
                all.len() == releases.len(),
                lead.len() == (if unreleased is Some { 1nat } else { 0nat }),
                out@ == join_lines(lead + all.take(i as int)),
            decreases releases.len() - i,
        {
            let entry = &releases[i];
            let ghost done = lead + all.take(i as int);
            if i > 0 || unreleased.is_some() {
                out.push('\n');
            }
            let heading = make_release_heading(entry.version.as_str(), entry.date);
            let body_chars = chars_of(entry.body.as_str());
            let ghost before = out@;
            proof {
                assert(done.len() == 0 <==> !(i > 0 || unreleased is Some));
            }
            push_section(&mut out, &heading, &body_chars);
            proof {
                let piece = all[i as int];
                assert(piece == release_text(entry@));
                assert(lead + all.take(i + 1) =~= done + seq![piece]);
                if done.len() == 0 {
                    assert(done + seq![piece] =~= seq![piece]);
                    assert(join_lines(done) =~= Seq::<char>::empty());
                    assert(out@ =~= piece);
                } else {
                    lemma_join_concat(done, seq![piece]);
                    assert(before =~= join_lines(done) + newline());
                    assert(out@ =~= join_lines(done) + newline() + piece);
                }
            }
            i += 1;
        }
        proof {
            assert(all.take(i as int) =~= all);
        }
        string_of(&out)
    }
}

} // verus!

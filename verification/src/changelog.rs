//! The changelog model, the builder that assembles it from the sections of a
//! document, and the read-only queries on it.

use crate::classifier::{
    classify_chars, classify_spec, is_version_token, SectionKind, SectionKindView,
};
use crate::date::{date_option_view, Date, DateView};
use crate::invariants::{document_level, lemma_parsed_is_well_formed};
use crate::outcome::{first_repeat, lemma_build_outcome, lemma_build_result, model_of, repeat_error};
use crate::scanner::{is_boundary, scan, scan_spec, sections_view, Section, SectionView};
use crate::text::{chars_of, is_blank, split_lines, text_option_view};
use vstd::prelude::*;

verus! {

/// One release: its version, its date if the document gave one, and its body.
#[derive(Clone, Debug, PartialEq, Eq)]
pub struct ReleaseEntry {
    pub version: String,
    pub date: Option<Date>,
    pub body: String,
}

/// The mathematical form of a [`ReleaseEntry`].
pub struct ReleaseEntryView {
    pub version: Seq<char>,
    pub date: Option<DateView>,
    pub body: Seq<char>,
}

impl View for ReleaseEntry {
    type V = ReleaseEntryView;

    open spec fn view(&self) -> ReleaseEntryView {
        ReleaseEntryView {
            version: self.version@,
            date: date_option_view(self.date),
            body: self.body@,
        }
    }
}

/// A changelog: the body of the unreleased section, if it has one, and the
/// releases in the order of the document. No version occurs twice: that is
/// the invariant of the type. A changelog is not changed in place; a new
/// one is made from parts with [`Changelog::from_parts`].
#[derive(Debug, PartialEq, Eq)]
pub struct Changelog {
    unreleased: Option<String>,
    releases: Vec<ReleaseEntry>,
}

/// The mathematical form of a [`Changelog`].
pub struct ChangelogView {
    pub unreleased: Option<Seq<char>>,
    pub releases: Seq<ReleaseEntryView>,
}

/// The views of a run of release entries.
pub open spec fn releases_view(releases: Seq<ReleaseEntry>) -> Seq<ReleaseEntryView> {
    Seq::new(releases.len(), |i: int| releases[i]@)
}

/// True when no two of `releases` have one version.
pub open spec fn versions_unique(releases: Seq<ReleaseEntryView>) -> bool {
    forall|i: int, j: int|
        0 <= i < j < releases.len() ==> (#[trigger] releases[i]).version != (
        #[trigger] releases[j]).version
}

impl View for Changelog {
    type V = ChangelogView;

    closed spec fn view(&self) -> ChangelogView {
        ChangelogView {
            unreleased: text_option_view(self.unreleased),
            releases: releases_view(self.releases@),
        }
    }
}

/// Why a document is no changelog.
#[derive(Clone, Debug, PartialEq, Eq)]
pub enum ParseError {
    /// A second unreleased section; holds the text of its header.
    DuplicateUnreleasedSection(String),
    /// A second section for one version; holds the version.
    DuplicateVersionSection(String),
}

/// The mathematical form of a [`ParseError`].
pub enum ParseErrorView {
    DuplicateUnreleasedSection(Seq<char>),
    DuplicateVersionSection(Seq<char>),
}

impl View for ParseError {
    type V = ParseErrorView;

    open spec fn view(&self) -> ParseErrorView {
        match self {
            ParseError::DuplicateUnreleasedSection(header) => {
                ParseErrorView::DuplicateUnreleasedSection(header@)
            },
            ParseError::DuplicateVersionSection(version) => {
                ParseErrorView::DuplicateVersionSection(version@)
            },
        }
    }
}

/// The text shown for an error.
pub open spec fn error_message(error: ParseErrorView) -> Seq<char> {
    match error {
        ParseErrorView::DuplicateUnreleasedSection(header) => "Duplicate unreleased section: "@
            + header,
        ParseErrorView::DuplicateVersionSection(version) => "Duplicate section for version: "@
            + version,
    }
}

impl ParseError {
    /// The text shown for this error: what is wrong, and the header or the
    /// version at which it was found.
    pub fn message(&self) -> (text: String)
        ensures
            text@ == error_message(self@),
    {
        let mut text = String::new();
        match self {
            ParseError::DuplicateUnreleasedSection(header) => {
                text.append("Duplicate unreleased section: ");
                text.append(header.as_str());
            },
            ParseError::DuplicateVersionSection(version) => {
                text.append("Duplicate section for version: ");
                text.append(version.as_str());
            },
        }
        assert(text@ =~= error_message(self@));
        text
    }
}

/// The view of the outcome of parsing.
pub open spec fn parse_result_view(r: Result<Changelog, ParseError>) -> Result<
    ChangelogView,
    ParseErrorView,
> {
    match r {
        Ok(log) => Ok(log@),
        Err(e) => Err(e@),
    }
}

/// What the builder knows after some sections: whether an unreleased section
/// has been seen, and the changelog so far.
pub struct BuildState {
    pub seen_unreleased: bool,
    pub log: ChangelogView,
}

/// The state before any section.
pub open spec fn initial_state() -> BuildState {
    BuildState {
        seen_unreleased: false,
        log: ChangelogView { unreleased: None, releases: Seq::empty() },
    }
}

/// True when one of `releases` has the version `version`.
pub open spec fn has_version(releases: Seq<ReleaseEntryView>, version: Seq<char>) -> bool {
    exists|i: int| 0 <= i < releases.len() && (#[trigger] releases[i]).version == version
}

/// A body as the model holds one for the unreleased section: an empty body
/// counts as absent.
pub open spec fn present_body(body: Seq<char>) -> Option<Seq<char>> {
    if body.len() == 0 {
        None
    } else {
        Some(body)
    }
}

/// The builder's reaction to one section. The first unreleased section is
/// kept and a second one is an error; a release is added unless its version
/// is already there, which is an error; a section of unknown kind is dropped.
pub open spec fn build_step(state: BuildState, section: SectionView) -> Result<
    BuildState,
    ParseErrorView,
> {
    match classify_spec(section.header) {
        SectionKindView::Unreleased => {
            if state.seen_unreleased {
                Err(ParseErrorView::DuplicateUnreleasedSection(section.header))
            } else {
                Ok(
                    BuildState {
                        seen_unreleased: true,
                        log: ChangelogView {
                            unreleased: present_body(section.body),
                            releases: state.log.releases,
                        },
                    },
                )
            }
        },
        SectionKindView::Release { version, date } => {
            if has_version(state.log.releases, version) {
                Err(ParseErrorView::DuplicateVersionSection(version))
            } else {
                Ok(
                    BuildState {
                        seen_unreleased: state.seen_unreleased,
                        log: ChangelogView {
                            unreleased: state.log.unreleased,
                            releases: state.log.releases.push(
                                ReleaseEntryView { version, date, body: section.body },
                            ),
                        },
                    },
                )
            }
        },
        SectionKindView::Unknown => Ok(state),
    }
}

/// The builder's single pass over `sections`, from left to right, starting
/// in `state`. The first error ends it.
pub open spec fn build_from(state: BuildState, sections: Seq<SectionView>) -> Result<
    ChangelogView,
    ParseErrorView,
>
    decreases sections.len(),
{
    if sections.len() == 0 {
        Ok(state.log)
    } else {
        match build_step(state, sections[0]) {
            Ok(next) => build_from(next, sections.drop_first()),
            Err(e) => Err(e),
        }
    }
}

/// The changelog that `sections` stand for, or the first error among them.
pub open spec fn build_spec(sections: Seq<SectionView>) -> Result<ChangelogView, ParseErrorView> {
    build_from(initial_state(), sections)
}

/// The changelog that the document `text` stands for, or the first error in it.
pub open spec fn parse_spec(text: Seq<char>) -> Result<ChangelogView, ParseErrorView> {
    build_spec(scan_spec(text))
}

/// The position of the first of `releases` with the version `version`, or
/// `releases.len()` when there is none.
pub open spec fn find_version(releases: Seq<ReleaseEntryView>, version: Seq<char>) -> int
    decreases releases.len(),
{
    if releases.len() == 0 || releases[0].version == version {
        0
    } else {
        1 + find_version(releases.drop_first(), version)
    }
}

/// The versions of `releases`, in order.
pub open spec fn versions_of(releases: Seq<ReleaseEntryView>) -> Seq<Seq<char>> {
    Seq::new(releases.len(), |i: int| releases[i].version)
}

/// The views of a run of texts.
pub open spec fn texts_view(texts: Seq<String>) -> Seq<Seq<char>> {
    Seq::new(texts.len(), |i: int| texts[i]@)
}

/// True for a text that can be the body of a section of level `level`: it
/// is empty, or its first and last lines are not blank and none of its lines
/// is a heading of that level or a shallower one.
pub open spec fn is_body_at(body: Seq<char>, level: nat) -> bool {
    body.len() == 0 || ({
        let lines = split_lines(body);
        &&& !is_blank(lines[0])
        &&& !is_blank(lines.last())
        &&& forall|i: int| 0 <= i < lines.len() ==> !is_boundary(#[trigger] lines[i], level)
    })
}

impl ReleaseEntryView {
    /// A release is well formed for sections of level `level` when its
    /// version is a version token, its date is a day that exists, and its
    /// body can be the body of such a section.
    pub open spec fn wf_at(self, level: nat) -> bool {
        &&& is_version_token(self.version)
        &&& match self.date {
            Some(d) => d.is_valid(),
            None => true,
        }
        &&& is_body_at(self.body, level)
    }
}

impl ChangelogView {
    /// A changelog is well formed for sections of level `level` when the
    /// unreleased body, if present, is not empty, every body can be the body
    /// of such a section, every release is well formed, and no version
    /// occurs twice.
    pub open spec fn wf_at(self, level: nat) -> bool {
        &&& match self.unreleased {
            Some(body) => body.len() > 0 && is_body_at(body, level),
            None => true,
        }
        &&& forall|i: int|
            0 <= i < self.releases.len() ==> (#[trigger] self.releases[i]).wf_at(level)
        &&& forall|i: int, j: int|
            0 <= i < j < self.releases.len() ==> (#[trigger] self.releases[i]).version != (
            #[trigger] self.releases[j]).version
    }

    /// Well formed for the level of canonical text, which is two.
    pub open spec fn wf(self) -> bool {
        self.wf_at(2)
    }

    /// The body of the unreleased section; `None` when there is no such
    /// section or when it is empty.
    pub open spec fn unreleased_body(self) -> Option<Seq<char>> {
        match self.unreleased {
            Some(body) => present_body(body),
            None => None,
        }
    }

    /// The release with the version `version`, if there is one.
    pub open spec fn release(self, version: Seq<char>) -> Option<ReleaseEntryView> {
        let i = find_version(self.releases, version);
        if 0 <= i < self.releases.len() {
            Some(self.releases[i])
        } else {
            None
        }
    }

    /// The body of the release `version`; `None` when there is no such
    /// release or when its body is empty.
    pub open spec fn release_body(self, version: Seq<char>) -> Option<Seq<char>> {
        match self.release(version) {
            Some(entry) => present_body(entry.body),
            None => None,
        }
    }

    /// The versions of the releases, in document order.
    pub open spec fn known_versions(self) -> Seq<Seq<char>> {
        versions_of(self.releases)
    }
}

/// The first of `releases` with `version` is at `m` when none before `m` has
/// it and `m` has it or is the end.
pub proof fn lemma_find_version_at(releases: Seq<ReleaseEntryView>, version: Seq<char>, m: int)
    requires
        0 <= m <= releases.len(),
        forall|i: int| 0 <= i < m ==> (#[trigger] releases[i]).version != version,
        m < releases.len() ==> releases[m].version == version,
    ensures
        find_version(releases, version) == m,
    decreases m,
{
    if m > 0 {
        let t = releases.drop_first();
        assert(releases[0].version != version);
        assert forall|i: int| 0 <= i < m - 1 implies (#[trigger] t[i]).version != version by {
            assert(t[i] == releases[i + 1]);
        }
        lemma_find_version_at(t, version, m - 1);
    }
}

/// The position of the first of `releases` with the version `version`, or
/// `releases.len()` when there is none.
fn position_of(releases: &Vec<ReleaseEntry>, version: &str) -> (m: usize)
    ensures
        m == find_version(releases_view(releases@), version@),
        m <= releases.len(),
        m < releases.len() <==> has_version(releases_view(releases@), version@),
        m < releases.len() ==> releases@[m as int].version@ == version@,
        forall|i: int| 0 <= i < m ==> (#[trigger] releases@[i]).version@ != version@,
{
    let ghost all = releases_view(releases@);
    let mut m: usize = 0;
    while m < releases.len() && !str_eq(releases[m].version.as_str(), version)
        invariant
            m <= releases.len(),
            all == releases_view(releases@),
            forall|i: int| 0 <= i < m ==> (#[trigger] all[i]).version != version@,
        decreases releases.len() - m,
    {
        m += 1;
    }
    proof {
        if m < releases.len() {
            assert(all[m as int].version == version@);
        }
        lemma_find_version_at(all, version@, m as int);
        assert forall|i: int| 0 <= i < m implies (#[trigger] releases@[i]).version@
            != version@ by {
            assert(all[i].version != version@);
        }
    }
    m
}

/// Tells whether two texts hold the same characters.
fn str_eq(a: &str, b: &str) -> (r: bool)
    ensures
        r == (a@ == b@),
{
    let x = chars_of(a);
    let y = chars_of(b);
    if x.len() != y.len() {
        return false;
    }
    let mut i: usize = 0;
    while i < x.len()
        invariant
            i <= x.len() == y.len(),
            x@ == a@,
            y@ == b@,
            forall|k: int| 0 <= k < i ==> x@[k] == y@[k],
        decreases x.len() - i,
    {
        if x[i] != y[i] {
            assert(a@[i as int] != b@[i as int]);
            return false;
        }
        i += 1;
    }
    assert(x@ =~= y@);
    true
}

/// Adding a release with a new version to releases without a repeated
/// version leaves no version repeated.
proof fn lemma_push_keeps_unique(releases: Seq<ReleaseEntryView>, entry: ReleaseEntryView)
    requires
        versions_unique(releases),
        !has_version(releases, entry.version),
    ensures
        versions_unique(releases.push(entry)),
{
    let after = releases.push(entry);
    assert forall|i: int, j: int| 0 <= i < j < after.len() implies (#[trigger] after[i]).version
        != (#[trigger] after[j]).version by {
        assert(after[i] == releases[i]);
        if j < releases.len() {
            assert(after[j] == releases[j]);
        }
    }
}

impl Clone for Changelog {
    /// A changelog with the same parts.
    fn clone(&self) -> (copy: Changelog)
        ensures
            copy@ == self@,
    {
        proof {
            use_type_invariant(self);
        }
        let unreleased = match &self.unreleased {
            Some(body) => Some(body.clone()),
            None => None,
        };
        let mut releases: Vec<ReleaseEntry> = Vec::new();
        let mut i: usize = 0;
        while i < self.releases.len()
            invariant
                i <= self.releases.len(),
                releases@.len() == i,
                forall|k: int| 0 <= k < i ==> (#[trigger] releases@[k])@ == self.releases@[k]@,
            decreases self.releases.len() - i,
        {
            let entry = &self.releases[i];
            releases.push(
                ReleaseEntry {
                    version: entry.version.clone(),
                    date: entry.date,
                    body: entry.body.clone(),
                },
            );
            i += 1;
        }
        assert(releases_view(releases@) =~= releases_view(self.releases@));
        Changelog { unreleased, releases }
    }
}

impl Changelog {
    /// No version occurs twice.
    #[verifier::type_invariant]
    pub open spec fn has_unique_versions(self) -> bool {
        versions_unique(self@.releases)
    }

    /// The changelog without any section.
    pub fn new() -> (log: Changelog)
        ensures
            log@ == initial_state().log,
    {
        let log = Changelog { unreleased: None, releases: Vec::new() };
        assert(log@.releases =~= Seq::<ReleaseEntryView>::empty());
        log
    }

    /// The changelog made of these parts. Fails where a version occurs
    /// twice among `releases`, at the first release that repeats one.
    pub fn from_parts(unreleased: Option<String>, releases: Vec<ReleaseEntry>) -> (r: Result<
        Changelog,
        ParseError,
    >)
        ensures
            match r {
                Ok(log) => versions_unique(releases_view(releases@)) && log@ == (ChangelogView {
                    unreleased: text_option_view(unreleased),
                    releases: releases_view(releases@),
                }),
                Err(e) => exists|j: int|
                    0 <= j < releases@.len() && e@ == ParseErrorView::DuplicateVersionSection(
                        (#[trigger] releases@[j]).version@,
                    ) && has_version(releases_view(releases@).take(j), releases@[j].version@)
                        && versions_unique(releases_view(releases@).take(j)),
            },
    {
        let ghost all = releases_view(releases@);
        let mut j: usize = 0;
        while j < releases.len()
            invariant
                j <= releases.len(),
                all == releases_view(releases@),
                versions_unique(all.take(j as int)),
            decreases releases.len() - j,
        {
            let first = position_of(&releases, releases[j].version.as_str());
            let ghost done = all.take(j as int);
            if first < j {
                proof {
                    assert(done[first as int] == all[first as int]);
                    assert(has_version(done, all[j as int].version));
                }
                return Err(ParseError::DuplicateVersionSection(releases[j].version.clone()));
            }
            proof {
                assert(!has_version(done, all[j as int].version)) by {
                    if has_version(done, all[j as int].version) {
                        let k = choose|k: int|
                            0 <= k < done.len() && (#[trigger] done[k]).version
                                == all[j as int].version;
                        assert(done[k] == all[k]);
                        assert(releases@[k].version@ != releases@[j as int].version@);
                    }
                }
                lemma_push_keeps_unique(done, all[j as int]);
                assert(all.take(j + 1) =~= done.push(all[j as int]));
            }
            j += 1;
        }
        assert(all.take(j as int) =~= all);
        Ok(Changelog { unreleased, releases })
    }

    /// The body of the unreleased section as the changelog holds it.
    pub fn unreleased(&self) -> (r: &Option<String>)
        ensures
            text_option_view(*r) == self@.unreleased,
    {
        &self.unreleased
    }

    /// The releases, in document order. No two have one version.
    pub fn releases(&self) -> (r: &Vec<ReleaseEntry>)
        ensures
            releases_view(r@) == self@.releases,
            r@.len() == self@.releases.len(),
            versions_unique(self@.releases),
    {
        proof {
            use_type_invariant(self);
        }
        &self.releases
    }

    /// Assembles the changelog from classified sections, in one pass from
    /// left to right. Fails at the second unreleased section and at the
    /// second section for one version, whichever comes first.
    pub fn build(sections: &Vec<Section>) -> (r: Result<Changelog, ParseError>)
        ensures
            parse_result_view(r) == build_spec(sections_view(sections@)),
    {
        let ghost all = sections_view(sections@);
        let mut seen_unreleased = false;
        let mut unreleased: Option<String> = None;
        let mut releases: Vec<ReleaseEntry> = Vec::new();
        let mut i: usize = 0;
        proof {
            assert(all.skip(0) =~= all);
            assert(releases_view(releases@) =~= Seq::<ReleaseEntryView>::empty());
        }
        while i < sections.len()
            invariant
                i <= sections.len(),
                all == sections_view(sections@),
                versions_unique(releases_view(releases@)),
                build_spec(all) == build_from(
                    BuildState {
                        seen_unreleased,
                        log: ChangelogView {
                            unreleased: text_option_view(unreleased),
                            releases: releases_view(releases@),
                        },
                    },
                    all.skip(i as int),
                ),
            decreases sections.len() - i,
        {
            let section = &sections[i];
            proof {
                let here = all.skip(i as int);
                assert(here[0] == section@);
                assert(here.drop_first() =~= all.skip(i + 1));
            }
            let header = chars_of(section.header.as_str());
            match classify_chars(&header) {
                SectionKind::Unreleased => {
                    if seen_unreleased {
                        return Err(ParseError::DuplicateUnreleasedSection(section.header.clone()));
                    }
                    seen_unreleased = true;
                    if section.body.as_str().unicode_len() == 0 {
                        unreleased = None;
                    } else {
                        unreleased = Some(section.body.clone());
                    }
                },
                SectionKind::Release { version, date } => {
                    if position_of(&releases, version.as_str()) < releases.len() {
                        return Err(ParseError::DuplicateVersionSection(version));
                    }
                    let entry = ReleaseEntry { version, date, body: section.body.clone() };
                    let ghost before = releases_view(releases@);
                    releases.push(entry);
                    proof {
                        assert(releases_view(releases@) =~= before.push(entry@));
                        lemma_push_keeps_unique(before, entry@);
                    }
                },
                SectionKind::Unknown => {},
            }
            i += 1;
        }
        Ok(Changelog { unreleased, releases })
    }

    /// Reads a changelog document. Headings of no known kind are skipped with
    /// their content; a second unreleased section and a repeated version are
    /// errors.
    pub fn parse(text: &str) -> (r: Result<Changelog, ParseError>)
        ensures
            parse_result_view(r) == parse_spec(text@),
            r matches Ok(log) ==> log@ == model_of(scan_spec(text@)) && log@.wf_at(
                document_level(text@),
            ),
            r matches Err(e) ==> e@ == repeat_error(scan_spec(text@), first_repeat(scan_spec(text@))),
            r is Err <==> first_repeat(scan_spec(text@)) < scan_spec(text@).len(),
    {
        let sections = scan(text);
        proof {
            lemma_build_outcome(scan_spec(text@));
            if parse_spec(text@) is Ok {
                lemma_parsed_is_well_formed(text@);
                lemma_build_result(scan_spec(text@));
            }
        }
        Changelog::build(&sections)
    }

    /// The body of the unreleased section; `None` when there is no such
    /// section or when it is empty.
    pub fn unreleased_body(&self) -> (r: Option<String>)
        ensures
            text_option_view(r) == self@.unreleased_body(),
    {
        match &self.unreleased {
            Some(body) => {
                if body.as_str().unicode_len() == 0 {
                    None
                } else {
                    Some(body.clone())
                }
            },
            None => None,
        }
    }

    /// The release with the version `version`, if there is one.
    pub fn release(&self, version: &str) -> (r: Option<&ReleaseEntry>)
        ensures
            match r {
                Some(entry) => self@.release(version@) == Some(entry@),
                None => self@.release(version@) is None,
            },
    {
        let i = position_of(&self.releases, version);
        if i < self.releases.len() {
            Some(&self.releases[i])
        } else {
            None
        }
    }

    /// The body of the release `version`; `None` when there is no such
    /// release or when its body is empty.
    pub fn release_body(&self, version: &str) -> (r: Option<String>)
        ensures
            text_option_view(r) == self@.release_body(version@),
    {
        match self.release(version) {
            Some(entry) => {
                if entry.body.as_str().unicode_len() == 0 {
                    None
                } else {
                    Some(entry.body.clone())
                }
            },
            None => None,
        }
    }

    /// The versions of the releases, in document order.
    pub fn known_versions(&self) -> (r: Vec<String>)
        ensures
            texts_view(r@) == self@.known_versions(),
            r@.len() == self@.releases.len(),
    {
        let mut out: Vec<String> = Vec::new();
        let mut i: usize = 0;
        while i < self.releases.len()
            invariant
                i <= self.releases.len(),
                out@.len() == i,
                forall|k: int| 0 <= k < i ==> (#[trigger] out@[k])@ == self.releases@[k].version@,
            decreases self.releases.len() - i,
        {
            out.push(self.releases[i].version.clone());
            i += 1;
        }
        assert(texts_view(out@) =~= self@.known_versions());
        out
    }
}

} // verus!

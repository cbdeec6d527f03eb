//! Choosing what a project contributes to the release notes: its unreleased
//! changes or the changes of one version.

use crate::changelog::{parse_spec, Changelog, ChangelogView, ParseError, ParseErrorView};
use crate::text::text_option_view;
use vstd::prelude::*;

verus! {

/// Which section of each changelog the release notes are made of.
#[derive(Clone, Debug, PartialEq, Eq)]
pub enum ChangelogEntryType {
    /// The unreleased section.
    Unreleased,
    /// The release with this version.
    Version(String),
}

/// The mathematical form of a [`ChangelogEntryType`].
pub enum EntryTypeView {
    Unreleased,
    Version(Seq<char>),
}

impl View for ChangelogEntryType {
    type V = EntryTypeView;

    open spec fn view(&self) -> EntryTypeView {
        match self {
            ChangelogEntryType::Unreleased => EntryTypeView::Unreleased,
            ChangelogEntryType::Version(version) => EntryTypeView::Version(version@),
        }
    }
}

/// The change text that a changelog holds for an entry type: the body of
/// the unreleased section, or the body of the release with the version.
/// Where the section is missing or empty there is none.
pub open spec fn changes_of(log: ChangelogView, entry_type: EntryTypeView) -> Option<Seq<char>> {
    match entry_type {
        EntryTypeView::Unreleased => log.unreleased_body(),
        EntryTypeView::Version(version) => log.release_body(version),
    }
}

/// The change text that the document `contents` holds for an entry type, or
/// the error in the document.
pub open spec fn entry_of(contents: Seq<char>, entry_type: EntryTypeView) -> Result<
    Option<Seq<char>>,
    ParseErrorView,
> {
    match parse_spec(contents) {
        Ok(log) => Ok(changes_of(log, entry_type)),
        Err(e) => Err(e),
    }
}

/// The view of the outcome of reading an entry.
pub open spec fn entry_result_view(r: Result<Option<String>, ParseError>) -> Result<
    Option<Seq<char>>,
    ParseErrorView,
> {
    match r {
        Ok(changes) => Ok(text_option_view(changes)),
        Err(e) => Err(e@),
    }
}

impl ChangelogEntryType {
    /// The entry type for a requested version: that version, or the
    /// unreleased section when none is requested.
    pub fn from_version(version: Option<String>) -> (entry_type: ChangelogEntryType)
        ensures
            entry_type@ == match version {
                Some(v) => EntryTypeView::Version(v@),
                None => EntryTypeView::Unreleased,
            },
    {
        match version {
            Some(v) => ChangelogEntryType::Version(v),
            None => ChangelogEntryType::Unreleased,
        }
    }
}

/// The change text that `changelog` holds for `entry_type`, if it holds any.
pub fn changelog_entry(changelog: &Changelog, entry_type: &ChangelogEntryType) -> (changes: Option<
    String,
>)
    ensures
        text_option_view(changes) == changes_of(changelog@, entry_type@),
{
    match entry_type {
        ChangelogEntryType::Unreleased => changelog.unreleased_body(),
        ChangelogEntryType::Version(version) => changelog.release_body(version.as_str()),
    }
}

/// Reads the changelog document `contents` and picks the change text for
/// `entry_type`. Fails where the document is no changelog.
pub fn read_changelog_entry(contents: &str, entry_type: &ChangelogEntryType) -> (r: Result<
    Option<String>,
    ParseError,
>)
    ensures
        entry_result_view(r) == entry_of(contents@, entry_type@),
{
    match Changelog::parse(contents) {
        Ok(changelog) => Ok(changelog_entry(&changelog, entry_type)),
        Err(e) => Err(e),
    }
}

} // verus!

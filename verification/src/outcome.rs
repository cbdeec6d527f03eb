//! What the builder yields: an error at the first section that repeats an
//! earlier one, and otherwise the recognized sections in document order.

use crate::changelog::{
    build_from, build_spec, build_step, has_version, initial_state, parse_spec, present_body,
    BuildState, ChangelogView, ParseErrorView, ReleaseEntryView,
};
use crate::classifier::{classify_spec, SectionKindView};
use crate::scanner::{scan_spec, SectionView};
use vstd::prelude::*;

verus! {

/// The kind of the section at position `i`.
pub open spec fn kind_at(sections: Seq<SectionView>, i: int) -> SectionKindView {
    classify_spec(sections[i].header)
}

/// True when one of the first `k` sections is an unreleased section.
pub open spec fn unreleased_before(sections: Seq<SectionView>, k: int) -> bool {
    exists|i: int| 0 <= i < k && #[trigger] kind_at(sections, i) is Unreleased
}

/// True when one of the first `k` sections is a release with the version `version`.
pub open spec fn version_before(sections: Seq<SectionView>, k: int, version: Seq<char>) -> bool {
    exists|i: int|
        0 <= i < k && (#[trigger] kind_at(sections, i) matches SectionKindView::Release {
            version: v,
            ..
        } && v == version)
}

/// True when the section at `j` repeats an earlier one: it is a second
/// unreleased section, or a second section for its version.
pub open spec fn repeats_earlier(sections: Seq<SectionView>, j: int) -> bool {
    match kind_at(sections, j) {
        SectionKindView::Unreleased => unreleased_before(sections, j),
        SectionKindView::Release { version, .. } => version_before(sections, j, version),
        SectionKindView::Unknown => false,
    }
}

/// The position of the first section from `k` on that repeats an earlier
/// one, or `sections.len()` when there is none.
pub open spec fn first_repeat_from(sections: Seq<SectionView>, k: int) -> int
    decreases sections.len() - k,
{
    if k < 0 || k >= sections.len() {
        sections.len() as int
    } else if repeats_earlier(sections, k) {
        k
    } else {
        first_repeat_from(sections, k + 1)
    }
}

/// The position of the first section that repeats an earlier one, or
/// `sections.len()` when there is none.
pub open spec fn first_repeat(sections: Seq<SectionView>) -> int {
    first_repeat_from(sections, 0)
}

/// The error that a repeating section at `j` stands for.
pub open spec fn repeat_error(sections: Seq<SectionView>, j: int) -> ParseErrorView {
    match kind_at(sections, j) {
        SectionKindView::Release { version, .. } => ParseErrorView::DuplicateVersionSection(version),
        _ => ParseErrorView::DuplicateUnreleasedSection(sections[j].header),
    }
}

/// The builder's state tells what the first `k` sections held.
pub open spec fn tracks(state: BuildState, sections: Seq<SectionView>, k: int) -> bool {
    &&& state.seen_unreleased == unreleased_before(sections, k)
    &&& forall|v: Seq<char>| #[trigger]
        has_version(state.log.releases, v) == version_before(sections, k, v)
}

/// The first repeat from `k` on is a repeat, and nothing between `k` and it is one.
proof fn lemma_first_repeat_from(sections: Seq<SectionView>, k: int)
    requires
        0 <= k <= sections.len(),
    ensures
        k <= first_repeat_from(sections, k) <= sections.len(),
        first_repeat_from(sections, k) < sections.len() ==> repeats_earlier(
            sections,
            first_repeat_from(sections, k),
        ),
        forall|m: int| k <= m < first_repeat_from(sections, k) ==> !repeats_earlier(sections, m),
    decreases sections.len() - k,
{
    if k < sections.len() && !repeats_earlier(sections, k) {
        lemma_first_repeat_from(sections, k + 1);
    }
}

/// One step of the builder on a section that repeats nothing succeeds and
/// remembers the section; on a section that repeats an earlier one it fails
/// with the error of that section.
proof fn lemma_step_tracks(state: BuildState, sections: Seq<SectionView>, k: int)
    requires
        0 <= k < sections.len(),
        tracks(state, sections, k),
    ensures
        repeats_earlier(sections, k) ==> build_step(state, sections[k]) == Err::<
            BuildState,
            ParseErrorView,
        >(repeat_error(sections, k)),
        !repeats_earlier(sections, k) ==> build_step(state, sections[k]) is Ok && tracks(
            build_step(state, sections[k])->Ok_0,
            sections,
            k + 1,
        ),
{
    let kind = kind_at(sections, k);
    if !repeats_earlier(sections, k) {
        let next = build_step(state, sections[k])->Ok_0;
        match kind {
            SectionKindView::Unreleased => {
                assert(kind_at(sections, k) is Unreleased);
                assert(unreleased_before(sections, k + 1));
                assert forall|v: Seq<char>| #[trigger]
                    has_version(next.log.releases, v) == version_before(sections, k + 1, v) by {
                    assert(has_version(state.log.releases, v) == version_before(sections, k, v));
                    if version_before(sections, k + 1, v) {
                        let i = choose|i: int|
                            0 <= i < k + 1 && (#[trigger] kind_at(
                                sections,
                                i,
                            ) matches SectionKindView::Release { version: w, .. } && w == v);
                        assert(i < k);
                    }
                }
            },
            SectionKindView::Release { version, date } => {
                let entry = ReleaseEntryView { version, date, body: sections[k].body };
                let before = state.log.releases;
                let after = before.push(entry);
                assert(next.log.releases == after);
                assert(has_version(before, version) == version_before(sections, k, version));
                if unreleased_before(sections, k + 1) {
                    let i = choose|i: int|
                        0 <= i < k + 1 && #[trigger] kind_at(sections, i) is Unreleased;
                    assert(i < k);
                }
                assert forall|v: Seq<char>| #[trigger]
                    has_version(after, v) == version_before(sections, k + 1, v) by {
                    assert(has_version(before, v) == version_before(sections, k, v));
                    if has_version(after, v) {
                        let i = choose|i: int|
                            0 <= i < after.len() && (#[trigger] after[i]).version == v;
                        if i < before.len() {
                            assert(before[i] == after[i]);
                            assert(has_version(before, v));
                            let a = choose|a: int|
                                0 <= a < k && (#[trigger] kind_at(
                                    sections,
                                    a,
                                ) matches SectionKindView::Release { version: w, .. } && w == v);
                            assert(version_before(sections, k + 1, v));
                        } else {
                            assert(kind_at(sections, k) matches SectionKindView::Release {
                                version: w,
                                ..
                            } && w == v);
                            assert(version_before(sections, k + 1, v));
                        }
                    }
                    if version_before(sections, k + 1, v) {
                        let a = choose|a: int|
                            0 <= a < k + 1 && (#[trigger] kind_at(
                                sections,
                                a,
                            ) matches SectionKindView::Release { version: w, .. } && w == v);
                        if a < k {
                            assert(version_before(sections, k, v));
                            let i = choose|i: int|
                                0 <= i < before.len() && (#[trigger] before[i]).version == v;
                            assert(after[i] == before[i]);
                            assert(has_version(after, v));
                        } else {
                            assert(after[before.len() as int].version == v);
                            assert(has_version(after, v));
                        }
                    }
                }
            },
            SectionKindView::Unknown => {
                if unreleased_before(sections, k + 1) {
                    let i = choose|i: int|
                        0 <= i < k + 1 && #[trigger] kind_at(sections, i) is Unreleased;
                    assert(i < k);
                }
                assert forall|v: Seq<char>| #[trigger]
                    has_version(next.log.releases, v) == version_before(sections, k + 1, v) by {
                    assert(has_version(state.log.releases, v) == version_before(sections, k, v));
                    if version_before(sections, k + 1, v) {
                        let i = choose|i: int|
                            0 <= i < k + 1 && (#[trigger] kind_at(
                                sections,
                                i,
                            ) matches SectionKindView::Release { version: w, .. } && w == v);
                        assert(i < k);
                    }
                }
            },
        }
    } else {
        match kind {
            SectionKindView::Release { version, date } => {
                assert(has_version(state.log.releases, version) == version_before(
                    sections,
                    k,
                    version,
                ));
            },
            _ => {},
        }
    }
}

/// From a state that tells what the first `k` sections held, the builder
/// fails exactly when a later section repeats an earlier one, and then with
/// the error of the first such section.
proof fn lemma_build_outcome_from(state: BuildState, sections: Seq<SectionView>, k: int)
    requires
        0 <= k <= sections.len(),
        tracks(state, sections, k),
    ensures
        first_repeat_from(sections, k) < sections.len() ==> build_from(state, sections.skip(k))
            == Err::<ChangelogView, ParseErrorView>(
            repeat_error(sections, first_repeat_from(sections, k)),
        ),
        first_repeat_from(sections, k) >= sections.len() ==> build_from(
            state,
            sections.skip(k),
        ) is Ok,
    decreases sections.len() - k,
{
    let here = sections.skip(k);
    if k < sections.len() {
        assert(here[0] == sections[k]);
        assert(here.drop_first() =~= sections.skip(k + 1));
        lemma_step_tracks(state, sections, k);
        if !repeats_earlier(sections, k) {
            lemma_build_outcome_from(build_step(state, sections[k])->Ok_0, sections, k + 1);
        }
    }
}

/// The builder fails exactly when some section repeats an earlier one, and
/// then with the error of the first such section: a second unreleased
/// section or a second section for one version, whichever comes first.
pub proof fn lemma_build_outcome(sections: Seq<SectionView>)
    ensures
        first_repeat(sections) < sections.len() ==> build_spec(sections) == Err::<
            ChangelogView,
            ParseErrorView,
        >(repeat_error(sections, first_repeat(sections))),
        first_repeat(sections) >= sections.len() ==> build_spec(sections) is Ok,
        0 <= first_repeat(sections) <= sections.len(),
        first_repeat(sections) < sections.len() ==> repeats_earlier(
            sections,
            first_repeat(sections),
        ),
        forall|m: int| 0 <= m < first_repeat(sections) ==> !repeats_earlier(sections, m),
{
    let state = initial_state();
    assert forall|v: Seq<char>| #[trigger]
        has_version(state.log.releases, v) == version_before(sections, 0, v) by {}
    assert(sections.skip(0) =~= sections);
    lemma_build_outcome_from(state, sections, 0);
    lemma_first_repeat_from(sections, 0);
}

/// A document with two section headers for one version is rejected. The
/// error is `DuplicateVersionSection`, unless a second unreleased header
/// comes before the first repeated version.
pub proof fn lemma_repeated_version_is_rejected(text: Seq<char>, i: int, j: int)
    requires
        0 <= i < j < scan_spec(text).len(),
        kind_at(scan_spec(text), i) is Release,
        kind_at(scan_spec(text), j) is Release,
        kind_at(scan_spec(text), i)->version == kind_at(scan_spec(text), j)->version,
    ensures
        parse_spec(text) is Err,
        first_repeat(scan_spec(text)) <= j,
        kind_at(scan_spec(text), first_repeat(scan_spec(text))) is Release ==> parse_spec(
            text,
        )->Err_0 is DuplicateVersionSection,
        !(kind_at(scan_spec(text), first_repeat(scan_spec(text))) is Release) ==> parse_spec(
            text,
        )->Err_0 is DuplicateUnreleasedSection,
{
    let sections = scan_spec(text);
    lemma_build_outcome(sections);
    assert(version_before(sections, j, kind_at(sections, j)->version));
    assert(repeats_earlier(sections, j));
}

/// A document with two unreleased section headers is rejected. The error is
/// `DuplicateUnreleasedSection`, unless a repeated version comes before the
/// second unreleased header.
pub proof fn lemma_repeated_unreleased_is_rejected(text: Seq<char>, i: int, j: int)
    requires
        0 <= i < j < scan_spec(text).len(),
        kind_at(scan_spec(text), i) is Unreleased,
        kind_at(scan_spec(text), j) is Unreleased,
    ensures
        parse_spec(text) is Err,
        first_repeat(scan_spec(text)) <= j,
        kind_at(scan_spec(text), first_repeat(scan_spec(text))) is Unreleased ==> parse_spec(
            text,
        )->Err_0 == ParseErrorView::DuplicateUnreleasedSection(
            scan_spec(text)[first_repeat(scan_spec(text))].header,
        ),
        !(kind_at(scan_spec(text), first_repeat(scan_spec(text))) is Unreleased) ==> parse_spec(
            text,
        )->Err_0 is DuplicateVersionSection,
{
    let sections = scan_spec(text);
    lemma_build_outcome(sections);
    assert(unreleased_before(sections, j));
    assert(repeats_earlier(sections, j));
}

/// The releases among `sections`, in their order.
pub open spec fn releases_in(sections: Seq<SectionView>) -> Seq<ReleaseEntryView>
    decreases sections.len(),
{
    if sections.len() == 0 {
        Seq::empty()
    } else {
        let before = releases_in(sections.drop_last());
        match classify_spec(sections.last().header) {
            SectionKindView::Release { version, date } => before.push(
                ReleaseEntryView { version, date, body: sections.last().body },
            ),
            _ => before,
        }
    }
}

/// The body of the unreleased section among `sections`, the last one if
/// there are several; `None` when there is none or when it is empty.
pub open spec fn unreleased_in(sections: Seq<SectionView>) -> Option<Seq<char>>
    decreases sections.len(),
{
    if sections.len() == 0 {
        None
    } else {
        match classify_spec(sections.last().header) {
            SectionKindView::Unreleased => present_body(sections.last().body),
            _ => unreleased_in(sections.drop_last()),
        }
    }
}

/// The changelog made of the recognized sections among `sections`.
pub open spec fn model_of(sections: Seq<SectionView>) -> ChangelogView {
    ChangelogView { unreleased: unreleased_in(sections), releases: releases_in(sections) }
}

/// From a state that holds the recognized sections among the first `k`, a
/// builder that succeeds yields the recognized sections among all.
proof fn lemma_build_result_from(state: BuildState, sections: Seq<SectionView>, k: int)
    requires
        0 <= k <= sections.len(),
        state.log == model_of(sections.take(k)),
        build_from(state, sections.skip(k)) is Ok,
    ensures
        build_from(state, sections.skip(k))->Ok_0 == model_of(sections),
    decreases sections.len() - k,
{
    let here = sections.skip(k);
    if k == sections.len() {
        assert(sections.take(k) =~= sections);
    } else {
        assert(here[0] == sections[k]);
        assert(here.drop_first() =~= sections.skip(k + 1));
        let next = build_step(state, sections[k])->Ok_0;
        let upto = sections.take(k + 1);
        assert(upto.drop_last() =~= sections.take(k));
        assert(upto.last() == sections[k]);
        lemma_build_result_from(next, sections, k + 1);
    }
}

/// Where the builder succeeds, the changelog is made of the recognized
/// sections in the order of the document: the releases one by one, and the
/// body of the unreleased section.
pub proof fn lemma_build_result(sections: Seq<SectionView>)
    requires
        build_spec(sections) is Ok,
    ensures
        build_spec(sections)->Ok_0 == model_of(sections),
{
    assert(sections.skip(0) =~= sections);
    assert(sections.take(0) =~= Seq::<SectionView>::empty());
    assert(releases_in(sections.take(0)) =~= Seq::<ReleaseEntryView>::empty());
    lemma_build_result_from(initial_state(), sections, 0);
}

} // verus!

use buildpack_changelog::changelog::{Changelog, ParseError, ReleaseEntry};
use buildpack_changelog::classifier::{classify, SectionKind};
use buildpack_changelog::date::Date;
use buildpack_changelog::scanner::{scan, Section};

fn date(year: u16, month: u8, day: u8) -> Date {
    Date::new(year, month, day).unwrap()
}

#[test]
fn unreleased_and_one_release() {
    let changelog =
        Changelog::parse("## [Unreleased]\n- change a\n\n## [1.0.0] - 2024-01-01\n- change b\n")
            .unwrap();
    assert_eq!(changelog.unreleased_body(), Some("- change a".to_string()));
    assert_eq!(changelog.release_body("1.0.0"), Some("- change b".to_string()));
    assert_eq!(changelog.known_versions(), vec!["1.0.0".to_string()]);
    assert_eq!(
        changelog.release("1.0.0"),
        Some(&ReleaseEntry {
            version: "1.0.0".to_string(),
            date: Some(date(2024, 1, 1)),
            body: "- change b".to_string(),
        })
    );
}

#[test]
fn unreleased_and_one_release_without_final_line_break() {
    let changelog =
        Changelog::parse("## [Unreleased]\n- change a\n\n## [1.0.0] - 2024-01-01\n- change b")
            .unwrap();
    assert_eq!(changelog.unreleased_body(), Some("- change a".to_string()));
    assert_eq!(changelog.release_body("1.0.0"), Some("- change b".to_string()));
}

#[test]
fn release_without_date() {
    let changelog = Changelog::parse("## [2.0.0]").unwrap();
    assert_eq!(changelog.releases().len(), 1);
    assert_eq!(changelog.releases()[0].version, "2.0.0");
    assert_eq!(changelog.releases()[0].date, None);
    assert_eq!(changelog.releases()[0].body, "");
    assert_eq!(changelog.release_body("2.0.0"), None);
    assert_eq!(changelog.known_versions(), vec!["2.0.0".to_string()]);
}

#[test]
fn empty_document() {
    let changelog = Changelog::parse("").unwrap();
    assert_eq!(changelog.unreleased_body(), None);
    assert_eq!(changelog.known_versions(), Vec::<String>::new());
    assert_eq!(changelog, Changelog::new());
    assert_eq!(changelog.render(), "");
}

#[test]
fn document_without_headings() {
    let changelog = Changelog::parse("just some text\n\nand more\n").unwrap();
    assert_eq!(changelog, Changelog::new());
    assert_eq!(scan("just some text\n\nand more\n"), vec![]);
}

#[test]
fn unrecognized_heading_is_skipped() {
    let changelog =
        Changelog::parse("# My Project\n\nAn introduction.\n\n## [Unreleased]\n\n- change\n")
            .unwrap();
    assert_eq!(changelog.unreleased_body(), Some("- change".to_string()));
    assert_eq!(changelog.known_versions(), Vec::<String>::new());
    assert!(!changelog.render().contains("introduction"));
    assert!(!changelog.render().contains("My Project"));
}

#[test]
fn text_before_the_first_recognized_heading_changes_nothing() {
    let rest = "## [Unreleased]\n\n- change\n\n## [1.0.0]\n\n- first\n";
    let expected = Changelog::parse(rest).unwrap();
    for before in [
        "# My Project",
        "intro",
        "",
        "# Title\n\ntext\n\n### Deep heading\n\nmore",
        "## Notes\n- not a release",
    ] {
        let text = format!("{before}\n{rest}");
        assert_eq!(Changelog::parse(&text).unwrap(), expected);
    }
}

#[test]
fn unknown_section_between_releases_is_dropped() {
    let changelog = Changelog::parse(
        "## [1.1.0]\n- b\n\n## Notes for maintainers\n- hidden\n\n## [1.0.0]\n- a\n",
    )
    .unwrap();
    assert_eq!(
        changelog.known_versions(),
        vec!["1.1.0".to_string(), "1.0.0".to_string()]
    );
    assert_eq!(changelog.release_body("1.1.0"), Some("- b".to_string()));
    assert_eq!(changelog.release_body("1.0.0"), Some("- a".to_string()));
}

#[test]
fn repeated_version_is_an_error() {
    assert_eq!(
        Changelog::parse("## [1.0.0] - 2024-01-01\n- a\n\n## [0.9.0]\n\n## 1.0.0\n- b\n"),
        Err(ParseError::DuplicateVersionSection("1.0.0".to_string()))
    );
}

#[test]
fn repeated_unreleased_is_an_error() {
    assert_eq!(
        Changelog::parse("## [Unreleased]\n\n## [1.0.0]\n\n## unreleased\n- b\n"),
        Err(ParseError::DuplicateUnreleasedSection(
            "unreleased".to_string()
        ))
    );
    assert_eq!(
        Changelog::parse("## Unreleased\n## [UNRELEASED]\n"),
        Err(ParseError::DuplicateUnreleasedSection(
            "[UNRELEASED]".to_string()
        ))
    );
}

#[test]
fn first_repeat_decides_the_error() {
    assert_eq!(
        Changelog::parse("## 1.0\n## 1.0\n## Unreleased\n## Unreleased\n"),
        Err(ParseError::DuplicateVersionSection("1.0".to_string()))
    );
    assert_eq!(
        Changelog::parse("## Unreleased\n## 1.0\n## Unreleased\n## 1.0\n"),
        Err(ParseError::DuplicateUnreleasedSection(
            "Unreleased".to_string()
        ))
    );
}

#[test]
fn deeper_headings_belong_to_the_body() {
    let changelog = Changelog::parse(
        "## [1.0.0]\n\n### Added\n\n- a\n\n### Fixed\n\n- b\n\n#### [Unreleased]\n\n## [0.9.0]\n",
    )
    .unwrap();
    assert_eq!(
        changelog.release_body("1.0.0"),
        Some("### Added\n\n- a\n\n### Fixed\n\n- b\n\n#### [Unreleased]".to_string())
    );
    assert_eq!(changelog.release_body("0.9.0"), None);
    assert_eq!(changelog.unreleased_body(), None);
}

#[test]
fn section_level_is_that_of_the_first_recognized_heading() {
    let changelog =
        Changelog::parse("### [Unreleased]\n- a\n#### detail\n- b\n## Other\n- c\n### 1.0.0\n- d\n")
            .unwrap();
    assert_eq!(
        changelog.unreleased_body(),
        Some("- a\n#### detail\n- b".to_string())
    );
    assert_eq!(changelog.release_body("1.0.0"), Some("- d".to_string()));
}

#[test]
fn body_keeps_inner_formatting() {
    let changelog = Changelog::parse(
        "## Unreleased\n\n  \n- a\n    - nested\n\n\n* b  \n\t\n\n## 1.0.0\n",
    )
    .unwrap();
    assert_eq!(
        changelog.unreleased_body(),
        Some("- a\n    - nested\n\n\n* b  ".to_string())
    );
}

#[test]
fn empty_unreleased_section_has_no_body() {
    let changelog = Changelog::parse("## [Unreleased]\n\n\n## [1.0.0]\n- a\n").unwrap();
    assert_eq!(changelog.unreleased(), &None);
    assert_eq!(changelog.unreleased_body(), None);
}

#[test]
fn versions_come_in_document_order() {
    let changelog = Changelog::parse("## 0.1.0\n## 2.0.0\n## v1.5.0\n## 1.0.0-rc.1\n").unwrap();
    assert_eq!(
        changelog.known_versions(),
        vec![
            "0.1.0".to_string(),
            "2.0.0".to_string(),
            "v1.5.0".to_string(),
            "1.0.0-rc.1".to_string()
        ]
    );
    assert_eq!(changelog.release("1.5.0"), None);
}

#[test]
fn canonical_text() {
    let changelog = Changelog::from_parts(
        Some("- pending".to_string()),
        vec![
            ReleaseEntry {
                version: "1.1.0".to_string(),
                date: Some(date(2024, 2, 29)),
                body: "### Added\n\n- b".to_string(),
            },
            ReleaseEntry {
                version: "1.0.0".to_string(),
                date: None,
                body: String::new(),
            },
        ],
    )
    .unwrap();
    assert_eq!(
        changelog.render(),
        "## [Unreleased]\n\n- pending\n\n## [1.1.0] - 2024-02-29\n\n### Added\n\n- b\n\n## [1.0.0]\n"
    );
    assert_eq!(changelog.releases()[0].heading(), "## [1.1.0] - 2024-02-29");
    assert_eq!(changelog.releases()[1].heading(), "## [1.0.0]");
}

#[test]
fn canonical_text_reads_back() {
    let changelog = Changelog::from_parts(
        Some("- pending\n\n- more".to_string()),
        vec![
            ReleaseEntry {
                version: "1.1.0".to_string(),
                date: Some(date(2024, 2, 29)),
                body: "### Added\n\n- b".to_string(),
            },
            ReleaseEntry {
                version: "1.0.0".to_string(),
                date: None,
                body: String::new(),
            },
            ReleaseEntry {
                version: "v0.1".to_string(),
                date: Some(date(1999, 12, 31)),
                body: "x".to_string(),
            },
        ],
    )
    .unwrap();
    let text = changelog.render();
    let read = Changelog::parse(&text).unwrap();
    assert_eq!(read, changelog);
    assert_eq!(read.render(), text);
}

#[test]
fn rendering_what_was_read_is_stable() {
    let document = "# Changelog\n\nintro\n\n## Unreleased\n- a\n\n\n## 1.2.0 - 2023-05-06\n\n\n- b\n### Sub\n- c\n## [1.1.0] 2023/02/27\n- d\n## Odd heading\n- e\n## [1.0.0] - 2023-02-30\n";
    let first = Changelog::parse(document).unwrap();
    let text = first.render();
    assert_eq!(
        text,
        "## [Unreleased]\n\n- a\n\n## [1.2.0] - 2023-05-06\n\n- b\n### Sub\n- c\n\n## [1.1.0]\n\n- d\n\n## [1.0.0]\n"
    );
    let second = Changelog::parse(&text).unwrap();
    assert_eq!(second, first);
    assert_eq!(second.render(), text);
}

#[test]
fn parts_with_a_repeated_version_are_refused() {
    let entry = |version: &str, body: &str| ReleaseEntry {
        version: version.to_string(),
        date: None,
        body: body.to_string(),
    };
    assert_eq!(
        Changelog::from_parts(
            None,
            vec![
                entry("1.0.0", "a"),
                entry("2.0.0", "b"),
                entry("3.0.0", "c"),
                entry("2.0.0", "d"),
                entry("1.0.0", "e"),
            ],
        ),
        Err(ParseError::DuplicateVersionSection("2.0.0".to_string()))
    );
    let changelog = Changelog::from_parts(
        Some("- x".to_string()),
        vec![entry("1.0.0", "a"), entry("2.0.0", "")],
    )
    .unwrap();
    assert_eq!(changelog.unreleased(), &Some("- x".to_string()));
    assert_eq!(changelog.releases().len(), 2);
    assert_eq!(changelog.release_body("1.0.0"), Some("a".to_string()));
    assert_eq!(changelog.clone(), changelog);
    assert_eq!(Changelog::from_parts(None, vec![]), Ok(Changelog::new()));
}

#[test]
fn scanning_yields_header_level_and_body() {
    assert_eq!(
        scan("# Title\nintro\n## [Unreleased]  \n\n- a\n\n### Sub\n## Notes\n##   1.0.0 - 2024-01-01\n- b"),
        vec![
            Section {
                header: "Title".to_string(),
                level: 1,
                body: "intro".to_string()
            },
            Section {
                header: "[Unreleased]".to_string(),
                level: 2,
                body: "- a\n\n### Sub".to_string()
            },
            Section {
                header: "Notes".to_string(),
                level: 2,
                body: String::new()
            },
            Section {
                header: "1.0.0 - 2024-01-01".to_string(),
                level: 2,
                body: "- b".to_string()
            },
        ]
    );
}

#[test]
fn lines_that_are_no_headings() {
    let changelog = Changelog::parse(
        "## 1.0.0\n#no space\n####### seven\n #indented\n##\n## \n- a\n",
    )
    .unwrap();
    assert_eq!(
        changelog.release_body("1.0.0"),
        Some("#no space\n####### seven\n #indented\n##".to_string())
    );
}

#[test]
fn building_from_sections() {
    let sections = vec![
        Section {
            header: "Unreleased".to_string(),
            level: 2,
            body: String::new(),
        },
        Section {
            header: "About".to_string(),
            level: 2,
            body: "text".to_string(),
        },
        Section {
            header: "[0.1.0] - 2020-02-29".to_string(),
            level: 2,
            body: "- a".to_string(),
        },
    ];
    let changelog = Changelog::build(&sections).unwrap();
    assert_eq!(changelog.unreleased(), &None);
    assert_eq!(
        changelog.releases(),
        &vec![ReleaseEntry {
            version: "0.1.0".to_string(),
            date: Some(date(2020, 2, 29)),
            body: "- a".to_string(),
        }]
    );
}

#[test]
fn classifying_headers() {
    assert_eq!(classify("Unreleased"), SectionKind::Unreleased);
    assert_eq!(classify("[Unreleased]"), SectionKind::Unreleased);
    assert_eq!(classify("  [unRELEASED]\t"), SectionKind::Unreleased);
    assert_eq!(classify("[Unreleased"), SectionKind::Unknown);
    assert_eq!(classify("Unreleased]"), SectionKind::Unknown);
    assert_eq!(classify("Unreleased changes"), SectionKind::Unknown);
    assert_eq!(classify("My Project"), SectionKind::Unknown);
    assert_eq!(classify("Changelog"), SectionKind::Unknown);
    assert_eq!(classify(""), SectionKind::Unknown);
    assert_eq!(classify("[]"), SectionKind::Unknown);
    assert_eq!(classify("[1.0.0"), SectionKind::Unknown);
    assert_eq!(classify("[1.0 .0]"), SectionKind::Unknown);
    assert_eq!(classify("v"), SectionKind::Unknown);
    assert_eq!(classify("version 1"), SectionKind::Unknown);
    assert_eq!(
        classify("1.2.3"),
        SectionKind::Release {
            version: "1.2.3".to_string(),
            date: None
        }
    );
    assert_eq!(
        classify("[1.2.3] - 2024-01-31"),
        SectionKind::Release {
            version: "1.2.3".to_string(),
            date: Some(date(2024, 1, 31))
        }
    );
    assert_eq!(
        classify("1.2.3 - 2024-01-31"),
        SectionKind::Release {
            version: "1.2.3".to_string(),
            date: Some(date(2024, 1, 31))
        }
    );
    assert_eq!(
        classify("V2 2024-01-31"),
        SectionKind::Release {
            version: "V2".to_string(),
            date: Some(date(2024, 1, 31))
        }
    );
    assert_eq!(
        classify("[1.2.3]   -   2024-01-31"),
        SectionKind::Release {
            version: "1.2.3".to_string(),
            date: Some(date(2024, 1, 31))
        }
    );
}

#[test]
fn unreadable_date_is_no_date() {
    for header in [
        "[1.2.3] - 2024-13-01",
        "[1.2.3] - 2023-02-29",
        "[1.2.3] - 2024-1-1",
        "[1.2.3] - someday",
        "[1.2.3] 2023/02/27",
        "[1.2.3] - 2024-01-01 (yanked)",
        "[1.2.3] -",
        "[1.2.3] - - 2024-01-01",
    ] {
        assert_eq!(
            classify(header),
            SectionKind::Release {
                version: "1.2.3".to_string(),
                date: None
            }
        );
    }
}

#[test]
fn dates() {
    assert_eq!(Date::parse("2024-02-29"), Date::new(2024, 2, 29));
    assert!(Date::new(2024, 2, 29).is_some());
    assert_eq!(Date::new(2023, 2, 29), None);
    assert_eq!(Date::new(1900, 2, 29), None);
    assert!(Date::new(2000, 2, 29).is_some());
    assert_eq!(Date::new(2024, 4, 31), None);
    assert_eq!(Date::new(2024, 0, 1), None);
    assert_eq!(Date::new(2024, 13, 1), None);
    assert_eq!(Date::new(2024, 1, 0), None);
    assert_eq!(Date::new(10000, 1, 1), None);
    assert_eq!(Date::parse("2024-02-30"), None);
    assert_eq!(Date::parse("2024-2-3"), None);
    assert_eq!(Date::parse("2024-02-03 "), None);
    assert_eq!(Date::parse("２０２４-02-03"), None);
    assert_eq!(Date::parse(""), None);
    let day = Date::parse("0007-08-09").unwrap();
    assert_eq!((day.year(), day.month(), day.day()), (7, 8, 9));
    assert_eq!(day.render(), "0007-08-09");
    assert_eq!(date(9999, 12, 31).render(), "9999-12-31");
}

#[test]
fn carriage_returns_count_as_white_space() {
    let changelog =
        Changelog::parse("## [Unreleased]\r\n\r\n- a\r\n\r\n## [1.0.0] - 2024-01-01\r\n- b\r\n")
            .unwrap();
    assert_eq!(changelog.unreleased_body(), Some("- a\r".to_string()));
    assert_eq!(changelog.releases()[0].date, Some(date(2024, 1, 1)));
    assert_eq!(changelog.release_body("1.0.0"), Some("- b\r".to_string()));
}

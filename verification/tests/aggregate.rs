use buildpack_changelog::aggregate::{generate_changelog, render_notes, text_before};
use buildpack_changelog::changelog::{Changelog, ParseError};
use buildpack_changelog::notes::read_notes;
use buildpack_changelog::selection::{changelog_entry, read_changelog_entry, ChangelogEntryType};
use buildpack_changelog::versions::list_versions;

#[test]
fn test_generating_changelog() {
    let values = vec![
        ("c".to_string(), Some(Some("- change c.1".to_string()))),
        (
            "a".to_string(),
            Some(Some("- change a.1\n- change a.2".to_string())),
        ),
        ("b".to_string(), None),
        ("d".to_string(), Some(None)),
    ];

    assert_eq!(
        generate_changelog(&values),
        r#"# a

- change a.1
- change a.2

# b

- No changes

# c

- change c.1

# d

- No changes
"#
    );
}

#[test]
fn project_without_changes_keeps_its_heading() {
    let values = vec![
        ("c".to_string(), Some(Some("- change c".to_string()))),
        ("b".to_string(), Some(None)),
        ("a".to_string(), Some(Some("- change a".to_string()))),
    ];
    let text = generate_changelog(&values);
    assert_eq!(
        text,
        "# a\n\n- change a\n\n# b\n\n- No changes\n\n# c\n\n- change c\n"
    );
    let a = text.find("# a").unwrap();
    let b = text.find("# b").unwrap();
    let c = text.find("# c").unwrap();
    assert!(a < b && b < c);
    assert!(text.lines().any(|line| line == "- No changes"));
}

#[test]
fn project_with_none_keeps_its_heading() {
    let values = vec![
        ("a".to_string(), Some(Some("- x".to_string()))),
        ("b".to_string(), None),
        ("c".to_string(), Some(Some("- y".to_string()))),
    ];
    let text = generate_changelog(&values);
    assert!(text.contains("# b\n\n- No changes\n\n# c"));
    assert_eq!(text, "# a\n\n- x\n\n# b\n\n- No changes\n\n# c\n\n- y\n");
}

#[test]
fn notes_end_with_one_line_break() {
    let values = vec![("a".to_string(), Some(Some("- x".to_string())))];
    assert_eq!(generate_changelog(&values), "# a\n\n- x\n");
    assert_eq!(generate_changelog(&vec![]), "\n");
    assert_eq!(
        generate_changelog(&vec![("a".to_string(), None)]),
        "# a\n\n- No changes\n"
    );
}

#[test]
fn later_pair_replaces_earlier_pair_with_same_identifier() {
    let values = vec![
        ("a".to_string(), Some(Some("- first".to_string()))),
        ("b".to_string(), Some(None)),
        ("a".to_string(), Some(Some("- second".to_string()))),
    ];
    assert_eq!(
        generate_changelog(&values),
        "# a\n\n- second\n\n# b\n\n- No changes\n"
    );
}

#[test]
fn identifiers_sort_by_code_point() {
    let values = vec![
        ("heroku/ruby".to_string(), Some(None)),
        ("heroku/java".to_string(), Some(None)),
        ("heroku/jav".to_string(), Some(None)),
        ("Heroku/z".to_string(), Some(None)),
        ("é".to_string(), Some(None)),
    ];
    assert_eq!(
        generate_changelog(&values),
        "# Heroku/z\n\n- No changes\n\n# heroku/jav\n\n- No changes\n\n# heroku/java\n\n- No changes\n\n# heroku/ruby\n\n- No changes\n\n# é\n\n- No changes\n"
    );
}

#[test]
fn changes_are_written_as_they_are() {
    let values = vec![
        ("b".to_string(), Some(Some("  - x \n\n\t* y  ".to_string()))),
        ("a".to_string(), Some(Some(String::new()))),
    ];
    assert_eq!(
        generate_changelog(&values),
        "# a\n\n\n\n# b\n\n  - x \n\n\t* y  \n"
    );
}

#[test]
fn notes_read_back() {
    let values = vec![
        ("c".to_string(), Some(Some("- change c.1".to_string()))),
        (
            "a".to_string(),
            Some(Some("- change a.1\n\n## Details\n\n  - a.2".to_string())),
        ),
        ("b".to_string(), None),
        ("d".to_string(), Some(None)),
        ("heroku/ruby".to_string(), Some(Some("#not a heading".to_string()))),
    ];
    let text = generate_changelog(&values);
    let read = read_notes(&text);
    assert_eq!(
        read,
        vec![
            (
                "a".to_string(),
                Some(Some("- change a.1\n\n## Details\n\n  - a.2".to_string()))
            ),
            ("b".to_string(), Some(Some("- No changes".to_string()))),
            ("c".to_string(), Some(Some("- change c.1".to_string()))),
            ("d".to_string(), Some(Some("- No changes".to_string()))),
            (
                "heroku/ruby".to_string(),
                Some(Some("#not a heading".to_string()))
            ),
        ]
    );
    assert_eq!(generate_changelog(&read), text);
}

#[test]
fn reading_notes_without_projects() {
    assert_eq!(read_notes("\n"), vec![]);
    assert_eq!(read_notes(""), vec![]);
    assert_eq!(read_notes("text\n## deeper\n"), vec![]);
    assert_eq!(generate_changelog(&read_notes("\n")), "\n");
    assert_eq!(
        read_notes("intro\n# a\n\n\n# b\n- x\n"),
        vec![
            ("a".to_string(), Some(Some(String::new()))),
            ("b".to_string(), Some(Some("- x".to_string()))),
        ]
    );
}

#[test]
fn render_notes_keeps_the_given_order() {
    let sections = vec![
        ("z".to_string(), Some("- last first".to_string())),
        ("a".to_string(), None),
    ];
    assert_eq!(
        render_notes(&sections),
        "# z\n\n- last first\n\n# a\n\n- No changes\n"
    );
}

#[test]
fn text_order_matches_string_order() {
    let words = ["", "a", "ab", "b", "B", "é", "z", "aa", "a/b", "a-b"];
    for x in words {
        for y in words {
            let a: Vec<char> = x.chars().collect();
            let b: Vec<char> = y.chars().collect();
            assert_eq!(text_before(&a, &b), x < y);
        }
    }
}

#[test]
fn entry_type_from_requested_version() {
    assert_eq!(
        ChangelogEntryType::from_version(None),
        ChangelogEntryType::Unreleased
    );
    assert_eq!(
        ChangelogEntryType::from_version(Some("1.2.3".to_string())),
        ChangelogEntryType::Version("1.2.3".to_string())
    );
}

const DOCUMENT: &str =
    "# Changelog\n\n## [Unreleased]\n\n- pending\n\n## [1.1.0] - 2024-02-02\n\n## [1.0.0] - 2024-01-01\n\n- first\n";

#[test]
fn entries_of_a_changelog() {
    let changelog = Changelog::parse(DOCUMENT).unwrap();
    assert_eq!(
        changelog_entry(&changelog, &ChangelogEntryType::Unreleased),
        Some("- pending".to_string())
    );
    assert_eq!(
        changelog_entry(&changelog, &ChangelogEntryType::Version("1.0.0".to_string())),
        Some("- first".to_string())
    );
    assert_eq!(
        changelog_entry(&changelog, &ChangelogEntryType::Version("1.1.0".to_string())),
        None
    );
    assert_eq!(
        changelog_entry(&changelog, &ChangelogEntryType::Version("9.9.9".to_string())),
        None
    );
    let empty = Changelog::parse("").unwrap();
    assert_eq!(changelog_entry(&empty, &ChangelogEntryType::Unreleased), None);
}

fn notes_for(documents: &[(&str, &str)], entry_type: &ChangelogEntryType) -> String {
    let entries: Vec<_> = documents
        .iter()
        .map(|(id, text)| {
            (
                id.to_string(),
                Some(read_changelog_entry(text, entry_type).unwrap()),
            )
        })
        .collect();
    generate_changelog(&entries)
}

#[test]
fn project_without_matching_section_keeps_its_heading() {
    let documents = [
        ("c", "## [1.0.0] - 2024-01-01\n\n- change c\n"),
        ("b", "## [0.9.0]\n\n- older\n"),
        ("a", "## [Unreleased]\n\n## [1.0.0]\n\n- change a\n"),
    ];
    let text = notes_for(&documents, &ChangelogEntryType::Version("1.0.0".to_string()));
    assert_eq!(
        text,
        "# a\n\n- change a\n\n# b\n\n- No changes\n\n# c\n\n- change c\n"
    );
    let lines: Vec<&str> = text.lines().collect();
    let b = lines.iter().position(|line| *line == "# b").unwrap();
    assert_eq!(lines[b + 2], "- No changes");
    assert_eq!(
        notes_for(&documents, &ChangelogEntryType::Unreleased),
        "# a\n\n- No changes\n\n# b\n\n- No changes\n\n# c\n\n- No changes\n"
    );
}

#[test]
fn notes_for_entries_read_from_text() {
    let documents = [
        ("b", "## Unreleased\n"),
        ("a", DOCUMENT),
        ("c", "no headings here"),
    ];
    assert_eq!(
        notes_for(&documents, &ChangelogEntryType::Unreleased),
        "# a\n\n- pending\n\n# b\n\n- No changes\n\n# c\n\n- No changes\n"
    );
}

#[test]
fn reading_an_entry_from_text() {
    assert_eq!(
        read_changelog_entry(DOCUMENT, &ChangelogEntryType::Unreleased),
        Ok(Some("- pending".to_string()))
    );
    assert_eq!(
        read_changelog_entry(DOCUMENT, &ChangelogEntryType::Version("1.1.0".to_string())),
        Ok(None)
    );
    assert_eq!(
        read_changelog_entry(
            "## [1.0.0]\n\n## [1.0.0]\n",
            &ChangelogEntryType::Unreleased
        ),
        Err(ParseError::DuplicateVersionSection("1.0.0".to_string()))
    );
    assert_eq!(
        read_changelog_entry(
            "## Unreleased\n\n## [Unreleased]\n",
            &ChangelogEntryType::Version("1.0.0".to_string())
        ),
        Err(ParseError::DuplicateUnreleasedSection(
            "[Unreleased]".to_string()
        ))
    );
}

#[test]
fn versions_are_listed_one_to_a_line() {
    assert_eq!(list_versions(&vec![]), "");
    assert_eq!(list_versions(&vec!["1.0.0".to_string()]), "• 1.0.0");
    assert_eq!(
        list_versions(&vec!["1.0.0".to_string(), "2.0.0".to_string()]),
        "• 1.0.0\n• 2.0.0"
    );
}

use changesets::changeset::{Changeset, Release};
use changesets::error::DecodeError;
use changesets::frontmatter::find_frontmatter;
use changesets::metadata::releases_from_entries;
use changesets::semver_type::SemverType;

fn release(package: &str, kind: SemverType) -> Release {
    Release { kind, package: package.to_string() }
}

#[test]
fn basic_case() {
    let case = r"---
'cool-package': minor
---
        Nice simple summary
";
    let changeset = Changeset::try_from(case).unwrap();
    assert_eq!(
        changeset,
        Changeset {
            summary: "Nice simple summary".to_string(),
            releases: vec![Release {
                kind: SemverType::Minor,
                package: "cool-package".to_string()
            }]
        }
    )
}

#[test]
fn major_minor_patch() {
    let case = r"---
'cool-package': minor
'cool-package2': major
'cool-package3': patch
---
Nice simple summary
";
    let changeset = Changeset::try_from(case).unwrap();
    assert_eq!(
        changeset,
        Changeset {
            summary: "Nice simple summary".to_owned(),
            releases: vec![
                Release {
                    kind: SemverType::Minor,
                    package: "cool-package".to_string()
                },
                Release {
                    kind: SemverType::Major,
                    package: "cool-package2".to_string()
                },
                Release {
                    kind: SemverType::Patch,
                    package: "cool-package3".to_string()
                }
            ]
        }
    )
}

#[test]
fn empty_metadata_gives_no_releases() {
    let changeset = Changeset::decode("---\n---\n\nSummary\n").unwrap();
    assert_eq!(changeset, Changeset { summary: "Summary".to_string(), releases: vec![] });
}

#[test]
fn keys_may_be_quoted_either_way_or_not_at_all() {
    let changeset = Changeset::decode("---\n\"a\": major\n'b': minor\nc: patch\n---\nx\n").unwrap();
    assert_eq!(
        changeset.releases,
        vec![
            release("a", SemverType::Major),
            release("b", SemverType::Minor),
            release("c", SemverType::Patch)
        ]
    );
}

#[test]
fn releases_keep_the_order_of_the_metadata() {
    let changeset = Changeset::decode("---\nzeta: patch\nalpha: major\nmid: minor\n---\n").unwrap();
    assert_eq!(
        changeset.releases,
        vec![
            release("zeta", SemverType::Patch),
            release("alpha", SemverType::Major),
            release("mid", SemverType::Minor)
        ]
    );
    assert_eq!(changeset.summary, "");
}

#[test]
fn text_without_opening_delimiter_is_refused() {
    for text in ["", "-", "---", "--- \n", " ---\na: minor\n---\n", "a: minor\n---\nx\n", "----\n---\n"] {
        assert_eq!(Changeset::decode(text), Err(DecodeError::MissingFrontmatter), "{:?}", text);
    }
}

#[test]
fn text_without_closing_delimiter_is_refused() {
    for text in [
        "---\n",
        "---\na: minor\n",
        "---\na: minor\n---",
        "---\na: minor\n--- \nx\n",
        "---\n--\n-\n",
        "---\na: minor---\nx\n",
        "---\n ---\nx\n",
        "---\n\u{4e2d}---\n",
    ] {
        assert_eq!(Changeset::decode(text), Err(DecodeError::UnterminatedFrontmatter), "{:?}", text);
    }
}

#[test]
fn closing_delimiter_is_the_first_one_after_the_opening() {
    let changeset = Changeset::decode("---\na: minor\n---\nfirst\n---\nsecond\n").unwrap();
    assert_eq!(changeset.releases, vec![release("a", SemverType::Minor)]);
    assert_eq!(changeset.summary, "first\n---\nsecond");
}

#[test]
fn closing_delimiter_is_a_line_of_its_own() {
    assert_eq!(find_frontmatter("---\nab---\n---\nS\n"), Some((4, 10, 14)));
    assert_eq!(find_frontmatter("---\na: minor---\nrest"), None);
    assert_eq!(
        Changeset::decode("---\na: minor---\nrest"),
        Err(DecodeError::UnterminatedFrontmatter)
    );
    assert_eq!(
        Changeset::decode("---\n\"ab---\": minor\n---\nS\n"),
        Ok(Changeset { releases: vec![release("ab---", SemverType::Minor)], summary: "S".to_string() })
    );
}

#[test]
fn unrecognized_kind_is_refused_with_its_text() {
    assert_eq!(
        Changeset::decode("---\na: minor\nb: huge\nc: tiny\n---\nx\n"),
        Err(DecodeError::UnrecognizedBumpKind("huge".to_string()))
    );
    assert_eq!(
        Changeset::decode("---\na: Major\n---\nx\n"),
        Err(DecodeError::UnrecognizedBumpKind("Major".to_string()))
    );
}

#[test]
fn metadata_that_is_no_mapping_is_refused() {
    for text in ["---\n- a\n- b\n---\nx\n", "---\njust text\n---\nx\n", "---\na: [minor\n---\nx\n", "---\na:\n  b: minor\n---\nx\n"] {
        match Changeset::decode(text) {
            Err(DecodeError::MalformedMetadata(diagnostic)) => assert!(!diagnostic.is_empty()),
            other => panic!("{:?} gave {:?}", text, other),
        }
    }
}

#[test]
fn malformed_metadata_comes_before_an_unrecognized_kind() {
    match Changeset::decode("---\na: huge\nb: [minor\n---\nx\n") {
        Err(DecodeError::MalformedMetadata(_)) => {}
        other => panic!("{:?}", other),
    }
}

#[test]
fn repeated_package_keeps_its_place_and_its_last_kind() {
    let changeset = Changeset::decode("---\na: minor\nb: patch\na: major\n---\nx\n").unwrap();
    assert_eq!(
        changeset.releases,
        vec![release("a", SemverType::Major), release("b", SemverType::Patch)]
    );
}

#[test]
fn summary_is_trimmed() {
    let changeset = Changeset::decode("---\n---\n\n\n \t Two words \u{a0}\n\n").unwrap();
    assert_eq!(changeset.summary, "Two words");
    let changeset = Changeset::decode("---\n---\n  first line\n  second line  \n").unwrap();
    assert_eq!(changeset.summary, "first line\n  second line");
}

#[test]
fn body_of_whitespace_gives_empty_summary() {
    for text in ["---\n---\n", "---\n---\n\n", "---\n---\n \n\t\n  ", "---\na: minor\n---\n\u{2003}\u{3000}\n"] {
        assert_eq!(Changeset::decode(text).unwrap().summary, "", "{:?}", text);
    }
}

#[test]
fn trimming_a_decoded_summary_again_changes_nothing() {
    for text in ["---\n---\n\n  a b  \n\n", "---\n---\n", "---\n---\nx", "---\n---\n\u{2028}\u{e9}t\u{e9}\u{205f}"] {
        let summary = Changeset::decode(text).unwrap().summary;
        assert_eq!(summary.trim(), summary);
        assert_eq!(changesets::text::trim(&summary), summary);
    }
}

#[test]
fn encode_writes_the_canonical_text() {
    let changeset = Changeset {
        releases: vec![release("cool-package", SemverType::Minor), release("other", SemverType::Major)],
        summary: "Nice simple summary".to_string(),
    };
    assert_eq!(
        changeset.encode(),
        "---\n\"cool-package\": minor\n\"other\": major\n---\n\nNice simple summary\n"
    );
    let text: String = changeset.into();
    assert_eq!(text, "---\n\"cool-package\": minor\n\"other\": major\n---\n\nNice simple summary\n");
}

#[test]
fn encode_of_nothing() {
    let changeset = Changeset { releases: vec![], summary: String::new() };
    assert_eq!(changeset.encode(), "---\n---\n\n\n");
    assert_eq!(Changeset::decode(&changeset.encode()), Ok(changeset));
}

#[test]
fn encode_does_not_escape() {
    let changeset = Changeset { releases: vec![release("a\"b", SemverType::Patch)], summary: "s".to_string() };
    assert_eq!(changeset.encode(), "---\n\"a\"b\": patch\n---\n\ns\n");
}

#[test]
fn decode_of_encode_gives_the_changeset_back() {
    let changesets = vec![
        Changeset { releases: vec![], summary: "only a summary".to_string() },
        Changeset { releases: vec![release("a", SemverType::Major)], summary: String::new() },
        Changeset {
            releases: vec![
                release("cool-package", SemverType::Minor),
                release("@scope/name", SemverType::Major),
                release("with space", SemverType::Patch),
                release("dash---", SemverType::Patch),
                release("caf\u{e9}", SemverType::Minor),
                release("true", SemverType::Major),
                release("123", SemverType::Minor),
                release("a: b", SemverType::Patch),
                release("'quoted'", SemverType::Patch),
            ],
            summary: "First line\n\n---\nlast line, with \"quotes\" and \u{fc}".to_string(),
        },
    ];
    for changeset in changesets {
        let text = changeset.encode();
        assert_eq!(Changeset::try_from(text.as_str()), Ok(changeset));
    }
}

#[test]
fn backslash_in_a_package_is_read_back_as_an_escape() {
    let changeset = Changeset { releases: vec![release("a\\b", SemverType::Minor)], summary: "s".to_string() };
    let text = changeset.encode();
    assert_eq!(text, "---\n\"a\\b\": minor\n---\n\ns\n");
    assert_eq!(
        Changeset::decode(&text),
        Ok(Changeset { releases: vec![release("a\u{8}", SemverType::Minor)], summary: "s".to_string() })
    );
}

#[test]
fn double_quote_in_a_package_is_not_read_back() {
    let changeset = Changeset { releases: vec![release("a\"b", SemverType::Minor)], summary: "s".to_string() };
    assert!(matches!(Changeset::decode(&changeset.encode()), Err(DecodeError::MalformedMetadata(_))));
}

#[test]
fn encode_of_decode_is_canonical() {
    let text = "---\n\"a\": major\n\"b\": patch\n---\n\nSummary\n";
    assert_eq!(Changeset::decode(text).unwrap().encode(), text);
    let loose = "---\n'a':   major\nb: patch\n---\n   Summary";
    assert_eq!(Changeset::decode(loose).unwrap().encode(), text);
}

#[test]
fn find_frontmatter_gives_the_three_positions() {
    assert_eq!(find_frontmatter("---\nabc\n---\nrest"), Some((4, 8, 12)));
    assert_eq!(find_frontmatter("---\n---\n"), Some((4, 4, 8)));
    assert_eq!(find_frontmatter("---\n---\n---\n"), Some((4, 4, 8)));
    assert_eq!(find_frontmatter("---\nabc\n"), None);
    assert_eq!(find_frontmatter("abc\n---\n---\n"), None);
    assert_eq!(find_frontmatter("---"), None);
    assert_eq!(find_frontmatter(""), None);
}

#[test]
fn find_frontmatter_counts_bytes() {
    assert_eq!(find_frontmatter("---\n\u{4e2d}\n---\n"), Some((4, 8, 12)));
    assert_eq!(find_frontmatter("---\n\u{4e2d}---\n"), None);
    let text = "---\n\u{e9}\u{4e2d}: minor\n---\nx\u{1f600}";
    let (start, end, body) = find_frontmatter(text).unwrap();
    assert_eq!((start, end, body), (4, 17, 21));
    assert_eq!(&text[start..end], "\u{e9}\u{4e2d}: minor\n");
    assert_eq!(&text[end..body], "---\n");
    assert_eq!(&text[body..], "x\u{1f600}");
    assert_eq!(
        Changeset::decode(text),
        Ok(Changeset {
            releases: vec![release("\u{e9}\u{4e2d}", SemverType::Minor)],
            summary: "x\u{1f600}".to_string()
        })
    );
}

#[test]
fn find_frontmatter_positions_can_cut_the_text() {
    for text in [
        "---\n---\n",
        "---\n\u{e9}: major\n---\n\u{e9}",
        "---\n# \u{1f600}\n\n---\n\n\u{4e2d}\u{6587}\n",
        "---\n\u{a0}\n---\n",
    ] {
        let (start, end, body) = find_frontmatter(text).unwrap();
        assert_eq!(start, 4);
        assert_eq!(body, end + 4);
        assert!(text.is_char_boundary(start) && text.is_char_boundary(end) && text.is_char_boundary(body));
        assert_eq!(&text[..start], "---\n");
        assert_eq!(&text[end..body], "---\n");
        assert!(!text[start..end].contains("\n---\n"));
        assert!(!text[start..end].starts_with("---\n"));
    }
}

#[test]
fn encode_checked_gives_the_text_that_reads_back() {
    let changeset = Changeset {
        releases: vec![release("cool-package", SemverType::Minor), release("other", SemverType::Major)],
        summary: "Nice simple\n---\nsummary".to_string(),
    };
    let text = changeset.encode_checked().unwrap();
    assert_eq!(text, changeset.encode());
    assert_eq!(Changeset::decode(&text), Ok(changeset));
    let empty = Changeset { releases: vec![], summary: String::new() };
    assert_eq!(empty.encode_checked(), Some("---\n---\n\n\n".to_string()));
}

#[test]
fn encode_checked_gives_nothing_for_what_does_not_read_back() {
    let cases = vec![
        Changeset { releases: vec![release("a\\b", SemverType::Minor)], summary: "s".to_string() },
        Changeset { releases: vec![release("a\"b", SemverType::Minor)], summary: "s".to_string() },
        Changeset { releases: vec![release("a\nb", SemverType::Minor)], summary: "s".to_string() },
        Changeset {
            releases: vec![release("a", SemverType::Minor), release("a", SemverType::Major)],
            summary: "s".to_string(),
        },
        Changeset { releases: vec![release("a", SemverType::Minor)], summary: " s".to_string() },
        Changeset { releases: vec![], summary: "s\n".to_string() },
    ];
    for changeset in cases {
        assert_eq!(changeset.encode_checked(), None, "{:?}", changeset);
        assert_ne!(Changeset::decode(&changeset.encode()), Ok(changeset));
    }
}

#[test]
fn metadata_holds_one_line_for_each_release() {
    let changeset = Changeset {
        releases: vec![release("a", SemverType::Patch), release("b c", SemverType::Major)],
        summary: "s".to_string(),
    };
    assert_eq!(changeset.metadata(), "\"a\": patch\n\"b c\": major\n");
    assert_eq!(Changeset { releases: vec![], summary: "s".to_string() }.metadata(), "");
}

#[test]
fn releases_from_entries_reads_pairs_in_order() {
    let entries = vec![
        ("a".to_string(), "patch".to_string()),
        ("b".to_string(), "major".to_string()),
    ];
    assert_eq!(
        releases_from_entries(&entries),
        Ok(vec![release("a", SemverType::Patch), release("b", SemverType::Major)])
    );
    assert_eq!(releases_from_entries(&vec![]), Ok(vec![]));
}

#[test]
fn releases_from_entries_refuses_the_first_bad_token() {
    let entries = vec![
        ("a".to_string(), "patch".to_string()),
        ("b".to_string(), "".to_string()),
        ("c".to_string(), "nope".to_string()),
    ];
    assert_eq!(
        releases_from_entries(&entries),
        Err(DecodeError::UnrecognizedBumpKind(String::new()))
    );
}

#[test]
fn assemble_puts_the_parts_together() {
    let parsed = Ok(vec![("a".to_string(), "minor".to_string())]);
    assert_eq!(
        Changeset::assemble(parsed, "\n  text \n"),
        Ok(Changeset { releases: vec![release("a", SemverType::Minor)], summary: "text".to_string() })
    );
    assert_eq!(
        Changeset::assemble(Err("line 1: broken".to_string()), "text"),
        Err(DecodeError::MalformedMetadata("line 1: broken".to_string()))
    );
    assert_eq!(
        Changeset::assemble(Ok(vec![("a".to_string(), "minor ".to_string())]), "text"),
        Err(DecodeError::UnrecognizedBumpKind("minor ".to_string()))
    );
}

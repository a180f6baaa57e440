use changesets::error::DecodeError;
use changesets::semver_type::SemverType;
use std::cmp::Ordering;

#[test]
fn each_token_is_read_as_its_kind_and_written_back() {
    let pairs = [("major", SemverType::Major), ("minor", SemverType::Minor), ("patch", SemverType::Patch)];
    for (token, kind) in pairs {
        assert_eq!(SemverType::parse(token), Ok(kind));
        assert_eq!(kind.as_str(), token);
        assert_eq!(kind.to_string(), token);
        assert_eq!(SemverType::parse(kind.as_str()), Ok(kind));
    }
}

#[test]
fn any_other_token_is_refused() {
    for token in ["", "Major", "MINOR", "patch ", " patch", "majo", "majorr", "none", "pre-release", "1"] {
        assert_eq!(
            SemverType::parse(token),
            Err(DecodeError::UnrecognizedBumpKind(token.to_string()))
        );
    }
}

#[test]
fn kinds_are_ordered_by_precedence() {
    assert!(SemverType::Major > SemverType::Minor);
    assert!(SemverType::Minor > SemverType::Patch);
    assert!(SemverType::Major > SemverType::Patch);
    assert!(SemverType::Patch < SemverType::Minor);
    assert!(SemverType::Minor <= SemverType::Minor);
    assert_eq!(SemverType::Patch.partial_cmp(&SemverType::Major), Some(Ordering::Less));
    assert_eq!(SemverType::Major.partial_cmp(&SemverType::Major), Some(Ordering::Equal));
    assert_eq!(SemverType::Major.partial_cmp(&SemverType::Minor), Some(Ordering::Greater));
    assert_eq!(SemverType::Major.precedence(), 2);
    assert_eq!(SemverType::Minor.precedence(), 1);
    assert_eq!(SemverType::Patch.precedence(), 0);
}

#[test]
fn strongest_picks_the_higher_kind() {
    let kinds = [SemverType::Major, SemverType::Minor, SemverType::Patch];
    for a in kinds {
        for b in kinds {
            let expected = if a >= b { a } else { b };
            assert_eq!(a.strongest(b), expected);
            assert_eq!(a.strongest(b), b.strongest(a));
        }
    }
    assert_eq!(SemverType::Patch.strongest(SemverType::Minor), SemverType::Minor);
    assert_eq!(SemverType::Major.strongest(SemverType::Patch), SemverType::Major);
}

#[test]
fn kinds_are_equal_to_themselves_only() {
    assert_eq!(SemverType::Major, SemverType::Major);
    assert_ne!(SemverType::Major, SemverType::Minor);
    assert_ne!(SemverType::Minor, SemverType::Patch);
}

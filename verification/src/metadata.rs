//! The metadata block: a mapping from packages to the tokens of their bumps.

use crate::changeset::{distinct_packages, ChangesetView, Release, ReleaseView};
use crate::error::{DecodeError, DecodeErrorView};
use crate::semver_type::SemverType;
use crate::text::trimmed;
use vstd::prelude::*;

verus! {

/// What `serde_yaml` makes of a metadata block when it is asked for a mapping
/// from texts to texts: the pairs of key and value, or its diagnostic.
///
/// Nothing is stated here of which pairs a block gives. The reader takes any
/// scalar for a text, quoted or not, lists the pairs in the order in which
/// their keys first appear, and keeps of a key that comes again the last
/// value.
pub uninterp spec fn yaml_mapping(block: Seq<char>) -> Result<
    Seq<(Seq<char>, Seq<char>)>,
    Seq<char>,
>;

/// What came back from the reading of a metadata block, as a mathematical
/// value.
pub open spec fn parsed_view(parsed: Result<Vec<(String, String)>, String>) -> Result<
    Seq<(Seq<char>, Seq<char>)>,
    Seq<char>,
> {
    match parsed {
        Ok(entries) => Ok(entries.deep_view()),
        Err(diagnostic) => Err(diagnostic@),
    }
}

/// No two pairs have the same key.
pub open spec fn distinct_keys(entries: Seq<(Seq<char>, Seq<char>)>) -> bool {
    forall|i: int, j: int| 0 <= i < j < entries.len() ==> entries[i].0 != entries[j].0
}

/// Reads a metadata block with `serde_yaml::from_str`, into an
/// `indexmap::IndexMap<String, String>`, and hands out its pairs in the
/// map's order, or the error's message. An `IndexMap` is asked for because
/// it keeps its pairs in the order in which the reader met their keys, which
/// is the order of the document; the maps of the standard library do not.
///
/// Believed, not proved: that the answer depends on the block alone, so that
/// `yaml_mapping` can name it, and that no two pairs of an answer have the
/// same key, as is so of the pairs of any map. Nothing else is claimed of
/// what the answer is.
#[verifier::external_body]
fn read_mapping(block: &str) -> (parsed: Result<Vec<(String, String)>, String>)
    ensures
        parsed_view(parsed) == yaml_mapping(block@),
        parsed matches Ok(entries) ==> distinct_keys(entries.deep_view()),
{
    match serde_yaml::from_str::<indexmap::IndexMap<String, String>>(block) {
        Ok(mapping) => Ok(mapping.into_iter().collect()),
        Err(error) => Err(error.to_string()),
    }
}

/// What the reading of a metadata block gives: no pairs for the empty block,
/// and for any other what the YAML reader makes of it.
pub open spec fn mapping_of(block: Seq<char>) -> Result<Seq<(Seq<char>, Seq<char>)>, Seq<char>> {
    if block.len() == 0 {
        Ok(Seq::empty())
    } else {
        yaml_mapping(block)
    }
}

/// Reads a metadata block as pairs of key and value. The empty block holds
/// none; any other is handed to the YAML reader.
pub fn read_block(block: &str) -> (parsed: Result<Vec<(String, String)>, String>)
    ensures
        parsed_view(parsed) == mapping_of(block@),
        parsed matches Ok(entries) ==> distinct_keys(entries.deep_view()),
{
    if block.is_empty() {
        let entries: Vec<(String, String)> = Vec::new();
        assert(entries.deep_view() =~= Seq::<(Seq<char>, Seq<char>)>::empty());
        Ok(entries)
    } else {
        read_mapping(block)
    }
}

/// The releases that pairs of package and token stand for, in their order,
/// or the refusal of the first token that is no token of a kind.
pub open spec fn releases_of(entries: Seq<(Seq<char>, Seq<char>)>) -> Result<
    Seq<ReleaseView>,
    DecodeErrorView,
>
    decreases entries.len(),
{
    if entries.len() == 0 {
        Ok(Seq::empty())
    } else {
        match releases_of(entries.drop_last()) {
            Err(error) => Err(error),
            Ok(releases) => match SemverType::from_token(entries.last().1) {
                None => Err(DecodeErrorView::UnrecognizedBumpKind(entries.last().1)),
                Some(kind) => Ok(releases.push(ReleaseView { kind, package: entries.last().0 })),
            },
        }
    }
}

/// Releases that were read from pairs are as many as the pairs, and each has
/// the key of its pair for its package and the kind of its pair's token.
pub proof fn lemma_releases_of_pairs(entries: Seq<(Seq<char>, Seq<char>)>)
    ensures
        releases_of(entries) matches Ok(releases) ==> {
            &&& releases.len() == entries.len()
            &&& forall|i: int|
                0 <= i < entries.len() ==> (#[trigger] releases[i]).package == entries[i].0
                    && SemverType::from_token(entries[i].1) == Some(releases[i].kind)
            &&& distinct_keys(entries) ==> distinct_packages(releases)
        },
    decreases entries.len(),
{
    if entries.len() > 0 {
        lemma_releases_of_pairs(entries.drop_last());
        if let Ok(releases) = releases_of(entries) {
            let before = releases_of(entries.drop_last())->Ok_0;
            assert forall|i: int| 0 <= i < entries.len() implies (#[trigger] releases[i]).package
                == entries[i].0 && SemverType::from_token(entries[i].1) == Some(
                releases[i].kind,
            ) by {
                if i < entries.len() - 1 {
                    assert(releases[i] == before[i]);
                    assert(entries.drop_last()[i] == entries[i]);
                }
            }
        }
    }
}

/// The changeset that the reader's answer and the body stand for.
pub open spec fn assembled(
    parsed: Result<Seq<(Seq<char>, Seq<char>)>, Seq<char>>,
    body: Seq<char>,
) -> Result<ChangesetView, DecodeErrorView> {
    match parsed {
        Err(diagnostic) => Err(DecodeErrorView::MalformedMetadata(diagnostic)),
        Ok(entries) => match releases_of(entries) {
            Err(error) => Err(error),
            Ok(releases) => Ok(ChangesetView { releases, summary: trimmed(body) }),
        },
    }
}

/// The result of reading releases, as a mathematical value.
pub open spec fn releases_view(r: Result<Vec<Release>, DecodeError>) -> Result<
    Seq<ReleaseView>,
    DecodeErrorView,
> {
    match r {
        Ok(releases) => Ok(releases.deep_view()),
        Err(error) => Err(error@),
    }
}

/// Turns pairs of package and token into releases, in their order. The first
/// token that is no token of a kind is refused.
pub fn releases_from_entries(entries: &Vec<(String, String)>) -> (r: Result<
    Vec<Release>,
    DecodeError,
>)
    ensures
        releases_view(r) == releases_of(entries.deep_view()),
{
    let mut releases: Vec<Release> = Vec::new();
    let count = entries.len();
    let ghost pairs = entries.deep_view();
    let mut i: usize = 0;
    proof {
        assert(pairs.take(0).len() == 0);
        assert(releases.deep_view() =~= Seq::<ReleaseView>::empty());
    }
    while i < count
        invariant
            i <= count,
            count == entries.len(),
            pairs == entries.deep_view(),
            releases_of(pairs.take(i as int)) == Ok::<Seq<ReleaseView>, DecodeErrorView>(
                releases.deep_view(),
            ),
        decreases count - i,
    {
        let entry = &entries[i];
        proof {
            assert(pairs.take(i + 1).drop_last() =~= pairs.take(i as int));
            assert(pairs.take(i + 1).last() == (entry.0@, entry.1@));
        }
        match SemverType::parse(entry.1.as_str()) {
            Err(error) => {
                proof {
                    lemma_releases_of_prefix(pairs, i + 1);
                }
                return Err(error);
            },
            Ok(kind) => {
                let ghost before = releases.deep_view();
                releases.push(Release { kind, package: entry.0.clone() });
                assert(releases.deep_view() =~= before.push(
                    ReleaseView { kind, package: entry.0@ },
                ));
            },
        }
        i += 1;
    }
    proof {
        assert(pairs.take(count as int) =~= pairs);
    }
    Ok(releases)
}

/// A refusal among the first `n` pairs is the refusal of them all.
pub proof fn lemma_releases_of_prefix(entries: Seq<(Seq<char>, Seq<char>)>, n: int)
    requires
        0 <= n <= entries.len(),
        releases_of(entries.take(n)) is Err,
    ensures
        releases_of(entries) == releases_of(entries.take(n)),
    decreases entries.len() - n,
{
    if n < entries.len() {
        assert(entries.take(n + 1).drop_last() =~= entries.take(n));
        lemma_releases_of_prefix(entries, n + 1);
    } else {
        assert(entries.take(n) =~= entries);
    }
}

} // verus!

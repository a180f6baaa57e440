//! What holds of encoding and decoding together.

use crate::changeset::{
    decoded, encoded, metadata_line, metadata_text, Changeset, ChangesetView, Release,
    ReleaseView,
};
use crate::error::DecodeErrorView;
use crate::frontmatter::{
    closing, delimiter, delimiter_at, delimiter_line_at, has_opening, lemma_delimiter_at,
    lemma_first_delimiter, lemma_first_delimiter_is,
};
use crate::metadata::{mapping_of, read_block, releases_of};
use crate::semver_type::SemverType;
use crate::text::{
    all_white_space, begins_and_ends_trimmed, holds_char, is_trimmed, lemma_trimmed_idempotent,
    lemma_trimmed_ignores_padding, lemma_trimmed_of_trimmed, trimmed,
};
use vstd::prelude::*;

verus! {

/// The pairs of package and token that the metadata lines of the releases
/// are written from.
pub open spec fn entries_of(releases: Seq<ReleaseView>) -> Seq<(Seq<char>, Seq<char>)> {
    releases.map_values(|release: ReleaseView| (release.package, release.kind.token()))
}

/// No package holds a line feed.
pub open spec fn single_line_packages(releases: Seq<ReleaseView>) -> bool {
    forall|i: int| 0 <= i < releases.len() ==> !(#[trigger] releases[i]).package.contains('\n')
}

/// The changeset is one that reading gives back from what writing makes of
/// it: no package holds a line feed, the summary neither begins nor ends
/// with whitespace, and the metadata lines are read back as the pairs that
/// they were written from.
pub open spec fn reads_back(changeset: ChangesetView) -> bool {
    &&& single_line_packages(changeset.releases)
    &&& is_trimmed(changeset.summary)
    &&& mapping_of(metadata_text(changeset.releases)) == Ok::<
        Seq<(Seq<char>, Seq<char>)>,
        Seq<char>,
    >(entries_of(changeset.releases))
}

/// A changeset without releases whose summary neither begins nor ends with
/// whitespace is read back.
pub proof fn lemma_reads_back_without_releases(changeset: ChangesetView)
    requires
        changeset.releases.len() == 0,
        is_trimmed(changeset.summary),
    ensures
        reads_back(changeset),
{
    assert(entries_of(changeset.releases) =~= Seq::empty());
}

/// The pairs that releases are written from are read back as those
/// releases.
pub proof fn lemma_releases_of_entries(releases: Seq<ReleaseView>)
    ensures
        releases_of(entries_of(releases)) == Ok::<Seq<ReleaseView>, DecodeErrorView>(releases),
    decreases releases.len(),
{
    let entries = entries_of(releases);
    if releases.len() == 0 {
        assert(releases =~= Seq::empty());
    } else {
        assert(entries.drop_last() =~= entries_of(releases.drop_last()));
        lemma_releases_of_entries(releases.drop_last());
        SemverType::lemma_token_round_trip(releases.last().kind);
        assert(releases.drop_last().push(releases.last()) =~= releases);
    }
}

/// Reading releases never fails but by refusing a token.
pub proof fn lemma_releases_of_errors(entries: Seq<(Seq<char>, Seq<char>)>)
    ensures
        releases_of(entries) matches Err(error) ==> error is UnrecognizedBumpKind,
    decreases entries.len(),
{
    if entries.len() > 0 {
        lemma_releases_of_errors(entries.drop_last());
    }
}

/// In the metadata lines of releases whose packages hold no line feed, a
/// line feed never follows a hyphen, and never comes first; and the lines
/// end with a line feed.
pub proof fn lemma_metadata_line_feeds(releases: Seq<ReleaseView>)
    requires
        single_line_packages(releases),
    ensures
        forall|i: int|
            0 <= i < metadata_text(releases).len() && #[trigger] metadata_text(releases)[i] == '\n'
                ==> i >= 1 && metadata_text(releases)[i - 1] != '-',
        metadata_text(releases).len() > 0 ==> metadata_text(releases).last() == '\n',
    decreases releases.len(),
{
    if releases.len() > 0 {
        let before = metadata_text(releases.drop_last());
        let last = releases.last();
        let line = metadata_line(last);
        let text = metadata_text(releases);
        assert(single_line_packages(releases.drop_last())) by {
            assert forall|i: int| 0 <= i < releases.drop_last().len() implies !(
            #[trigger] releases.drop_last()[i]).package.contains('\n') by {
                assert(releases.drop_last()[i] == releases[i]);
            }
        }
        lemma_metadata_line_feeds(releases.drop_last());
        SemverType::lemma_tokens();
        let package = last.package;
        let token = last.kind.token();
        let n = package.len() as int;
        assert(line.len() == n + 10);
        assert forall|i: int| 0 <= i < text.len() && #[trigger] text[i] == '\n' implies i >= 1
            && text[i - 1] != '-' by {
            if i < before.len() {
                assert(text[i] == before[i]);
                assert(text[i - 1] == before[i - 1]);
            } else {
                let k = i - before.len();
                assert(text[i] == line[k]);
                if k == 0 {
                    assert(line[0] == '"');
                } else if k <= n {
                    assert(line[k] == package[k - 1]);
                    assert(package.contains(package[k - 1]));
                } else if k <= n + 3 {
                    assert(line[n + 1] == '"');
                    assert(line[n + 2] == ':');
                    assert(line[n + 3] == ' ');
                } else if k <= n + 8 {
                    assert(line[k] == token[k - n - 4]);
                } else {
                    assert(text[i - 1] == line[k - 1]);
                    assert(line[n + 8] == token[4]);
                }
            }
        }
    }
}

/// In a text that holds, from position 4 on, a block in which no line feed
/// follows a hyphen or comes first, and three hyphens after the block, no
/// delimiter begins inside the block.
proof fn lemma_block_holds_no_delimiter(text: Seq<char>, block: Seq<char>)
    requires
        4 + block.len() + 3 <= text.len(),
        forall|i: int| 0 <= i < block.len() ==> #[trigger] text[4 + i] == block[i],
        forall|i: int| 0 <= i < 3 ==> #[trigger] text[4 + block.len() + i] == '-',
        forall|i: int|
            0 <= i < block.len() && #[trigger] block[i] == '\n' ==> i >= 1 && block[i - 1] != '-',
    ensures
        forall|j: int| 4 <= j < 4 + block.len() ==> !delimiter_at(text, j),
{
    let end = 4 + block.len() as int;
    assert forall|j: int| 4 <= j < end implies !delimiter_at(text, j) by {
        lemma_delimiter_at(text, j);
        if delimiter_at(text, j) {
            if j + 3 < end {
                assert(text[4 + (j - 1)] == block[j - 1]);
                assert(text[4 + (j - 2)] == block[j - 2]);
            } else {
                assert(text[4 + block.len() + (j + 3 - end)] == '-');
            }
        }
    }
}

/// A text made of the delimiter, a block of whole lines in which no line
/// feed follows a hyphen or comes first, the delimiter again and a rest is
/// framed at the block: the closing delimiter is the one after the block.
pub proof fn lemma_framed(block: Seq<char>, rest: Seq<char>)
    requires
        forall|i: int|
            0 <= i < block.len() && #[trigger] block[i] == '\n' ==> i >= 1 && block[i - 1] != '-',
        block.len() > 0 ==> block.last() == '\n',
    ensures
        has_opening(delimiter() + block + delimiter() + rest),
        closing(delimiter() + block + delimiter() + rest) == Some(4 + block.len() as int),
        (delimiter() + block + delimiter() + rest).subrange(4, 4 + block.len() as int) == block,
        (delimiter() + block + delimiter() + rest).skip(8 + block.len() as int) == rest,
{
    let text = delimiter() + block + delimiter() + rest;
    let end = 4 + block.len() as int;
    assert(text.len() == 8 + block.len() + rest.len());
    assert(text.subrange(0, 4) =~= delimiter());
    assert(text.subrange(end, end + 4) =~= delimiter());
    assert(text.subrange(4, end) =~= block);
    assert(text.skip(end + 4) =~= rest);
    assert forall|i: int| 0 <= i < block.len() implies #[trigger] text[4 + i] == block[i] by {
        assert(text.subrange(4, end)[i] == text[4 + i]);
    }
    assert forall|i: int| 0 <= i < 3 implies #[trigger] text[4 + block.len() + i] == '-' by {
        assert(text.subrange(end, end + 4)[i] == text[end + i]);
    }
    lemma_block_holds_no_delimiter(text, block);
    assert(delimiter_line_at(text, end)) by {
        if block.len() > 0 {
            assert(text[4 + (block.len() - 1)] == block[block.len() - 1]);
        } else {
            assert(text.subrange(0, 4)[3] == text[3]);
        }
    }
    lemma_first_delimiter_is(text, 4, end);
}

/// A changeset whose packages hold no line feed and whose summary neither
/// begins nor ends with whitespace is decoded from its encoding as it was,
/// provided that the YAML reader reads the metadata lines back as the pairs
/// they were written from. A changeset without releases needs no such
/// proviso.
///
/// The proviso is not proved of the reader; `Changeset::encode_checked`
/// tries it on the changeset at hand. A reader of YAML meets it for packages
/// that a double-quoted scalar holds unchanged; a package with a double
/// quote or a backslash in it is not among them, nor is one that is named
/// twice.
pub proof fn lemma_decode_encode(changeset: ChangesetView)
    requires
        reads_back(changeset),
    ensures
        decoded(encoded(changeset)) == Ok::<ChangesetView, DecodeErrorView>(changeset),
{
    let metadata = metadata_text(changeset.releases);
    let body = seq!['\n'] + changeset.summary + seq!['\n'];
    let text = delimiter() + metadata + delimiter() + body;
    assert(encoded(changeset) =~= text);
    lemma_metadata_line_feeds(changeset.releases);
    lemma_framed(metadata, body);
    lemma_releases_of_entries(changeset.releases);
    assert(trimmed(body) == changeset.summary) by {
        assert(all_white_space(seq!['\n']));
        lemma_trimmed_ignores_padding(seq!['\n'], changeset.summary, seq!['\n']);
        lemma_trimmed_of_trimmed(changeset.summary);
    }
}

/// A text is refused for a missing frontmatter exactly if it does not begin
/// with the delimiter, and for an unterminated one exactly if it begins with
/// the delimiter and holds no delimiter line after it.
pub proof fn lemma_frontmatter_errors(text: Seq<char>)
    ensures
        decoded(text) == Err::<ChangesetView, DecodeErrorView>(
            DecodeErrorView::MissingFrontmatter,
        ) <==> !delimiter().is_prefix_of(text),
        decoded(text) == Err::<ChangesetView, DecodeErrorView>(
            DecodeErrorView::UnterminatedFrontmatter,
        ) <==> delimiter().is_prefix_of(text) && forall|j: int|
            4 <= j ==> !delimiter_line_at(text, j),
{
    assert(has_opening(text) <==> delimiter().is_prefix_of(text)) by {
        if has_opening(text) {
            assert(text.subrange(0, 4) =~= delimiter());
        }
        if delimiter().is_prefix_of(text) {
            assert(text.subrange(0, 4) =~= delimiter());
        }
    }
    lemma_first_delimiter(text, 4);
    if has_opening(text) {
        match closing(text) {
            Some(end) => {
                let parsed = mapping_of(text.subrange(4, end));
                if let Ok(entries) = parsed {
                    lemma_releases_of_errors(entries);
                }
                assert(delimiter_line_at(text, end));
            },
            None => {},
        }
    }
}

/// The summary of a decoded changeset is the trimmed body, and trimming it
/// again changes nothing.
pub proof fn lemma_decoded_summary(text: Seq<char>)
    ensures
        decoded(text) matches Ok(changeset) ==> {
            &&& closing(text) matches Some(end)
            &&& changeset.summary == trimmed(text.skip(end + 4))
            &&& is_trimmed(changeset.summary)
            &&& trimmed(changeset.summary) == changeset.summary
        },
{
    if let Ok(changeset) = decoded(text) {
        let end = closing(text)->0;
        lemma_trimmed_idempotent(text.skip(end + 4));
    }
}

/// Whether the pairs are those that the releases are written from.
fn same_pairs(entries: &Vec<(String, String)>, releases: &Vec<Release>) -> (r: bool)
    ensures
        r == (entries.deep_view() == entries_of(releases.deep_view())),
{
    let count = releases.len();
    if entries.len() != count {
        assert(entries.deep_view().len() != entries_of(releases.deep_view()).len());
        return false;
    }
    let mut i: usize = 0;
    while i < count
        invariant
            i <= count,
            count == releases.len(),
            count == entries.len(),
            forall|j: int|
                0 <= j < i ==> entries.deep_view()[j] == entries_of(releases.deep_view())[j],
        decreases count - i,
    {
        let token = releases[i].kind.to_string();
        if !(entries[i].0 == releases[i].package && entries[i].1 == token) {
            assert(entries.deep_view()[i as int] != entries_of(releases.deep_view())[i as int]);
            return false;
        }
        i += 1;
    }
    assert(entries.deep_view() =~= entries_of(releases.deep_view()));
    true
}

impl Changeset {
    /// Writes the changeset as text if reading the text gives the changeset
    /// back, and gives nothing otherwise.
    ///
    /// The text is given if no package holds a line feed, the summary
    /// neither begins nor ends with whitespace, and the metadata lines, read
    /// on the spot, give the pairs that they were written from.
    pub fn encode_checked(&self) -> (r: Option<String>)
        ensures
            r is Some <==> reads_back(self@),
            r matches Some(text) ==> text@ == encoded(self@) && decoded(text@) == Ok::<
                ChangesetView,
                DecodeErrorView,
            >(self@),
    {
        if !begins_and_ends_trimmed(self.summary.as_str()) {
            return None;
        }
        let count = self.releases.len();
        let mut i: usize = 0;
        while i < count
            invariant
                i <= count,
                count == self.releases.len(),
                forall|j: int|
                    0 <= j < i ==> !(#[trigger] self.releases.deep_view()[j]).package.contains(
                        '\n',
                    ),
            decreases count - i,
        {
            if holds_char(self.releases[i].package.as_str(), '\n') {
                assert(self.releases.deep_view()[i as int].package.contains('\n'));
                return None;
            }
            i += 1;
        }
        let metadata = self.metadata();
        match read_block(metadata.as_str()) {
            Ok(entries) => {
                if same_pairs(&entries, &self.releases) {
                    proof {
                        lemma_decode_encode(self@);
                    }
                    Some(self.encode())
                } else {
                    None
                }
            },
            Err(_) => None,
        }
    }
}

} // verus!

//! Changesets and their text form.

use crate::encoding::lemma_frames_agree;
use crate::error::{DecodeError, DecodeErrorView};
use crate::frontmatter::{
    closing, delimiter, find_frontmatter, frontmatter, frontmatter_bytes, has_opening,
    is_delimiter_line_at, lemma_boundary_after_ascii, lemma_delimiter_at_byte,
    lemma_frontmatter_bytes,
};
use crate::metadata::{
    assembled, distinct_keys, lemma_releases_of_pairs, mapping_of, parsed_view, read_block,
    releases_from_entries,
};
use crate::semver_type::SemverType;
use crate::text::trim;
use vstd::prelude::*;
use vstd::string::*;
use vstd::utf8::*;

verus! {

/// One package and the kind of bump that a change asks of it.
#[derive(Debug, PartialEq)]
pub struct Release {
    pub kind: SemverType,
    pub package: String,
}

/// A `Release` as a mathematical value.
pub ghost struct ReleaseView {
    pub kind: SemverType,
    pub package: Seq<char>,
}

impl View for Release {
    type V = ReleaseView;

    open spec fn view(&self) -> ReleaseView {
        ReleaseView { kind: self.kind, package: self.package@ }
    }
}

impl DeepView for Release {
    type V = ReleaseView;

    open spec fn deep_view(&self) -> ReleaseView {
        self@
    }
}

/// A summary of a change and the releases it asks for.
#[derive(Debug, PartialEq)]
pub struct Changeset {
    pub releases: Vec<Release>,
    pub summary: String,
}

/// A `Changeset` as a mathematical value.
pub ghost struct ChangesetView {
    pub releases: Seq<ReleaseView>,
    pub summary: Seq<char>,
}

impl View for Changeset {
    type V = ChangesetView;

    open spec fn view(&self) -> ChangesetView {
        ChangesetView { releases: self.releases.deep_view(), summary: self.summary@ }
    }
}

/// No two releases are for the same package.
pub open spec fn distinct_packages(releases: Seq<ReleaseView>) -> bool {
    forall|i: int, j: int|
        0 <= i < j < releases.len() ==> releases[i].package != releases[j].package
}

/// The result of a decoding as a mathematical value.
pub open spec fn decoding_view(r: Result<Changeset, DecodeError>) -> Result<
    ChangesetView,
    DecodeErrorView,
> {
    match r {
        Ok(changeset) => Ok(changeset@),
        Err(error) => Err(error@),
    }
}

/// The metadata line of one release: the package in double quotes, a colon,
/// a space, the kind's token, a line feed.
pub open spec fn metadata_line(release: ReleaseView) -> Seq<char> {
    seq!['"'] + release.package + seq!['"', ':', ' '] + release.kind.token() + seq!['\n']
}

/// The metadata lines of the releases, in their order.
pub open spec fn metadata_text(releases: Seq<ReleaseView>) -> Seq<char>
    decreases releases.len(),
{
    if releases.len() == 0 {
        Seq::empty()
    } else {
        metadata_text(releases.drop_last()) + metadata_line(releases.last())
    }
}

/// The text form of a changeset: the delimiter, the metadata lines, the
/// delimiter, an empty line, the summary, a line feed.
pub open spec fn encoded(changeset: ChangesetView) -> Seq<char> {
    delimiter() + metadata_text(changeset.releases) + delimiter() + seq!['\n']
        + changeset.summary + seq!['\n']
}

/// What decoding makes of a text.
///
/// A text that does not begin with the delimiter has no frontmatter; one
/// without a delimiter line after that has an unterminated one. Otherwise
/// the characters between the two delimiters are the metadata block, which is
/// read as a mapping (the empty block as the empty mapping), and everything
/// after the second delimiter is the body, whose trimmed form is the
/// summary.
pub open spec fn decoded(text: Seq<char>) -> Result<ChangesetView, DecodeErrorView> {
    if !has_opening(text) {
        Err(DecodeErrorView::MissingFrontmatter)
    } else {
        match closing(text) {
            None => Err(DecodeErrorView::UnterminatedFrontmatter),
            Some(end) => assembled(mapping_of(text.subrange(4, end)), text.skip(end + 4)),
        }
    }
}

impl Changeset {
    /// The metadata lines of the releases.
    pub fn metadata(&self) -> (text: String)
        ensures
            text@ == metadata_text(self@.releases),
    {
        let mut text = String::new();
        let count = self.releases.len();
        let ghost releases = self.releases.deep_view();
        let mut i: usize = 0;
        proof {
            assert(releases.take(0) =~= Seq::<ReleaseView>::empty());
        }
        while i < count
            invariant
                i <= count,
                count == self.releases.len(),
                releases == self.releases.deep_view(),
                text@ == metadata_text(releases.take(i as int)),
            decreases count - i,
        {
            let release = &self.releases[i];
            let ghost before = text@;
            text.append("\"");
            text.append(release.package.as_str());
            text.append("\": ");
            text.append(release.kind.as_str());
            text.append("\n");
            proof {
                reveal_strlit("\"");
                reveal_strlit("\": ");
                reveal_strlit("\n");
                assert("\""@ =~= seq!['"']);
                assert("\": "@ =~= seq!['"', ':', ' ']);
                assert("\n"@ =~= seq!['\n']);
                let done = releases.take(i + 1);
                assert(done.drop_last() =~= releases.take(i as int));
                assert(done.last() == release@);
                assert(text@ =~= before + metadata_line(release@));
            }
            i += 1;
        }
        proof {
            assert(releases.take(count as int) =~= releases);
        }
        text
    }

    /// Writes the changeset as text. Packages are put between double quotes
    /// as they are, with nothing escaped.
    pub fn encode(&self) -> (text: String)
        ensures
            text@ == encoded(self@),
    {
        proof {
            reveal_strlit("---\n");
            reveal_strlit("\n");
            reveal_strlit("---\n\n");
        }
        let mut text = "---\n".to_owned();
        assert(text@ =~= delimiter());
        let metadata = self.metadata();
        text.append(metadata.as_str());
        text.append("---\n\n");
        text.append(self.summary.as_str());
        text.append("\n");
        proof {
            assert("---\n\n"@ =~= delimiter() + seq!['\n']);
            assert("\n"@ =~= seq!['\n']);
            assert(text@ =~= encoded(self@));
        }
        text
    }

    /// Puts a changeset together from what the metadata reader made of the
    /// metadata block and from the body.
    ///
    /// A diagnostic of the reader is handed on as `MalformedMetadata`. Of the
    /// pairs that it read, each becomes a release, in their order; the first
    /// value that is no token of a kind is refused as `UnrecognizedBumpKind`.
    /// The summary is the trimmed body.
    pub fn assemble(parsed: Result<Vec<(String, String)>, String>, body: &str) -> (r: Result<
        Changeset,
        DecodeError,
    >)
        ensures
            decoding_view(r) == assembled(parsed_view(parsed), body@),
            parsed matches Ok(entries) && distinct_keys(entries.deep_view()) ==> (r matches Ok(
                changeset,
            ) ==> distinct_packages(changeset@.releases)),
    {
        match parsed {
            Err(diagnostic) => Err(DecodeError::MalformedMetadata(diagnostic)),
            Ok(entries) => match releases_from_entries(&entries) {
                Err(error) => Err(error),
                Ok(releases) => {
                    proof {
                        lemma_releases_of_pairs(entries.deep_view());
                    }
                    Ok(Changeset { releases, summary: trim(body) })
                },
            },
        }
    }

    /// Reads a changeset from its text form.
    ///
    /// The text begins with the delimiter line; what stands before the next
    /// delimiter line is the metadata, a mapping from packages to the tokens
    /// of their kinds, with keys quoted or not; what stands after that line
    /// is the body, which is trimmed. Each pair of the mapping gives one release,
    /// in the mapping's order, and no two releases are for the same
    /// package: a package that the metadata names again keeps its first
    /// place and gets the kind that was named last.
    pub fn decode(contents: &str) -> (r: Result<Changeset, DecodeError>)
        ensures
            decoding_view(r) == decoded(contents@),
            r matches Ok(changeset) ==> distinct_packages(changeset@.releases),
    {
        proof {
            lemma_frames_agree(contents@);
            encode_utf8_valid_utf8(contents@);
        }
        match find_frontmatter(contents) {
            Some((start, end, body_start)) => {
                proof {
                    lemma_frontmatter_bytes(contents.spec_bytes());
                    assert(frontmatter_bytes(contents.spec_bytes()) == Some(
                        (4int, end as int, end + 4),
                    ));
                    assert(frontmatter(contents@) is Some);
                }
                let (front, body) = contents.split_at(body_start);
                proof {
                    encode_utf8_valid_utf8(front@);
                    lemma_delimiter_at_byte(contents.spec_bytes(), end as int);
                    assert(front.spec_bytes()[end as int] == contents.spec_bytes()[end as int]);
                    lemma_boundary_after_ascii(front.spec_bytes(), end as int);
                }
                let (head, _) = front.split_at(end);
                proof {
                    encode_utf8_valid_utf8(head@);
                    lemma_delimiter_at_byte(contents.spec_bytes(), 0);
                    assert(head.spec_bytes()[3] == contents.spec_bytes()[3]);
                    lemma_boundary_after_ascii(head.spec_bytes(), 3);
                }
                let (_, block) = head.split_at(start);
                proof {
                    let text = contents@;
                    let k = closing(text)->0;
                    assert(block.spec_bytes() =~= contents.spec_bytes().subrange(4, end as int));
                    encode_utf8_decode_utf8(block@);
                    encode_utf8_decode_utf8(text.subrange(4, k));
                    encode_utf8_decode_utf8(body@);
                    encode_utf8_decode_utf8(text.skip(k + 4));
                    assert(block@ == text.subrange(4, k));
                    assert(body@ == text.skip(k + 4));
                }
                Changeset::assemble(read_block(block), body)
            },
            None => if is_delimiter_line_at(contents.as_bytes(), 0) {
                Err(DecodeError::UnterminatedFrontmatter)
            } else {
                Err(DecodeError::MissingFrontmatter)
            },
        }
    }
}

impl TryFrom<&str> for Changeset {
    type Error = DecodeError;

    /// Reads a changeset from its text form, as `Changeset::decode` does.
    fn try_from(contents: &str) -> (r: Result<Changeset, DecodeError>)
        ensures
            decoding_view(r) == decoded(contents@),
            r matches Ok(changeset) ==> distinct_packages(changeset@.releases),
    {
        Changeset::decode(contents)
    }
}

/// `try_from` says what it returns in its own `ensures`, over views; the
/// trait's way of saying it, by a value of `Changeset`, is not taken.
impl vstd::std_specs::convert::TryFromSpecImpl<&str> for Changeset {
    open spec fn obeys_try_from_spec() -> bool {
        false
    }

    open spec fn try_from_spec(contents: &str) -> Result<Changeset, DecodeError> {
        arbitrary()
    }
}

impl From<Changeset> for String {
    /// Writes the changeset as text, as `Changeset::encode` does.
    fn from(changeset: Changeset) -> (text: String)
        ensures
            text@ == encoded(changeset@),
    {
        changeset.encode()
    }
}

/// `from` says what it returns in its own `ensures`, over views; the trait's
/// way of saying it, by a value of `String`, is not taken.
impl vstd::std_specs::convert::FromSpecImpl<Changeset> for String {
    open spec fn obeys_from_spec() -> bool {
        false
    }

    open spec fn from_spec(changeset: Changeset) -> String {
        arbitrary()
    }
}

} // verus!

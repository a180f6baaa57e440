//! Where a changeset is kept until it is released.

use vstd::prelude::*;
use vstd::string::*;

verus! {

/// The directory that holds the changesets that wait for a release.
pub const DIRECTORY: &'static str = ".changeset-rs";

/// The path of the file of the changeset with the given identifier: the
/// directory, a slash, the identifier, and `.md`.
pub open spec fn artifact_path(id: Seq<char>) -> Seq<char> {
    ".changeset-rs"@ + seq!['/'] + id + ".md"@
}

/// A word of an identifier: two to eight lower-case letters.
pub open spec fn is_word(word: Seq<char>) -> bool {
    &&& 2 <= word.len() <= 8
    &&& forall|i: int| 0 <= i < word.len() ==> 'a' <= #[trigger] word[i] <= 'z'
}

/// An identifier as they are made up: three words with hyphens between
/// them.
pub open spec fn is_identifier(id: Seq<char>) -> bool {
    exists|first: Seq<char>, second: Seq<char>, third: Seq<char>|
        #![trigger first + seq!['-'] + second + seq!['-'] + third]
        is_word(first) && is_word(second) && is_word(third) && id == first + seq!['-'] + second
            + seq!['-'] + third
}

/// An identifier is 8 to 26 characters long and holds lower-case letters
/// and hyphens only.
pub proof fn lemma_identifier(id: Seq<char>)
    requires
        is_identifier(id),
    ensures
        8 <= id.len() <= 26,
        forall|i: int| 0 <= i < id.len() ==> #[trigger] id[i] == '-' || 'a' <= id[i] <= 'z',
{
    let (first, second, third) = choose|first: Seq<char>, second: Seq<char>, third: Seq<char>|
        #![trigger first + seq!['-'] + second + seq!['-'] + third]
        is_word(first) && is_word(second) && is_word(third) && id == first + seq!['-'] + second
            + seq!['-'] + third;
    let a = first.len() as int;
    let b = a + 1 + second.len();
    assert forall|i: int| 0 <= i < id.len() implies #[trigger] id[i] == '-' || 'a' <= id[i]
        <= 'z' by {
        if i < a {
            assert(id[i] == first[i]);
        } else if i == a {
        } else if i < b {
            assert(id[i] == second[i - a - 1]);
        } else if i == b {
        } else {
            assert(id[i] == third[i - b - 1]);
        }
    }
}

/// The path of the file of the changeset with the given identifier.
pub fn file_path(id: &str) -> (path: String)
    ensures
        path@ == artifact_path(id@),
{
    proof {
        reveal_strlit("/");
        assert("/"@ =~= seq!['/']);
    }
    let mut path = DIRECTORY.to_owned();
    path.append("/");
    path.append(id);
    path.append(".md");
    path
}

/// Makes up an identifier with `human_id::id`, with a hyphen for the
/// separator and without capitals.
///
/// Believed, not proved: the identifier is one word of each of the crate's
/// three lists, in their order, with hyphens between them, and each word of
/// those lists is two to eight lower-case letters. Which words they are is
/// drawn at random, so nothing is stated of that.
#[verifier::external_body]
fn human_id() -> (id: String)
    ensures
        is_identifier(id@),
{
    human_id::id("-", false)
}

/// The path of the file of a new changeset, under an identifier made up for
/// it.
pub fn fresh_file_path() -> (path: String)
    ensures
        exists|id: Seq<char>| is_identifier(id) && path@ == artifact_path(id),
{
    let id = human_id();
    file_path(id.as_str())
}

} // verus!

//! Locating the metadata block: the text between the delimiter line that opens
//! a changeset and the next delimiter line after it.
//!
//! The frame is defined twice: over the characters of a text, which is what
//! decoding is stated over, and over its bytes, which is what positions in a
//! `&str` count.

use crate::encoding::{byte_offset, lemma_frames_agree, lemma_line_in_bytes};
use vstd::prelude::*;
use vstd::string::*;
use vstd::utf8::*;

verus! {

/// The delimiter: three hyphens and a line feed.
pub open spec fn delimiter() -> Seq<char> {
    seq!['-', '-', '-', '\n']
}

/// The delimiter stands in `text` at position `i`.
pub open spec fn delimiter_at(text: Seq<char>, i: int) -> bool {
    &&& 0 <= i
    &&& i + 4 <= text.len()
    &&& text.subrange(i, i + 4) == delimiter()
}

/// The delimiter stands in `text` at position `i` as a line: at the
/// beginning of the text or after a line feed.
pub open spec fn delimiter_line_at(text: Seq<char>, i: int) -> bool {
    &&& delimiter_at(text, i)
    &&& (i == 0 || text[i - 1] == '\n')
}

/// `text` begins with the delimiter.
pub open spec fn has_opening(text: Seq<char>) -> bool {
    delimiter_at(text, 0)
}

/// The first position at or after `from` where the delimiter stands as a
/// line.
pub open spec fn first_delimiter(text: Seq<char>, from: int) -> Option<int>
    decreases text.len() - from,
{
    if from < 0 || from + 4 > text.len() {
        None
    } else if delimiter_line_at(text, from) {
        Some(from)
    } else {
        first_delimiter(text, from + 1)
    }
}

/// Where the delimiter that closes the metadata block stands: the first
/// delimiter line after the opening delimiter's four characters.
pub open spec fn closing(text: Seq<char>) -> Option<int> {
    first_delimiter(text, 4)
}

/// The three positions that frame a changeset: where the metadata block
/// begins, where it ends (the closing delimiter begins there), and where the
/// body begins. `None` unless the text has both delimiters.
pub open spec fn frontmatter(text: Seq<char>) -> Option<(int, int, int)> {
    if has_opening(text) {
        match closing(text) {
            Some(end) => Some((4, end, end + 4)),
            None => None,
        }
    } else {
        None
    }
}

/// The delimiter stands at `i` exactly if the four characters from `i` on
/// are three hyphens and a line feed.
pub proof fn lemma_delimiter_at(text: Seq<char>, i: int)
    ensures
        delimiter_at(text, i) <==> {
            &&& 0 <= i
            &&& i + 4 <= text.len()
            &&& text[i] == '-'
            &&& text[i + 1] == '-'
            &&& text[i + 2] == '-'
            &&& text[i + 3] == '\n'
        },
{
    if 0 <= i && i + 4 <= text.len() {
        let window = text.subrange(i, i + 4);
        assert(window[0] == text[i]);
        assert(window[1] == text[i + 1]);
        assert(window[2] == text[i + 2]);
        assert(window[3] == text[i + 3]);
        if text[i] == '-' && text[i + 1] == '-' && text[i + 2] == '-' && text[i + 3] == '\n' {
            assert(window =~= delimiter());
        }
    }
}

/// `first_delimiter` finds a delimiter line, the earliest there is from
/// `from` on, and finds none only where there is none.
pub proof fn lemma_first_delimiter(text: Seq<char>, from: int)
    requires
        0 <= from,
    ensures
        match first_delimiter(text, from) {
            Some(at) => {
                &&& from <= at
                &&& delimiter_line_at(text, at)
                &&& forall|j: int| from <= j < at ==> !delimiter_line_at(text, j)
            },
            None => forall|j: int| from <= j ==> !delimiter_line_at(text, j),
        },
    decreases text.len() - from,
{
    if from + 4 <= text.len() && !delimiter_line_at(text, from) {
        lemma_first_delimiter(text, from + 1);
    }
}

/// A delimiter line at `at` with none in `from..at` is the first from `from`
/// on.
pub proof fn lemma_first_delimiter_is(text: Seq<char>, from: int, at: int)
    requires
        0 <= from <= at,
        delimiter_line_at(text, at),
        forall|j: int| from <= j < at ==> !delimiter_line_at(text, j),
    ensures
        first_delimiter(text, from) == Some(at),
    decreases at - from,
{
    if from < at {
        lemma_first_delimiter_is(text, from + 1, at);
    }
}

/// What the positions of `frontmatter` mean: the text begins with the
/// delimiter, a delimiter line stands at `end`, none stands between the
/// two, and the three positions are `4`, `end` and `end + 4`; and there are
/// no such positions only if the text does not begin with the delimiter or
/// holds no second delimiter line.
pub proof fn lemma_frontmatter(text: Seq<char>)
    ensures
        match frontmatter(text) {
            Some((start, end, body)) => {
                &&& has_opening(text)
                &&& start == 4
                &&& 4 <= end
                &&& body == end + 4
                &&& body <= text.len()
                &&& delimiter_line_at(text, end)
                &&& forall|j: int| 4 <= j < end ==> !delimiter_line_at(text, j)
            },
            None => !has_opening(text) || forall|j: int| 4 <= j ==> !delimiter_line_at(text, j),
        },
{
    lemma_first_delimiter(text, 4);
}

/// The delimiter as bytes: three hyphens and a line feed.
pub open spec fn delimiter_bytes() -> Seq<u8> {
    seq![0x2du8, 0x2du8, 0x2du8, 0x0au8]
}

/// The delimiter stands in `bytes` at position `i`.
pub open spec fn delimiter_at_byte(bytes: Seq<u8>, i: int) -> bool {
    &&& 0 <= i
    &&& i + 4 <= bytes.len()
    &&& bytes.subrange(i, i + 4) == delimiter_bytes()
}

/// The delimiter stands in `bytes` at position `i` as a line: at the
/// beginning or after a line feed.
pub open spec fn delimiter_line_at_byte(bytes: Seq<u8>, i: int) -> bool {
    &&& delimiter_at_byte(bytes, i)
    &&& (i == 0 || bytes[i - 1] == 0x0au8)
}

/// The first position at or after `from` where the delimiter stands in
/// `bytes` as a line.
pub open spec fn first_delimiter_byte(bytes: Seq<u8>, from: int) -> Option<int>
    decreases bytes.len() - from,
{
    if from < 0 || from + 4 > bytes.len() {
        None
    } else if delimiter_line_at_byte(bytes, from) {
        Some(from)
    } else {
        first_delimiter_byte(bytes, from + 1)
    }
}

/// The three positions that frame a changeset in its bytes: where the
/// metadata block begins, where it ends (the closing delimiter begins
/// there), and where the body begins. `None` unless the bytes begin with the
/// delimiter and hold a delimiter line after it.
pub open spec fn frontmatter_bytes(bytes: Seq<u8>) -> Option<(int, int, int)> {
    if delimiter_at_byte(bytes, 0) {
        match first_delimiter_byte(bytes, 4) {
            Some(end) => Some((4, end, end + 4)),
            None => None,
        }
    } else {
        None
    }
}

/// The delimiter stands at `i` exactly if the four bytes from `i` on are
/// three hyphens and a line feed.
pub proof fn lemma_delimiter_at_byte(bytes: Seq<u8>, i: int)
    ensures
        delimiter_at_byte(bytes, i) <==> {
            &&& 0 <= i
            &&& i + 4 <= bytes.len()
            &&& bytes[i] == 0x2d
            &&& bytes[i + 1] == 0x2d
            &&& bytes[i + 2] == 0x2d
            &&& bytes[i + 3] == 0x0a
        },
{
    if 0 <= i && i + 4 <= bytes.len() {
        let window = bytes.subrange(i, i + 4);
        assert(window[0] == bytes[i]);
        assert(window[1] == bytes[i + 1]);
        assert(window[2] == bytes[i + 2]);
        assert(window[3] == bytes[i + 3]);
        if bytes[i] == 0x2d && bytes[i + 1] == 0x2d && bytes[i + 2] == 0x2d && bytes[i + 3]
            == 0x0a {
            assert(window =~= delimiter_bytes());
        }
    }
}

/// `first_delimiter_byte` finds a delimiter line, the earliest there is from
/// `from` on, and finds none only where there is none.
pub proof fn lemma_first_delimiter_byte(bytes: Seq<u8>, from: int)
    requires
        0 <= from,
    ensures
        match first_delimiter_byte(bytes, from) {
            Some(at) => {
                &&& from <= at
                &&& delimiter_line_at_byte(bytes, at)
                &&& forall|j: int| from <= j < at ==> !delimiter_line_at_byte(bytes, j)
            },
            None => forall|j: int| from <= j ==> !delimiter_line_at_byte(bytes, j),
        },
    decreases bytes.len() - from,
{
    if from + 4 <= bytes.len() && !delimiter_line_at_byte(bytes, from) {
        lemma_first_delimiter_byte(bytes, from + 1);
    }
}

/// In well-formed UTF-8, a character ends after every byte below 128.
pub proof fn lemma_boundary_after_ascii(bytes: Seq<u8>, i: int)
    requires
        valid_utf8(bytes),
        0 <= i < bytes.len(),
        bytes[i] <= 0x7f,
    ensures
        is_char_boundary(bytes, i),
        is_char_boundary(bytes, i + 1),
    decreases bytes.len(),
{
    let width = length_of_first_scalar(bytes);
    if i < width {
        reveal_with_fuel(is_char_boundary, 2);
    } else {
        let tail = pop_first_scalar(bytes);
        assert(tail[i - width] == bytes[i]);
        lemma_boundary_after_ascii(tail, i - width);
    }
}

/// Whether the delimiter stands in `bytes` at position `i` as a line.
pub fn is_delimiter_line_at(bytes: &[u8], i: usize) -> (r: bool)
    ensures
        r == delimiter_line_at_byte(bytes@, i as int),
{
    proof {
        lemma_delimiter_at_byte(bytes@, i as int);
    }
    let len = bytes.len();
    len >= 4 && i <= len - 4 && bytes[i] == 0x2d && bytes[i + 1] == 0x2d && bytes[i + 2] == 0x2d
        && bytes[i + 3] == 0x0a && (i == 0 || bytes[i - 1] == 0x0a)
}

/// The first position at or after `from` where the delimiter stands in
/// `bytes` as a line.
pub fn find_delimiter(bytes: &[u8], from: usize) -> (r: Option<usize>)
    ensures
        match r {
            Some(at) => first_delimiter_byte(bytes@, from as int) == Some(at as int),
            None => first_delimiter_byte(bytes@, from as int) is None,
        },
{
    let len = bytes.len();
    let mut i = from;
    while i < len
        invariant
            from <= i,
            len == bytes.len(),
            first_delimiter_byte(bytes@, from as int) == first_delimiter_byte(bytes@, i as int),
        decreases len - i,
    {
        if is_delimiter_line_at(bytes, i) {
            return Some(i);
        }
        i += 1;
    }
    None
}

/// Finds the metadata block of a changeset.
///
/// A text that begins with the delimiter and holds a delimiter line after
/// it gives `(4, end, end + 4)`: the block begins after the opening
/// delimiter, at byte 4; `end` is where the first delimiter line after that
/// begins, and the block ends there; the body begins after that line. Any
/// other text gives `None`. The positions count bytes, and a character of
/// the text begins at each of them, so that the text can be cut there: they
/// are the bytes at which the characters of the frame of the text begin.
pub fn find_frontmatter(contents: &str) -> (r: Option<(usize, usize, usize)>)
    ensures
        match r {
            Some((start, end, body)) => {
                &&& frontmatter_bytes(contents.spec_bytes()) == Some(
                    (start as int, end as int, body as int),
                )
                &&& start == 4 <= end
                &&& body == end + 4 <= contents.spec_bytes().len()
                &&& is_char_boundary(contents.spec_bytes(), start as int)
                &&& is_char_boundary(contents.spec_bytes(), end as int)
                &&& is_char_boundary(contents.spec_bytes(), body as int)
                &&& frontmatter(contents@) matches Some((first, last, rest))
                &&& end == byte_offset(contents@, last)
                &&& body == byte_offset(contents@, rest)
            },
            None => frontmatter_bytes(contents.spec_bytes()) is None && frontmatter(contents@)
                is None,
        },
{
    proof {
        lemma_frames_agree(contents@);
        lemma_first_delimiter(contents@, 4);
    }
    let bytes = contents.as_bytes();
    if !is_delimiter_line_at(bytes, 0) {
        return None;
    }
    match find_delimiter(bytes, 4) {
        Some(end) => {
            proof {
                encode_utf8_valid_utf8(contents@);
                lemma_first_delimiter_byte(bytes@, 4);
                lemma_delimiter_at_byte(bytes@, 0);
                lemma_delimiter_at_byte(bytes@, end as int);
                lemma_boundary_after_ascii(bytes@, 3);
                lemma_boundary_after_ascii(bytes@, end as int);
                lemma_boundary_after_ascii(bytes@, end + 3);
                let found = frontmatter(contents@)->Some_0;
                lemma_line_in_bytes(contents@, found.1);
            }
            assert(end + 4 <= bytes.len());
            Some((4, end, end + 4))
        },
        None => None,
    }
}

/// What the positions of `frontmatter_bytes` mean: the bytes begin with the
/// delimiter, a delimiter line stands at `end`, none stands between the
/// two, and the three positions are `4`, `end` and `end + 4`; and there are
/// no such positions only if the bytes do not begin with the delimiter or
/// hold no second delimiter line.
pub proof fn lemma_frontmatter_bytes(bytes: Seq<u8>)
    ensures
        match frontmatter_bytes(bytes) {
            Some((start, end, body)) => {
                &&& delimiter_at_byte(bytes, 0)
                &&& start == 4
                &&& 4 <= end
                &&& body == end + 4
                &&& body <= bytes.len()
                &&& delimiter_line_at_byte(bytes, end)
                &&& forall|j: int| 4 <= j < end ==> !delimiter_line_at_byte(bytes, j)
            },
            None => !delimiter_at_byte(bytes, 0) || forall|j: int|
                4 <= j ==> !delimiter_line_at_byte(bytes, j),
        },
{
    lemma_first_delimiter_byte(bytes, 4);
}

} // verus!

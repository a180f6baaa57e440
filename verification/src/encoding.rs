//! How the characters of a text and its UTF-8 bytes correspond, as far as
//! the frame of a changeset needs it.

use crate::frontmatter::{
    delimiter, delimiter_at, delimiter_at_byte, delimiter_bytes, delimiter_line_at,
    delimiter_line_at_byte, first_delimiter, first_delimiter_byte, frontmatter,
    frontmatter_bytes, lemma_boundary_after_ascii, lemma_first_delimiter,
    lemma_first_delimiter_byte, lemma_first_delimiter_is,
};
use vstd::prelude::*;
use vstd::utf8::*;

verus! {

/// How many bytes the first `k` characters of `text` take.
pub open spec fn byte_offset(text: Seq<char>, k: int) -> int {
    encode_utf8(text.take(k)).len() as int
}

/// How many characters the first `j` bytes of `bytes` hold.
pub open spec fn char_index(bytes: Seq<u8>, j: int) -> int {
    decode_utf8(bytes.subrange(0, j)).len() as int
}

/// The bytes of two texts put together are the bytes of the one and then
/// the bytes of the other.
pub proof fn lemma_encode_concat(a: Seq<char>, b: Seq<char>)
    ensures
        encode_utf8(a + b) == encode_utf8(a) + encode_utf8(b),
    decreases a.len(),
{
    if a.len() == 0 {
        assert(a + b =~= b);
        assert(encode_utf8(a) + encode_utf8(b) =~= encode_utf8(b));
    } else {
        assert((a + b).drop_first() =~= a.drop_first() + b);
        lemma_encode_concat(a.drop_first(), b);
        assert(encode_utf8(a + b) =~= encode_utf8(a) + encode_utf8(b));
    }
}

/// A text takes at least one byte for each character.
pub proof fn lemma_encode_len(text: Seq<char>)
    ensures
        encode_utf8(text).len() >= text.len(),
    decreases text.len(),
{
    if text.len() > 0 {
        lemma_encode_len(text.drop_first());
    }
}

/// More characters take more bytes.
pub proof fn lemma_byte_offset_grows(text: Seq<char>, k: int, l: int)
    requires
        0 <= k <= l <= text.len(),
    ensures
        byte_offset(text, l) >= byte_offset(text, k) + (l - k),
        byte_offset(text, l) == byte_offset(text, k) + encode_utf8(text.subrange(k, l)).len(),
{
    assert(text.take(l) =~= text.take(k) + text.subrange(k, l));
    lemma_encode_concat(text.take(k), text.subrange(k, l));
    lemma_encode_len(text.subrange(k, l));
}

/// The bytes of a text are the bytes of its first `k` characters and then
/// the bytes of the others.
pub proof fn lemma_encode_split(text: Seq<char>, k: int)
    requires
        0 <= k <= text.len(),
    ensures
        encode_utf8(text) == encode_utf8(text.take(k)) + encode_utf8(text.skip(k)),
        encode_utf8(text).subrange(0, byte_offset(text, k)) == encode_utf8(text.take(k)),
        encode_utf8(text).subrange(byte_offset(text, k), encode_utf8(text).len() as int)
            == encode_utf8(text.skip(k)),
{
    assert(text =~= text.take(k) + text.skip(k));
    lemma_encode_concat(text.take(k), text.skip(k));
    let bytes = encode_utf8(text);
    assert(bytes.subrange(0, byte_offset(text, k)) =~= encode_utf8(text.take(k)));
    assert(bytes.subrange(byte_offset(text, k), bytes.len() as int) =~= encode_utf8(
        text.skip(k),
    ));
}

/// The delimiter's characters are written as the delimiter's bytes, and a
/// line feed as one byte.
pub proof fn lemma_encode_delimiter()
    ensures
        encode_utf8(delimiter()) == delimiter_bytes(),
        decode_utf8(delimiter_bytes()) == delimiter(),
        encode_utf8(seq!['\n']) == seq![0x0au8],
        decode_utf8(seq![0x0au8]) == seq!['\n'],
{
    assert(is_ascii_chars(delimiter()));
    is_ascii_chars_encode_utf8(delimiter());
    assert(encode_utf8(delimiter()) =~= delimiter_bytes()) by {
        assert(delimiter()[0] as u8 == 0x2d);
        assert(delimiter()[1] as u8 == 0x2d);
        assert(delimiter()[2] as u8 == 0x2d);
        assert(delimiter()[3] as u8 == 0x0a);
    }
    encode_utf8_decode_utf8(delimiter());
    assert(is_ascii_chars(seq!['\n']));
    is_ascii_chars_encode_utf8(seq!['\n']);
    assert(encode_utf8(seq!['\n']) =~= seq![0x0au8]) by {
        assert(seq!['\n'][0] as u8 == 0x0a);
    }
    encode_utf8_decode_utf8(seq!['\n']);
}

/// Where the delimiter stands among the characters as a line, it stands
/// among the bytes as a line, at the byte where that character begins.
pub proof fn lemma_line_in_bytes(text: Seq<char>, k: int)
    requires
        delimiter_line_at(text, k),
    ensures
        delimiter_line_at_byte(encode_utf8(text), byte_offset(text, k)),
        byte_offset(text, k + 4) == byte_offset(text, k) + 4,
{
    let bytes = encode_utf8(text);
    let j = byte_offset(text, k);
    lemma_encode_delimiter();
    lemma_encode_split(text, k);
    assert(text.skip(k) =~= delimiter() + text.skip(k + 4)) by {
        assert(text.subrange(k, k + 4) == delimiter());
        assert(text.skip(k) =~= text.subrange(k, k + 4) + text.skip(k + 4));
    }
    lemma_encode_concat(delimiter(), text.skip(k + 4));
    assert(bytes.subrange(j, j + 4) =~= delimiter_bytes()) by {
        let tail = bytes.subrange(j, bytes.len() as int);
        assert(tail == delimiter_bytes() + encode_utf8(text.skip(k + 4)));
        assert forall|i: int| 0 <= i < 4 implies bytes.subrange(j, j + 4)[i] == delimiter_bytes()[i] by {
            assert(bytes[j + i] == tail[i]);
        }
    }
    lemma_byte_offset_grows(text, k, k + 4);
    assert(text.subrange(k, k + 4) == delimiter());
    if k > 0 {
        lemma_byte_offset_grows(text, k - 1, k);
        assert(text.subrange(k - 1, k) =~= seq!['\n']);
        lemma_encode_split(text, k - 1);
        lemma_encode_concat(seq!['\n'], text.skip(k));
        assert(text.skip(k - 1) =~= seq!['\n'] + text.skip(k));
        let before = byte_offset(text, k - 1);
        let tail = bytes.subrange(before, bytes.len() as int);
        assert(tail == seq![0x0au8] + encode_utf8(text.skip(k)));
        assert(bytes[before] == tail[0]);
    }
}

/// Where the delimiter stands among the bytes of a text as a line, it
/// stands among the characters as a line, at the character that begins at
/// that byte.
pub proof fn lemma_line_in_chars(text: Seq<char>, j: int)
    requires
        delimiter_line_at_byte(encode_utf8(text), j),
    ensures
        delimiter_line_at(text, char_index(encode_utf8(text), j)),
        0 <= char_index(encode_utf8(text), j) <= text.len(),
        byte_offset(text, char_index(encode_utf8(text), j)) == j,
{
    let bytes = encode_utf8(text);
    let len = bytes.len() as int;
    let k = char_index(bytes, j);
    lemma_encode_delimiter();
    encode_utf8_valid_utf8(text);
    encode_utf8_decode_utf8(text);
    assert(bytes.subrange(j, j + 4)[0] == bytes[j]);
    assert(bytes.subrange(j, j + 4)[3] == bytes[j + 3]);
    lemma_boundary_after_ascii(bytes, j);
    lemma_boundary_after_ascii(bytes, j + 3);
    let front = bytes.subrange(0, j);
    let back = bytes.subrange(j, len);
    valid_utf8_split(bytes, j);
    decode_utf8_split(bytes, j);
    assert(text == decode_utf8(front) + decode_utf8(back));
    // The back begins with the delimiter.
    assert(back[3] == bytes[j + 3]);
    lemma_boundary_after_ascii(back, 3);
    valid_utf8_split(back, 4);
    decode_utf8_split(back, 4);
    assert(back.subrange(0, 4) =~= delimiter_bytes());
    let rest = decode_utf8(back.subrange(4, back.len() as int));
    assert(decode_utf8(back) == delimiter() + rest);
    assert(text.subrange(k, k + 4) =~= delimiter());
    // The front is what the first `k` characters are written as.
    assert(text.take(k) =~= decode_utf8(front));
    decode_utf8_encode_utf8(front);
    if j > 0 {
        assert(front[j - 1] == bytes[j - 1]);
        lemma_boundary_after_ascii(front, j - 1);
        valid_utf8_split(front, j - 1);
        decode_utf8_split(front, j - 1);
        assert(front.subrange(j - 1, j) =~= seq![0x0au8]);
        let head = decode_utf8(front.subrange(0, j - 1));
        assert(decode_utf8(front) == head + seq!['\n']);
        assert(text[k - 1] == decode_utf8(front)[k - 1]);
    } else {
        assert(front =~= Seq::<u8>::empty());
    }
}

/// The frame of a text among its characters and the frame among its bytes
/// are the same frame: where the one is found the other is, at the bytes
/// where those characters begin, and the block and the body are written as
/// the bytes between and after the delimiters.
pub proof fn lemma_frames_agree(text: Seq<char>)
    ensures
        delimiter_at(text, 0) <==> delimiter_at_byte(encode_utf8(text), 0),
        match frontmatter_bytes(encode_utf8(text)) {
            Some((start, end, body)) => {
                let k = char_index(encode_utf8(text), end);
                &&& frontmatter(text) == Some((4int, k, k + 4))
                &&& end == byte_offset(text, k)
                &&& encode_utf8(text).subrange(4, end) == encode_utf8(text.subrange(4, k))
                &&& encode_utf8(text).subrange(body, encode_utf8(text).len() as int)
                    == encode_utf8(text.skip(k + 4))
            },
            None => frontmatter(text) is None,
        },
{
    let bytes = encode_utf8(text);
    lemma_encode_delimiter();
    assert(byte_offset(text, 0) == 0) by {
        assert(text.take(0) =~= Seq::<char>::empty());
    }
    if delimiter_at(text, 0) {
        lemma_line_in_bytes(text, 0);
    }
    if delimiter_at_byte(bytes, 0) {
        lemma_line_in_chars(text, 0);
        assert(char_index(bytes, 0) == 0) by {
            assert(bytes.subrange(0, 0) =~= Seq::<u8>::empty());
        }
    }
    if delimiter_at(text, 0) {
        assert(byte_offset(text, 4) == 4);
        lemma_first_delimiter_byte(bytes, 4);
        lemma_first_delimiter(text, 4);
        match first_delimiter_byte(bytes, 4) {
            Some(end) => {
                let k = char_index(bytes, end);
                lemma_line_in_chars(text, end);
                if k < 4 {
                    lemma_byte_offset_grows(text, k, 4);
                }
                assert forall|l: int| 4 <= l < k implies !delimiter_line_at(text, l) by {
                    if delimiter_line_at(text, l) {
                        lemma_line_in_bytes(text, l);
                        lemma_byte_offset_grows(text, 4, l);
                        lemma_byte_offset_grows(text, l, k);
                    }
                }
                lemma_first_delimiter_is(text, 4, k);
                lemma_line_in_bytes(text, k);
                lemma_byte_offset_grows(text, 4, k);
                lemma_encode_split(text, k);
                lemma_encode_split(text, k + 4);
                lemma_encode_split(text.take(k), 4);
                assert(text.take(k).take(4) =~= text.take(4));
                assert(text.take(k).skip(4) =~= text.subrange(4, k));
                assert(bytes.subrange(4, end) =~= encode_utf8(text.subrange(4, k))) by {
                    let front = encode_utf8(text.take(k));
                    assert(front == encode_utf8(text.take(4)) + encode_utf8(text.subrange(4, k)));
                    assert(bytes.subrange(0, end) == front);
                    assert(bytes.subrange(4, end) =~= bytes.subrange(0, end).subrange(4, end));
                }
            },
            None => {
                match first_delimiter(text, 4) {
                    Some(at) => {
                        lemma_line_in_bytes(text, at);
                        lemma_byte_offset_grows(text, 4, at);
                    },
                    None => {},
                }
            },
        }
    }
}

} // verus!

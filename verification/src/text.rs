//! Character-level helpers: whitespace, trimming, and moving between
//! `&str` and sequences of characters.

use vstd::prelude::*;
use vstd::string::*;

verus! {

/// The characters that Unicode marks as `White_Space`.
pub open spec fn white_space(c: char) -> bool {
    ||| '\u{0009}' <= c <= '\u{000D}'
    ||| c == '\u{0020}'
    ||| c == '\u{0085}'
    ||| c == '\u{00A0}'
    ||| c == '\u{1680}'
    ||| '\u{2000}' <= c <= '\u{200A}'
    ||| c == '\u{2028}'
    ||| c == '\u{2029}'
    ||| c == '\u{202F}'
    ||| c == '\u{205F}'
    ||| c == '\u{3000}'
}

/// Every character of `s` is whitespace.
pub open spec fn all_white_space(s: Seq<char>) -> bool {
    forall|i: int| 0 <= i < s.len() ==> white_space(#[trigger] s[i])
}

/// How many whitespace characters `s` begins with.
pub open spec fn leading_white_space(s: Seq<char>) -> nat
    decreases s.len(),
{
    if s.len() > 0 && white_space(s[0]) {
        1 + leading_white_space(s.drop_first())
    } else {
        0
    }
}

/// How many whitespace characters `s` ends with.
pub open spec fn trailing_white_space(s: Seq<char>) -> nat
    decreases s.len(),
{
    if s.len() > 0 && white_space(s.last()) {
        1 + trailing_white_space(s.drop_last())
    } else {
        0
    }
}

/// `s` without its leading whitespace.
pub open spec fn trim_start(s: Seq<char>) -> Seq<char> {
    s.skip(leading_white_space(s) as int)
}

/// `s` without its trailing whitespace.
pub open spec fn trim_end(s: Seq<char>) -> Seq<char> {
    s.take(s.len() - trailing_white_space(s))
}

/// `s` without its leading and trailing whitespace.
pub open spec fn trimmed(s: Seq<char>) -> Seq<char> {
    trim_end(trim_start(s))
}

/// `s` neither begins nor ends with whitespace (the empty text included).
pub open spec fn is_trimmed(s: Seq<char>) -> bool {
    s.len() > 0 ==> !white_space(s[0]) && !white_space(s.last())
}

/// `leading_white_space(s)` is the one index `n` such that everything before
/// `n` is whitespace and `s[n]`, if there is one, is not.
pub proof fn lemma_leading_white_space(s: Seq<char>, n: int)
    requires
        0 <= n <= s.len(),
        forall|i: int| 0 <= i < n ==> white_space(#[trigger] s[i]),
        n < s.len() ==> !white_space(s[n]),
    ensures
        leading_white_space(s) == n,
    decreases n,
{
    if n > 0 {
        let rest = s.drop_first();
        assert forall|i: int| 0 <= i < n - 1 implies white_space(#[trigger] rest[i]) by {
            assert(rest[i] == s[i + 1]);
        }
        if n - 1 < rest.len() {
            assert(rest[n - 1] == s[n]);
        }
        lemma_leading_white_space(rest, n - 1);
    }
}

/// `trailing_white_space(s)` is the one count `n` such that the last `n`
/// characters are whitespace and the one before them, if there is one, is
/// not.
pub proof fn lemma_trailing_white_space(s: Seq<char>, n: int)
    requires
        0 <= n <= s.len(),
        forall|i: int| s.len() - n <= i < s.len() ==> white_space(#[trigger] s[i]),
        n < s.len() ==> !white_space(s[s.len() - n - 1]),
    ensures
        trailing_white_space(s) == n,
    decreases n,
{
    if n > 0 {
        let rest = s.drop_last();
        assert forall|i: int| rest.len() - (n - 1) <= i < rest.len() implies white_space(
            #[trigger] rest[i],
        ) by {
            assert(rest[i] == s[i]);
        }
        if n - 1 < rest.len() {
            assert(rest[rest.len() - (n - 1) - 1] == s[s.len() - n - 1]);
        }
        lemma_trailing_white_space(rest, n - 1);
    }
}

/// The leading whitespace count stays within the text, counts whitespace
/// only, and stops at a character that is not whitespace.
pub proof fn lemma_leading_bounds(s: Seq<char>)
    ensures
        leading_white_space(s) <= s.len(),
        forall|i: int| 0 <= i < leading_white_space(s) ==> white_space(#[trigger] s[i]),
        leading_white_space(s) < s.len() ==> !white_space(s[leading_white_space(s) as int]),
    decreases s.len(),
{
    if s.len() > 0 && white_space(s[0]) {
        let rest = s.drop_first();
        lemma_leading_bounds(rest);
        let n = leading_white_space(s);
        assert forall|i: int| 0 <= i < n implies white_space(#[trigger] s[i]) by {
            if i > 0 {
                assert(s[i] == rest[i - 1]);
            }
        }
        if n < s.len() {
            assert(s[n as int] == rest[n - 1]);
        }
    }
}

/// The trailing whitespace count stays within the text, counts whitespace
/// only, and stops at a character that is not whitespace.
pub proof fn lemma_trailing_bounds(s: Seq<char>)
    ensures
        trailing_white_space(s) <= s.len(),
        forall|i: int|
            s.len() - trailing_white_space(s) <= i < s.len() ==> white_space(#[trigger] s[i]),
        trailing_white_space(s) < s.len() ==> !white_space(
            s[s.len() - trailing_white_space(s) - 1],
        ),
    decreases s.len(),
{
    if s.len() > 0 && white_space(s.last()) {
        let rest = s.drop_last();
        lemma_trailing_bounds(rest);
        let n = trailing_white_space(s);
        assert forall|i: int| s.len() - n <= i < s.len() implies white_space(#[trigger] s[i]) by {
            if i < s.len() - 1 {
                assert(s[i] == rest[i]);
            }
        }
        if n < s.len() {
            assert(s[s.len() - n - 1] == rest[rest.len() - (n - 1) - 1]);
        }
    }
}

/// Whenever `s[a..b]` is what is left of `s` after whitespace is taken from
/// both ends, it is `trimmed(s)`.
pub proof fn lemma_trimmed_is_range(s: Seq<char>, a: int, b: int)
    requires
        0 <= a <= b <= s.len(),
        forall|i: int| 0 <= i < a ==> white_space(#[trigger] s[i]),
        forall|i: int| b <= i < s.len() ==> white_space(#[trigger] s[i]),
        a < b ==> !white_space(s[a]) && !white_space(s[b - 1]),
    ensures
        trimmed(s) == s.subrange(a, b),
{
    if a < b {
        lemma_leading_white_space(s, a);
        let rest = s.skip(a);
        assert forall|i: int| rest.len() - (s.len() - b) <= i < rest.len() implies white_space(
            #[trigger] rest[i],
        ) by {
            assert(rest[i] == s[i + a]);
        }
        assert(rest[rest.len() - (s.len() - b) - 1] == s[b - 1]);
        lemma_trailing_white_space(rest, s.len() - b);
        assert(rest.take(rest.len() - (s.len() - b)) =~= s.subrange(a, b));
    } else {
        // Nothing but whitespace: whatever the leading count is, the rest is
        // whitespace to its end.
        lemma_leading_white_space(s, s.len() as int);
        let rest = s.skip(s.len() as int);
        assert(rest.len() == 0);
        assert(trimmed(s) =~= s.subrange(a, b));
    }
}

/// Trimming a text twice gives what trimming it once gives.
pub proof fn lemma_trimmed_idempotent(s: Seq<char>)
    ensures
        is_trimmed(trimmed(s)),
        trimmed(trimmed(s)) == trimmed(s),
{
    lemma_leading_bounds(s);
    let a = leading_white_space(s) as int;
    let rest = s.skip(a);
    lemma_trailing_bounds(rest);
    let t = trimmed(s);
    assert(t =~= rest.take(rest.len() - trailing_white_space(rest)));
    if t.len() > 0 {
        assert(rest.len() > 0);
        assert(t[0] == rest[0]);
        assert(rest[0] == s[a]);
        assert(t.last() == rest[rest.len() - trailing_white_space(rest) - 1]);
    }
    lemma_trimmed_of_trimmed(t);
}

/// A text that neither begins nor ends with whitespace is its own trimmed
/// form.
pub proof fn lemma_trimmed_of_trimmed(s: Seq<char>)
    requires
        is_trimmed(s),
    ensures
        trimmed(s) == s,
{
    lemma_trimmed_is_range(s, 0, s.len() as int);
    assert(s.subrange(0, s.len() as int) =~= s);
}

/// Whitespace around a text does not change its trimmed form.
pub proof fn lemma_trimmed_ignores_padding(before: Seq<char>, s: Seq<char>, after: Seq<char>)
    requires
        all_white_space(before),
        all_white_space(after),
    ensures
        trimmed(before + s + after) == trimmed(s),
{
    let whole = before + s + after;
    lemma_leading_bounds(s);
    let a = leading_white_space(s) as int;
    let rest = s.skip(a);
    lemma_trailing_bounds(rest);
    let b = s.len() - trailing_white_space(rest);
    assert(trimmed(s) =~= s.subrange(a, b));
    let n = before.len() as int;
    assert forall|i: int| 0 <= i < n + a implies white_space(#[trigger] whole[i]) by {
        if i < n {
            assert(whole[i] == before[i]);
        } else {
            assert(whole[i] == s[i - n]);
        }
    }
    assert forall|i: int| n + b <= i < whole.len() implies white_space(#[trigger] whole[i]) by {
        if i < n + s.len() {
            assert(whole[i] == s[i - n]);
            assert(s[i - n] == rest[i - n - a]);
        } else {
            assert(whole[i] == after[i - n - s.len()]);
        }
    }
    if a < b {
        assert(whole[n + a] == s[a]);
        assert(whole[n + b - 1] == s[b - 1]);
        assert(s[b - 1] == rest[b - 1 - a]);
    }
    lemma_trimmed_is_range(whole, n + a, n + b);
    assert(whole.subrange(n + a, n + b) =~= s.subrange(a, b));
}

/// Whether `c` is whitespace.
pub fn is_white_space(c: char) -> (r: bool)
    ensures
        r == white_space(c),
{
    ('\u{0009}' <= c && c <= '\u{000D}') || c == '\u{0020}' || c == '\u{0085}' || c == '\u{00A0}'
        || c == '\u{1680}' || ('\u{2000}' <= c && c <= '\u{200A}') || c == '\u{2028}' || c
        == '\u{2029}' || c == '\u{202F}' || c == '\u{205F}' || c == '\u{3000}'
}

/// The characters of `s`, in order.
pub fn chars_of(s: &str) -> (chars: Vec<char>)
    ensures
        chars@ == s@,
{
    let mut chars: Vec<char> = Vec::new();
    for c in it: s.chars()
        invariant
            chars@ == it.seq().take(it.index() as int),
    {
        chars.push(c);
    }
    chars
}

/// Whether two texts hold the same characters.
pub fn same_text(a: &str, b: &str) -> (r: bool)
    ensures
        r == (a@ == b@),
{
    a.to_owned() == b.to_owned()
}

/// Whether `s` holds the character `c`.
pub fn holds_char(s: &str, c: char) -> (r: bool)
    ensures
        r == s@.contains(c),
{
    let chars = chars_of(s);
    let len = chars.len();
    let mut i: usize = 0;
    while i < len
        invariant
            i <= len,
            len == chars.len(),
            chars@ == s@,
            forall|j: int| 0 <= j < i ==> s@[j] != c,
        decreases len - i,
    {
        if chars[i] == c {
            assert(s@[i as int] == c);
            return true;
        }
        i += 1;
    }
    false
}

/// Whether `s` neither begins nor ends with whitespace.
pub fn begins_and_ends_trimmed(s: &str) -> (r: bool)
    ensures
        r == is_trimmed(s@),
{
    let chars = chars_of(s);
    let len = chars.len();
    len == 0 || (!is_white_space(chars[0]) && !is_white_space(chars[len - 1]))
}

/// The bounds `(a, b)` of what is left of `chars[from..]` once whitespace is
/// taken from both of its ends.
pub fn trim_bounds(chars: &Vec<char>, from: usize) -> (bounds: (usize, usize))
    requires
        from <= chars.len(),
    ensures
        from <= bounds.0 <= bounds.1 <= chars.len(),
        chars@.subrange(bounds.0 as int, bounds.1 as int) == trimmed(chars@.skip(from as int)),
{
    let len = chars.len();
    let mut a = from;
    while a < len && is_white_space(chars[a])
        invariant
            from <= a <= len,
            len == chars.len(),
            forall|i: int| from <= i < a ==> white_space(#[trigger] chars@[i]),
        decreases len - a,
    {
        a += 1;
    }
    let mut b = len;
    while b > a && is_white_space(chars[b - 1])
        invariant
            a <= b <= len,
            len == chars.len(),
            forall|i: int| b <= i < len ==> white_space(#[trigger] chars@[i]),
        decreases b,
    {
        b -= 1;
    }
    proof {
        let tail = chars@.skip(from as int);
        assert forall|i: int| 0 <= i < a - from implies white_space(#[trigger] tail[i]) by {
            assert(tail[i] == chars@[i + from]);
        }
        assert forall|i: int| b - from <= i < tail.len() implies white_space(#[trigger] tail[i]) by {
            assert(tail[i] == chars@[i + from]);
        }
        if a < b {
            assert(tail[a - from] == chars@[a as int]);
            assert(tail[b - from - 1] == chars@[b - 1]);
        }
        lemma_trimmed_is_range(tail, a - from, b - from);
        assert(tail.subrange(a - from, b - from) =~= chars@.subrange(a as int, b as int));
    }
    (a, b)
}

/// `s` without its leading and trailing whitespace.
pub fn trim(s: &str) -> (r: String)
    ensures
        r@ == trimmed(s@),
{
    let chars = chars_of(s);
    let (a, b) = trim_bounds(&chars, 0);
    proof {
        assert(chars@.skip(0) =~= s@);
    }
    s.substring_char(a, b).to_owned()
}

} // verus!

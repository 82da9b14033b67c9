//! The way back from tokens to text: the tokens are joined, the visible code
//! points are turned into bytes again, and the bytes are read as UTF-8.

use vstd::prelude::*;
use vstd::utf8::{decode_utf8, valid_utf8};
use itertools::Itertools;
use crate::alphabet::{char_to_byte, char_to_byte_spec, in_alphabet};
use crate::text::{texts, trimmed};

verus! {

/// Why tokens could not be turned into a text.
#[derive(Debug, Clone, Copy, PartialEq, Eq, Structural)]
pub enum DetokenizationError {
    /// A token holds a code point that stands for no byte.
    UnknownCodePoint,
    /// The bytes of the tokens are no valid UTF-8.
    InvalidUtf8,
}

/// The parts put together with `sep` between each two of them.
pub open spec fn joined(parts: Seq<Seq<char>>, sep: Seq<char>) -> Seq<char>
    decreases parts.len(),
{
    if parts.len() == 0 {
        Seq::empty()
    } else if parts.len() == 1 {
        parts[0]
    } else {
        parts[0] + sep + joined(parts.drop_first(), sep)
    }
}

/// `itertools::Itertools::join` on the strings of a list: the strings in
/// order, with `sep` between each two of them.
#[verifier::external_body]
fn join(parts: &Vec<String>, sep: &str) -> (r: String)
    ensures
        r@ == joined(texts(parts@), sep@),
{
    parts.iter().join(sep)
}

/// The mark that other families of tokenizers put before the continuation of
/// a word: a space and two number signs.
pub open spec fn marker() -> Seq<char> {
    seq![' ', '#', '#']
}

/// The text without the occurrences of the mark, which are found from left to
/// right and do not overlap.
pub open spec fn without_marker(s: Seq<char>) -> Seq<char>
    decreases s.len(),
{
    if s.len() == 0 {
        s
    } else if marker().is_prefix_of(s) {
        without_marker(s.skip(3))
    } else {
        seq![s[0]] + without_marker(s.drop_first())
    }
}

/// True when every code point of the text stands for a byte.
pub open spec fn all_in_alphabet(s: Seq<char>) -> bool {
    forall|i: int| 0 <= i < s.len() ==> in_alphabet(#[trigger] s[i])
}

/// The bytes that the code points of a text of the visible alphabet stand for.
pub open spec fn bytes_of_visible(s: Seq<char>) -> Seq<u8> {
    Seq::new(s.len(), |i: int| char_to_byte_spec(s[i])->0)
}

/// The text that the tokens stand for: they are joined, marks of continuation
/// are removed, white space at both ends is removed where that is asked for,
/// and what is left is read, code point for byte, as UTF-8.
pub open spec fn detokenized(tokens: Seq<Seq<char>>, clean_up: bool) -> Result<
    Seq<char>,
    DetokenizationError,
> {
    let plain = without_marker(tokens.flatten());
    let kept = if clean_up {
        trimmed(plain)
    } else {
        plain
    };
    if !all_in_alphabet(kept) {
        Err(DetokenizationError::UnknownCodePoint)
    } else if !valid_utf8(bytes_of_visible(kept)) {
        Err(DetokenizationError::InvalidUtf8)
    } else {
        Ok(decode_utf8(bytes_of_visible(kept)))
    }
}

/// Parts joined with nothing between them are the parts one after the other.
pub proof fn lemma_joined_without_separator(parts: Seq<Seq<char>>)
    ensures
        joined(parts, Seq::empty()) == parts.flatten(),
    decreases parts.len(),
{
    if parts.len() == 0 {
    } else if parts.len() == 1 {
        parts.lemma_flatten_one_element();
    } else {
        lemma_joined_without_separator(parts.drop_first());
        assert(parts[0] + Seq::<char>::empty() + parts.drop_first().flatten()
            =~= parts.flatten());
    }
}

/// The tokens joined into one list of code points.
pub(crate) fn join_tokens(tokens: &Vec<String>) -> (chars: Vec<char>)
    ensures
        chars@ == texts(tokens@).flatten(),
{
    let empty = String::new();
    let all = join(tokens, empty.as_str());
    proof {
        lemma_joined_without_separator(texts(tokens@));
    }
    crate::text::chars_of(all.as_str())
}

/// The code points without the occurrences of the mark of continuation.
pub(crate) fn remove_marker(chars: &Vec<char>) -> (r: Vec<char>)
    ensures
        r@ == without_marker(chars@),
{
    let n = chars.len();
    let mut out: Vec<char> = Vec::new();
    let mut i: usize = 0;
    assert(chars@.skip(0) =~= chars@);
    assert(out@ + without_marker(chars@) =~= without_marker(chars@));
    while i < n
        invariant
            i <= n == chars@.len(),
            without_marker(chars@) == out@ + without_marker(chars@.skip(i as int)),
        decreases n - i,
    {
        let ghost tail = chars@.skip(i as int);
        let ghost before = out@;
        if n - i >= 3 && chars[i] == ' ' && chars[i + 1] == '#' && chars[i + 2] == '#' {
            assert(tail.subrange(0, 3) =~= marker());
            assert(tail.skip(3) =~= chars@.skip(i + 3));
            i += 3;
        } else {
            assert(!marker().is_prefix_of(tail)) by {
                if marker().len() <= tail.len() {
                    let head = tail.subrange(0, 3);
                    assert(head[0] == chars@[i as int]);
                    assert(head[1] == chars@[i + 1]);
                    assert(head[2] == chars@[i + 2]);
                    assert(marker()[0] == ' ' && marker()[1] == '#' && marker()[2] == '#');
                }
            }
            out.push(chars[i]);
            assert(tail.drop_first() =~= chars@.skip(i + 1));
            assert(before + (seq![tail[0]] + without_marker(tail.drop_first())) =~= before.push(
                tail[0],
            ) + without_marker(tail.drop_first()));
            i += 1;
        }
    }
    assert(out@ + without_marker(chars@.skip(i as int)) =~= out@);
    out
}

/// The bytes that the code points stand for; `None` when one of them stands
/// for no byte.
pub(crate) fn to_bytes(chars: &Vec<char>) -> (r: Option<Vec<u8>>)
    ensures
        r is Some <==> all_in_alphabet(chars@),
        r matches Some(bytes) ==> bytes@ == bytes_of_visible(chars@),
{
    let mut out: Vec<u8> = Vec::new();
    let mut i: usize = 0;
    while i < chars.len()
        invariant
            i <= chars@.len(),
            out@.len() == i,
            forall|k: int| 0 <= k < i ==> in_alphabet(#[trigger] chars@[k]),
            forall|k: int| 0 <= k < i ==> (#[trigger] out@[k]) == char_to_byte_spec(chars@[k])->0,
        decreases chars@.len() - i,
    {
        match char_to_byte(chars[i]) {
            Some(b) => {
                out.push(b);
            },
            None => {
                assert(!in_alphabet(chars@[i as int]));
                return None;
            },
        }
        i += 1;
    }
    assert(out@ =~= bytes_of_visible(chars@));
    Some(out)
}

} // verus!

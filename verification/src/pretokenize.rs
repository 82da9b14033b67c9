//! Pre-tokenization: a text without special symbols is cut into word-like
//! chunks by two regular expressions, and each chunk is written in the
//! visible alphabet.

use vstd::prelude::*;
use vstd::seq_lib::lemma_flatten_concat;
use vstd::string::StringSliceAdditionalSpecFns;
use vstd::utf8::{
    decode_utf8, encode_utf8, encode_utf8_decode_utf8, encode_utf8_valid_utf8, is_char_boundary,
    is_char_boundary_iff_not_is_continuation_byte, is_char_boundary_start_end_of_seq,
    is_continuation_byte, valid_utf8, valid_utf8_split,
};
use regex::Regex;
use crate::alphabet::{byte_to_char, byte_to_char_spec};
use crate::text::{append_all, push_char, texts};

verus! {

/// Matches a run of white space together with the code point that follows it.
pub const LOOKAHEAD_PATTERN: &'static str = r"\s+\S";

/// Matches one chunk: a contraction, a run of letters, of digits or of other
/// code points with at most one space before it, or a run of white space.
pub const TOKENIZATION_PATTERN: &'static str =
    r"'s|'t|'re|'ve|'m|'ll|'d| ?\p{L}+| ?\p{N}+| ?[^\s\p{L}\p{N}]+|\s+";

/// `regex::Regex`, a compiled regular expression; nothing inside it is read.
#[verifier::external_type_specification]
#[verifier::external_body]
pub struct ExRegex(Regex);

/// `regex::Error`, why a pattern was not compiled; nothing inside it is read.
#[verifier::external_type_specification]
#[verifier::external_body]
pub struct ExRegexError(regex::Error);

/// The regular expression that `regex::Regex::new` makes of a pattern; `None`
/// for a pattern that it refuses.
pub uninterp spec fn compiled(pattern: Seq<char>) -> Option<Regex>;

/// The byte ranges, start and end, of the successive matches that
/// `regex::Regex::find_iter` finds in a text, in the order in which it yields
/// them.
pub uninterp spec fn regex_matches(re: Regex, text: Seq<char>) -> Seq<(usize, usize)>;

/// `regex::Regex::new`: compiles the pattern, or reports why it cannot.
#[verifier::external_body]
pub(crate) fn compile(pattern: &str) -> (r: Result<Regex, regex::Error>)
    ensures
        match r {
            Ok(re) => compiled(pattern@) == Some(re),
            Err(_) => compiled(pattern@) is None,
        },
{
    Regex::new(pattern)
}

/// `regex::Regex::find_iter`: the byte range of every match in the text, in
/// the order in which the iterator yields them.
#[verifier::external_body]
pub(crate) fn find_ranges(re: &Regex, text: &str) -> (r: Vec<(usize, usize)>)
    ensures
        r@ == regex_matches(*re, text@),
{
    re.find_iter(text).map(|m| (m.start(), m.end())).collect()
}

/// The regular expression that finds where a text is cut into parts.
pub open spec fn lookahead() -> Regex {
    compiled(LOOKAHEAD_PATTERN@)->0
}

/// The regular expression that finds the chunks of a part.
pub open spec fn tokenization() -> Regex {
    compiled(TOKENIZATION_PATTERN@)->0
}

/// A text of the visible alphabet: each byte replaced by its code point.
pub open spec fn visible(bytes: Seq<u8>) -> Seq<char> {
    Seq::new(bytes.len(), |i: int| byte_to_char_spec(bytes[i]))
}

/// `x`, moved into the range from `lo` to `hi`.
pub open spec fn clamp(x: int, lo: int, hi: int) -> int {
    if x < lo {
        lo
    } else if x > hi {
        hi
    } else {
        x
    }
}

/// The bytes from `from` up to `to` as one chunk; nothing when there are none.
pub open spec fn chunk(b: Seq<u8>, from: int, to: int) -> Seq<Seq<u8>> {
    if from < to {
        seq![b.subrange(from, to)]
    } else {
        Seq::empty()
    }
}

/// Where the code point that ends before index `p` begins: the last index
/// below `p` that is 0 or holds no continuation byte.
pub open spec fn code_point_start(b: Seq<u8>, p: int) -> int
    decreases p,
{
    if p <= 1 {
        0
    } else if !is_continuation_byte(b[p - 1]) {
        p - 1
    } else {
        code_point_start(b, p - 1)
    }
}

/// Where a text is cut for a match that ends at `end`: one code point before
/// the last code point of the match.
pub open spec fn cut_for(b: Seq<u8>, end: int) -> int {
    code_point_start(b, code_point_start(b, clamp(end, 0, b.len() as int)))
}

/// The parts into which the bytes from `from` on are cut for the matches from
/// the `k`-th on. A cut never lies before an earlier one.
pub open spec fn cut_before_trailing(
    b: Seq<u8>,
    hits: Seq<(usize, usize)>,
    k: int,
    from: int,
) -> Seq<Seq<u8>>
    decreases hits.len() - k,
{
    if k < 0 || k >= hits.len() {
        chunk(b, from, b.len() as int)
    } else {
        let cut = clamp(cut_for(b, hits[k].1 as int), from, b.len() as int);
        chunk(b, from, cut) + cut_before_trailing(b, hits, k + 1, cut)
    }
}

/// The chunks into which the bytes from `from` on are cut at the start and the
/// end of every match from the `k`-th on. The ranges are moved into order and
/// into the text, so that the chunks cover the text whatever the ranges are;
/// ranges in order, as a matcher yields them, are not changed by that.
pub open spec fn cut_at_matches(
    b: Seq<u8>,
    matches: Seq<(usize, usize)>,
    k: int,
    from: int,
) -> Seq<Seq<u8>>
    decreases matches.len() - k,
{
    if k < 0 || k >= matches.len() {
        chunk(b, from, b.len() as int)
    } else {
        let start = clamp(matches[k].0 as int, from, b.len() as int);
        let end = clamp(matches[k].1 as int, start, b.len() as int);
        chunk(b, from, start) + chunk(b, start, end) + cut_at_matches(b, matches, k + 1, end)
    }
}

/// The chunks of one part of a text.
pub open spec fn chunks_of_part(part: Seq<u8>) -> Seq<Seq<u8>> {
    cut_at_matches(part, regex_matches(tokenization(), decode_utf8(part)), 0, 0)
}

/// The parts of a text: it is cut before the last white space of every run of
/// white space that a code point follows.
pub open spec fn parts_of(text: Seq<char>) -> Seq<Seq<u8>> {
    cut_before_trailing(encode_utf8(text), regex_matches(lookahead(), text), 0, 0)
}

/// The chunks of the given parts, in order.
pub open spec fn pre_tokens_of_parts(parts: Seq<Seq<u8>>) -> Seq<Seq<u8>> {
    parts.map_values(|part: Seq<u8>| chunks_of_part(part)).flatten()
}

/// The chunks of a text, as bytes and in order.
pub open spec fn pre_tokens(text: Seq<char>) -> Seq<Seq<u8>> {
    pre_tokens_of_parts(parts_of(text))
}

/// The given chunks in the visible alphabet.
pub open spec fn visible_all(chunks: Seq<Seq<u8>>) -> Seq<Seq<char>> {
    chunks.map_values(|chunk: Seq<u8>| visible(chunk))
}

/// The chunks of a text in the visible alphabet.
pub open spec fn words_of(text: Seq<char>) -> Seq<Seq<char>> {
    visible_all(pre_tokens(text))
}

/// The chunks of a list of parts are those of its beginning, then those of
/// the rest.
pub proof fn lemma_pre_tokens_of_parts_concat(x: Seq<Seq<u8>>, y: Seq<Seq<u8>>)
    ensures
        pre_tokens_of_parts(x + y) == pre_tokens_of_parts(x) + pre_tokens_of_parts(y),
{
    let f = |part: Seq<u8>| chunks_of_part(part);
    assert((x + y).map_values(f) =~= x.map_values(f) + y.map_values(f));
    lemma_flatten_concat(x.map_values(f), y.map_values(f));
}

/// The chunks of a list of at most one part.
pub proof fn lemma_pre_tokens_of_chunk(b: Seq<u8>, from: int, to: int)
    ensures
        pre_tokens_of_parts(chunk(b, from, to)) == if from < to {
            chunks_of_part(b.subrange(from, to))
        } else {
            Seq::<Seq<u8>>::empty()
        },
{
    let f = |part: Seq<u8>| chunks_of_part(part);
    let parts = chunk(b, from, to);
    if from < to {
        assert(parts.map_values(f) =~= seq![chunks_of_part(b.subrange(from, to))]);
        parts.map_values(f).lemma_flatten_one_element();
    } else {
        assert(parts.map_values(f) =~= Seq::<Seq<Seq<u8>>>::empty());
    }
}

/// The start of a code point of valid UTF-8 is a place at which the text can
/// be cut.
pub proof fn lemma_code_point_start(b: Seq<u8>, p: int)
    requires
        valid_utf8(b),
        0 <= p <= b.len(),
    ensures
        0 <= code_point_start(b, p) <= p,
        p > 0 ==> code_point_start(b, p) < p,
        is_char_boundary(b, code_point_start(b, p)),
    decreases p,
{
    if p <= 1 {
    } else if !is_continuation_byte(b[p - 1]) {
        is_char_boundary_iff_not_is_continuation_byte(b, p - 1);
    } else {
        lemma_code_point_start(b, p - 1);
    }
}

/// A place at which valid UTF-8 can be cut is such a place in each beginning
/// of the text that ends at such a place.
proof fn lemma_boundary_in_prefix(b: Seq<u8>, from: int, to: int)
    requires
        valid_utf8(b),
        0 <= from <= to <= b.len(),
        is_char_boundary(b, from),
        is_char_boundary(b, to),
    ensures
        valid_utf8(b.subrange(0, to)),
        is_char_boundary(b.subrange(0, to), from),
{
    valid_utf8_split(b, to);
    let head = b.subrange(0, to);
    if from == 0 {
    } else if from == to {
        is_char_boundary_start_end_of_seq(head);
    } else {
        is_char_boundary_iff_not_is_continuation_byte(b, from);
        is_char_boundary_iff_not_is_continuation_byte(head, from);
    }
}

/// The part of `text` from byte `from` up to byte `to`.
fn slice<'a>(text: &'a str, from: usize, to: usize) -> (part: &'a str)
    requires
        from <= to <= text.spec_bytes().len(),
        is_char_boundary(text.spec_bytes(), from as int),
        is_char_boundary(text.spec_bytes(), to as int),
    ensures
        part.spec_bytes() == text.spec_bytes().subrange(from as int, to as int),
{
    proof {
        encode_utf8_valid_utf8(text@);
        lemma_boundary_in_prefix(text.spec_bytes(), from as int, to as int);
    }
    let (head, _) = text.split_at(to);
    let (_, part) = head.split_at(from);
    assert(part.spec_bytes() =~= text.spec_bytes().subrange(from as int, to as int));
    part
}

/// Where the code point that ends before index `p` begins.
fn start_of_code_point(bytes: &[u8], p: usize) -> (q: usize)
    requires
        p <= bytes@.len(),
    ensures
        q == code_point_start(bytes@, p as int),
{
    let mut cur: usize = p;
    loop
        invariant
            cur <= p <= bytes@.len(),
            code_point_start(bytes@, p as int) == code_point_start(bytes@, cur as int),
        decreases cur,
    {
        if cur <= 1 {
            return 0;
        }
        let byte = bytes[cur - 1];
        if !(0x80 <= byte && byte <= 0xbf) {
            return cur - 1;
        }
        cur -= 1;
    }
}

/// The bytes from `from` up to `to` in the visible alphabet.
fn visible_word(bytes: &[u8], from: usize, to: usize) -> (word: String)
    requires
        from <= to <= bytes@.len(),
    ensures
        word@ == visible(bytes@.subrange(from as int, to as int)),
{
    let mut word = String::new();
    let mut i: usize = from;
    while i < to
        invariant
            from <= i <= to <= bytes@.len(),
            word@ == visible(bytes@.subrange(from as int, i as int)),
        decreases to - i,
    {
        push_char(&mut word, byte_to_char(bytes[i]));
        i += 1;
        assert(word@ =~= visible(bytes@.subrange(from as int, i as int)));
    }
    word
}

/// `x`, moved into the range from `lo` to `hi`.
fn clamp_to(x: usize, lo: usize, hi: usize) -> (r: usize)
    ensures
        r == clamp(x as int, lo as int, hi as int),
{
    if x < lo {
        lo
    } else if x > hi {
        hi
    } else {
        x
    }
}

/// The bytes held by a list of string slices.
pub open spec fn part_bytes(parts: Seq<&str>) -> Seq<Seq<u8>> {
    Seq::new(parts.len(), |i: int| parts[i].spec_bytes())
}

/// Cuts one part of a text at the start and the end of every given match and
/// writes each chunk in the visible alphabet.
pub fn split_at_matches(part: &str, matches: &Vec<(usize, usize)>) -> (words: Vec<String>)
    ensures
        texts(words@) == visible_all(cut_at_matches(part.spec_bytes(), matches@, 0, 0)),
{
    let bytes = part.as_bytes();
    let len = bytes.len();
    let ghost b = part.spec_bytes();
    let ghost target = visible_all(cut_at_matches(b, matches@, 0, 0));
    let mut words: Vec<String> = Vec::new();
    let mut from: usize = 0;
    let mut k: usize = 0;
    assert(texts(words@) + target =~= target);
    while k < matches.len()
        invariant
            k <= matches@.len(),
            from <= len == b.len(),
            bytes@ == b,
            target == texts(words@) + visible_all(cut_at_matches(b, matches@, k as int, from as int)),
        decreases matches@.len() - k,
    {
        let ghost rest = cut_at_matches(b, matches@, k + 1, clamp(
            matches@[k as int].1 as int,
            clamp(matches@[k as int].0 as int, from as int, len as int),
            len as int,
        ));
        let start = clamp_to(matches[k].0, from, len);
        let end = clamp_to(matches[k].1, start, len);
        let ghost before = texts(words@);
        if from < start {
            let word = visible_word(bytes, from, start);
            words.push(word);
        }
        let ghost middle = texts(words@);
        assert(middle =~= before + visible_all(chunk(b, from as int, start as int)));
        if start < end {
            let word = visible_word(bytes, start, end);
            words.push(word);
        }
        assert(texts(words@) =~= middle + visible_all(chunk(b, start as int, end as int)));
        assert(visible_all(cut_at_matches(b, matches@, k as int, from as int)) =~= visible_all(
            chunk(b, from as int, start as int),
        ) + visible_all(chunk(b, start as int, end as int)) + visible_all(rest));
        from = end;
        k += 1;
    }
    let ghost before = texts(words@);
    if from < len {
        let word = visible_word(bytes, from, len);
        words.push(word);
    }
    assert(texts(words@) =~= before + visible_all(chunk(b, from as int, len as int)));
    words
}

/// Cuts a text into parts: for every given match, one code point before the
/// last code point of the match.
pub fn split_before_trailing<'a>(text: &'a str, hits: &Vec<(usize, usize)>) -> (parts: Vec<
    &'a str,
>)
    ensures
        part_bytes(parts@) == cut_before_trailing(text.spec_bytes(), hits@, 0, 0),
{
    let bytes = text.as_bytes();
    let len = bytes.len();
    let ghost b = text.spec_bytes();
    let ghost target = cut_before_trailing(b, hits@, 0, 0);
    proof {
        encode_utf8_valid_utf8(text@);
        is_char_boundary_start_end_of_seq(b);
    }
    let mut parts: Vec<&'a str> = Vec::new();
    let mut from: usize = 0;
    let mut k: usize = 0;
    assert(part_bytes(parts@) + target =~= target);
    while k < hits.len()
        invariant
            k <= hits@.len(),
            from <= len == b.len(),
            bytes@ == b,
            b == text.spec_bytes(),
            valid_utf8(b),
            is_char_boundary(b, from as int),
            is_char_boundary(b, len as int),
            target == part_bytes(parts@) + cut_before_trailing(b, hits@, k as int, from as int),
        decreases hits@.len() - k,
    {
        let end = clamp_to(hits[k].1, 0, len);
        let last = start_of_code_point(bytes, end);
        proof {
            lemma_code_point_start(b, end as int);
            lemma_code_point_start(b, code_point_start(b, end as int));
        }
        let before_last = start_of_code_point(bytes, last);
        let cut = clamp_to(before_last, from, len);
        let ghost before = part_bytes(parts@);
        let ghost rest = cut_before_trailing(b, hits@, k + 1, cut as int);
        if from < cut {
            let part = slice(text, from, cut);
            parts.push(part);
        }
        assert(part_bytes(parts@) =~= before + chunk(b, from as int, cut as int));
        assert(before + (chunk(b, from as int, cut as int) + rest) =~= before + chunk(
            b,
            from as int,
            cut as int,
        ) + rest);
        from = cut;
        k += 1;
    }
    let ghost before = part_bytes(parts@);
    if from < len {
        let part = slice(text, from, len);
        parts.push(part);
    }
    assert(part_bytes(parts@) =~= before + chunk(b, from as int, len as int));
    parts
}

/// Cuts a text without special symbols into its chunks and writes each in the
/// visible alphabet.
pub(crate) fn pre_tokenize(
    text: &str,
    pattern_lookahead: &Regex,
    pattern_tokenization: &Regex,
) -> (words: Vec<String>)
    requires
        *pattern_lookahead == lookahead(),
        *pattern_tokenization == tokenization(),
    ensures
        texts(words@) == words_of(text@),
{
    let hits = find_ranges(pattern_lookahead, text);
    let parts = split_before_trailing(text, &hits);
    let ghost all = part_bytes(parts@);
    let mut words: Vec<String> = Vec::new();
    let mut i: usize = 0;
    proof {
        assert(all.take(0) =~= Seq::<Seq<u8>>::empty());
        lemma_pre_tokens_of_chunk(Seq::empty(), 0, 0);
        assert(texts(words@) =~= visible_all(pre_tokens_of_parts(all.take(0))));
    }
    while i < parts.len()
        invariant
            i <= parts@.len(),
            all == part_bytes(parts@),
            *pattern_tokenization == tokenization(),
            texts(words@) == visible_all(pre_tokens_of_parts(all.take(i as int))),
        decreases parts@.len() - i,
    {
        let part = parts[i];
        let matches = find_ranges(pattern_tokenization, part);
        let chunks = split_at_matches(part, &matches);
        proof {
            encode_utf8_decode_utf8(part@);
            let p = all[i as int];
            assert(p == part.spec_bytes());
            let one = seq![p];
            assert(all.take(i + 1) =~= all.take(i as int) + one);
            lemma_pre_tokens_of_parts_concat(all.take(i as int), one);
            assert(one.map_values(|part: Seq<u8>| chunks_of_part(part)) =~= seq![
                chunks_of_part(p),
            ]);
            one.map_values(|part: Seq<u8>| chunks_of_part(part)).lemma_flatten_one_element();
            assert(visible_all(pre_tokens_of_parts(all.take(i as int)) + chunks_of_part(p))
                =~= visible_all(pre_tokens_of_parts(all.take(i as int))) + visible_all(
                chunks_of_part(p),
            ));
        }
        append_all(&mut words, chunks);
        i += 1;
    }
    assert(all.take(i as int) =~= all);
    words
}

} // verus!

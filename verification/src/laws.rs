//! What holds of the tokenizer as a whole: tokens keep the order and the
//! content of the text, and the way back restores it.

use vstd::prelude::*;
use vstd::seq_lib::lemma_flatten_concat;
use vstd::utf8::{decode_utf8, encode_utf8, encode_utf8_decode_utf8, encode_utf8_valid_utf8};
use crate::alphabet::{lemma_alphabet_is_visible, lemma_char_to_byte_inverts};
use crate::bpe::{bpe_spec, lemma_bpe_concatenates_to_word};
use crate::detokenize::{all_in_alphabet, bytes_of_visible, detokenized, marker, without_marker};
use crate::merges::MergeRules;
use crate::pretokenize::{
    chunk, chunks_of_part, cut_at_matches, cut_before_trailing, parts_of, pre_tokens, visible,
    visible_all, words_of,
};
use crate::special::{
    holds_special, lemma_split_around_special, lemma_split_concatenates_to_text,
    lemma_split_of_special, lemma_split_without_special, longest_special, none_reaches_beyond,
    piece_texts, split_spec, Piece,
};
use crate::text::{
    all_white_space, is_white_space, leading_white_space, lowercase_of, trailing_white_space,
    trimmed,
};
use crate::tokenizer::{is_blank, literal_tokens, piece_tokens, tokens_of};

verus! {

/// Lists that are flattened one by one and then together give what the lists
/// give when each of them is replaced by what it flattens to.
pub proof fn lemma_flatten_twice<A, B>(
    xs: Seq<A>,
    f: spec_fn(A) -> Seq<Seq<B>>,
    g: spec_fn(A) -> Seq<B>,
)
    requires
        forall|i: int| 0 <= i < xs.len() ==> f(#[trigger] xs[i]).flatten() == g(xs[i]),
    ensures
        xs.map_values(f).flatten().flatten() == xs.map_values(g).flatten(),
    decreases xs.len(),
{
    if xs.len() == 0 {
        assert(xs.map_values(f).flatten() =~= Seq::<Seq<B>>::empty());
        assert(xs.map_values(f).flatten().flatten() =~= xs.map_values(g).flatten());
    } else {
        let rest = xs.drop_first();
        assert forall|i: int| 0 <= i < rest.len() implies f(#[trigger] rest[i]).flatten() == g(
            rest[i],
        ) by {
            assert(rest[i] == xs[i + 1]);
        }
        lemma_flatten_twice(rest, f, g);
        assert(xs.map_values(f).drop_first() =~= rest.map_values(f));
        assert(xs.map_values(g).drop_first() =~= rest.map_values(g));
        lemma_flatten_concat(f(xs[0]), rest.map_values(f).flatten());
        assert(xs.map_values(f).flatten() =~= f(xs[0]) + rest.map_values(f).flatten());
        assert(xs.map_values(g).flatten() =~= g(xs[0]) + rest.map_values(g).flatten());
    }
}

/// The chunks cut at matches, put together, are the bytes that were cut.
pub proof fn lemma_cut_at_matches_covers(
    b: Seq<u8>,
    matches: Seq<(usize, usize)>,
    k: int,
    from: int,
)
    requires
        0 <= from <= b.len(),
    ensures
        cut_at_matches(b, matches, k, from).flatten() == b.subrange(from, b.len() as int),
    decreases matches.len() - k,
{
    let len = b.len() as int;
    if k < 0 || k >= matches.len() {
        lemma_chunk_flatten(b, from, len);
    } else {
        let start = crate::pretokenize::clamp(matches[k].0 as int, from, len);
        let end = crate::pretokenize::clamp(matches[k].1 as int, start, len);
        let rest = cut_at_matches(b, matches, k + 1, end);
        lemma_cut_at_matches_covers(b, matches, k + 1, end);
        lemma_chunk_flatten(b, from, start);
        lemma_chunk_flatten(b, start, end);
        lemma_flatten_concat(chunk(b, from, start), chunk(b, start, end));
        lemma_flatten_concat(chunk(b, from, start) + chunk(b, start, end), rest);
        assert(b.subrange(from, start) + b.subrange(start, end) + b.subrange(end, len)
            =~= b.subrange(from, len));
    }
}

/// One chunk, flattened, is its bytes.
proof fn lemma_chunk_flatten(b: Seq<u8>, from: int, to: int)
    requires
        0 <= from <= to <= b.len(),
    ensures
        chunk(b, from, to).flatten() == b.subrange(from, to),
{
    if from < to {
        chunk(b, from, to).lemma_flatten_one_element();
    } else {
        assert(chunk(b, from, to).flatten() =~= b.subrange(from, to));
    }
}

/// The parts of a text, put together, are the bytes that were cut.
pub proof fn lemma_cut_before_trailing_covers(
    b: Seq<u8>,
    hits: Seq<(usize, usize)>,
    k: int,
    from: int,
)
    requires
        0 <= from <= b.len(),
    ensures
        cut_before_trailing(b, hits, k, from).flatten() == b.subrange(from, b.len() as int),
    decreases hits.len() - k,
{
    let len = b.len() as int;
    if k < 0 || k >= hits.len() {
        lemma_chunk_flatten(b, from, len);
    } else {
        let cut = crate::pretokenize::clamp(
            crate::pretokenize::cut_for(b, hits[k].1 as int),
            from,
            len,
        );
        let rest = cut_before_trailing(b, hits, k + 1, cut);
        lemma_cut_before_trailing_covers(b, hits, k + 1, cut);
        lemma_chunk_flatten(b, from, cut);
        lemma_flatten_concat(chunk(b, from, cut), rest);
        assert(b.subrange(from, cut) + b.subrange(cut, len) =~= b.subrange(from, len));
    }
}

/// The chunks of a text, put together in order, are the bytes of the text.
pub proof fn lemma_pre_tokens_cover_text(text: Seq<char>)
    ensures
        pre_tokens(text).flatten() == encode_utf8(text),
{
    let b = encode_utf8(text);
    let parts = parts_of(text);
    let f = |part: Seq<u8>| chunks_of_part(part);
    let g = |part: Seq<u8>| part;
    assert forall|i: int| 0 <= i < parts.len() implies f(#[trigger] parts[i]).flatten() == g(
        parts[i],
    ) by {
        let p = parts[i];
        lemma_cut_at_matches_covers(
            p,
            crate::pretokenize::regex_matches(crate::pretokenize::tokenization(), decode_utf8(p)),
            0,
            0,
        );
        assert(p.subrange(0, p.len() as int) =~= p);
    }
    lemma_flatten_twice(parts, f, g);
    assert(parts.map_values(g) =~= parts);
    lemma_cut_before_trailing_covers(
        b,
        crate::pretokenize::regex_matches(crate::pretokenize::lookahead(), text),
        0,
        0,
    );
    assert(b.subrange(0, b.len() as int) =~= b);
}

/// Chunks written in the visible alphabet and put together are the chunks put
/// together and written in the visible alphabet.
pub proof fn lemma_visible_all_flatten(chunks: Seq<Seq<u8>>)
    ensures
        visible_all(chunks).flatten() == visible(chunks.flatten()),
    decreases chunks.len(),
{
    if chunks.len() == 0 {
        assert(visible_all(chunks).flatten() =~= visible(chunks.flatten()));
    } else {
        lemma_visible_all_flatten(chunks.drop_first());
        assert(visible_all(chunks).drop_first() =~= visible_all(chunks.drop_first()));
        assert(visible_all(chunks).flatten() =~= visible(chunks[0]) + visible(
            chunks.drop_first().flatten(),
        ));
        assert(visible(chunks[0]) + visible(chunks.drop_first().flatten()) =~= visible(
            chunks.flatten(),
        ));
    }
}

/// The tokens of a text without special symbols, put together in order, are
/// the bytes of the text in the visible alphabet.
pub proof fn lemma_literal_tokens_cover_text(rules: MergeRules, text: Seq<char>)
    ensures
        literal_tokens(rules, text).flatten() == visible(encode_utf8(text)),
{
    let words = words_of(text);
    let f = |word: Seq<char>| bpe_spec(rules, word);
    let g = |word: Seq<char>| word;
    assert forall|i: int| 0 <= i < words.len() implies f(#[trigger] words[i]).flatten() == g(
        words[i],
    ) by {
        lemma_bpe_concatenates_to_word(rules, words[i]);
    }
    lemma_flatten_twice(words, f, g);
    assert(words.map_values(g) =~= words);
    lemma_visible_all_flatten(pre_tokens(text));
    lemma_pre_tokens_cover_text(text);
}

/// Bytes written in the visible alphabet hold no white space, and each code
/// point is turned back into its byte.
pub proof fn lemma_visible_is_restored(b: Seq<u8>)
    ensures
        all_in_alphabet(visible(b)),
        bytes_of_visible(visible(b)) == b,
        forall|i: int| 0 <= i < b.len() ==> !is_white_space(#[trigger] visible(b)[i]),
{
    assert forall|i: int| 0 <= i < b.len() implies crate::alphabet::in_alphabet(
        #[trigger] visible(b)[i],
    ) && bytes_of_visible(visible(b))[i] == b[i] && !is_white_space(visible(b)[i]) by {
        lemma_char_to_byte_inverts(b[i]);
        lemma_alphabet_is_visible(b[i]);
    }
    assert(bytes_of_visible(visible(b)) =~= b);
}

/// A text without a space holds no mark of continuation.
pub proof fn lemma_without_marker_keeps(s: Seq<char>)
    requires
        forall|i: int| 0 <= i < s.len() ==> !is_white_space(#[trigger] s[i]),
    ensures
        without_marker(s) == s,
    decreases s.len(),
{
    if s.len() > 0 {
        assert(!marker().is_prefix_of(s)) by {
            if marker().len() <= s.len() {
                assert(s.subrange(0, 3)[0] == s[0]);
                assert(marker()[0] == ' ');
                assert(is_white_space(' '));
            }
        }
        let rest = s.drop_first();
        assert forall|i: int| 0 <= i < rest.len() implies !is_white_space(#[trigger] rest[i]) by {
            assert(rest[i] == s[i + 1]);
        }
        lemma_without_marker_keeps(rest);
        assert(seq![s[0]] + rest =~= s);
    }
}

/// A text without white space is not changed by trimming.
pub proof fn lemma_trimmed_keeps(s: Seq<char>)
    requires
        forall|i: int| 0 <= i < s.len() ==> !is_white_space(#[trigger] s[i]),
    ensures
        trimmed(s) == s,
{
    if s.len() > 0 {
        assert(!is_white_space(s[0]));
        assert(!is_white_space(s[s.len() - 1]));
        assert(leading_white_space(s) == 0);
        assert(trailing_white_space(s) == 0);
        assert(s.subrange(0, s.len() as int) =~= s);
    } else {
        assert(trimmed(s) =~= s);
    }
}

/// Tokens that, put together, are the bytes of a text in the visible alphabet
/// are turned back into that text, with and without trimming.
pub proof fn lemma_detokenized_restores(tokens: Seq<Seq<char>>, text: Seq<char>, clean_up: bool)
    requires
        tokens.flatten() == visible(encode_utf8(text)),
    ensures
        detokenized(tokens, clean_up) == Ok::<Seq<char>, crate::detokenize::DetokenizationError>(
            text,
        ),
{
    let b = encode_utf8(text);
    let v = visible(b);
    lemma_visible_is_restored(b);
    lemma_without_marker_keeps(v);
    lemma_trimmed_keeps(v);
    encode_utf8_valid_utf8(text);
    encode_utf8_decode_utf8(text);
}

/// Round trip: a text that holds no special symbol, and is not made of white
/// space alone, is restored from its tokens when they were made without
/// lower-casing. This holds with and without trimming, as the tokens hold no
/// white space.
pub proof fn lemma_round_trip(
    specials: Seq<Seq<char>>,
    unknown: Seq<char>,
    rules: MergeRules,
    text: Seq<char>,
    clean_up: bool,
)
    requires
        !holds_special(specials, text),
        text.len() == 0 || !all_white_space(text),
    ensures
        detokenized(tokens_of(specials, unknown, rules, false, text), clean_up) == Ok::<
            Seq<char>,
            crate::detokenize::DetokenizationError,
        >(text),
{
    lemma_split_without_special(specials, text);
    lemma_literal_tokens_cover_text(rules, text);
    let pieces = split_spec(specials, text);
    let each = |piece: Piece| piece_tokens(rules, false, piece);
    let tokens = tokens_of(specials, unknown, rules, false, text);
    if text.len() == 0 {
        assert(pieces.map_values(each) =~= Seq::<Seq<Seq<char>>>::empty());
        assert(tokens.flatten() =~= visible(encode_utf8(text)));
    } else {
        assert(pieces.map_values(each) =~= seq![literal_tokens(rules, text)]);
        pieces.map_values(each).lemma_flatten_one_element();
    }
    lemma_detokenized_restores(tokens, text, clean_up);
}

/// The text that a fragment stands for after lower-casing, where that is asked
/// for: special symbols are never changed.
pub open spec fn folded(lower_case: bool, piece: Piece) -> Seq<char> {
    if piece.special || !lower_case {
        piece.text
    } else {
        lowercase_of(piece.text)
    }
}

/// The text that the tokens of one fragment stand for: those of a special
/// symbol stand for themselves, the others are read back through the visible
/// alphabet.
pub open spec fn restored(tokens: Seq<Seq<char>>, special: bool) -> Seq<char> {
    if special {
        tokens.flatten()
    } else {
        decode_utf8(bytes_of_visible(tokens.flatten()))
    }
}

/// Order preservation: the tokens of a text that is not made of white space
/// alone are the tokens of its fragments in order; the tokens of each fragment
/// stand for the fragment, lower-cased where that is asked for, so that what
/// the tokens stand for, put together, is the text with its ordinary
/// fragments lower-cased; and the fragments in order are the text.
pub proof fn lemma_tokens_keep_order(
    specials: Seq<Seq<char>>,
    unknown: Seq<char>,
    rules: MergeRules,
    lower_case: bool,
    text: Seq<char>,
)
    requires
        !is_blank(split_spec(specials, text)),
    ensures
        tokens_of(specials, unknown, rules, lower_case, text) == split_spec(
            specials,
            text,
        ).map_values(|piece: Piece| piece_tokens(rules, lower_case, piece)).flatten(),
        forall|i: int|
            0 <= i < split_spec(specials, text).len() ==> restored(
                piece_tokens(rules, lower_case, #[trigger] split_spec(specials, text)[i]),
                split_spec(specials, text)[i].special,
            ) == folded(lower_case, split_spec(specials, text)[i]),
        split_spec(specials, text).map_values(
            |piece: Piece| restored(piece_tokens(rules, lower_case, piece), piece.special),
        ).flatten() == split_spec(specials, text).map_values(
            |piece: Piece| folded(lower_case, piece),
        ).flatten(),
        split_spec(specials, text).map_values(|piece: Piece| folded(false, piece)).flatten()
            == text,
{
    let pieces = split_spec(specials, text);
    assert forall|i: int| 0 <= i < pieces.len() implies restored(
        piece_tokens(rules, lower_case, #[trigger] pieces[i]),
        pieces[i].special,
    ) == folded(lower_case, pieces[i]) by {
        let piece = pieces[i];
        if piece.special {
            seq![piece.text].lemma_flatten_one_element();
        } else {
            let plain = folded(lower_case, piece);
            lemma_literal_tokens_cover_text(rules, plain);
            lemma_visible_is_restored(encode_utf8(plain));
            encode_utf8_decode_utf8(plain);
        }
    }
    lemma_split_concatenates_to_text(specials, text);
    assert(pieces.map_values(|piece: Piece| folded(false, piece)) =~= piece_texts(pieces));
    assert(pieces.map_values(
        |piece: Piece| restored(piece_tokens(rules, lower_case, piece), piece.special),
    ) =~= pieces.map_values(|piece: Piece| folded(lower_case, piece)));
}

/// A special symbol that is not empty is, as a text, its own and only token.
pub proof fn lemma_special_symbol_is_one_token(
    specials: Seq<Seq<char>>,
    unknown: Seq<char>,
    rules: MergeRules,
    lower_case: bool,
    symbol: Seq<char>,
)
    requires
        specials.contains(symbol),
        symbol.len() > 0,
    ensures
        tokens_of(specials, unknown, rules, lower_case, symbol) == seq![symbol],
{
    lemma_split_of_special(specials, symbol);
    let pieces = split_spec(specials, symbol);
    let each = |piece: Piece| piece_tokens(rules, lower_case, piece);
    assert(pieces.map_values(each) =~= seq![seq![symbol]]);
    pieces.map_values(each).lemma_flatten_one_element();
}

/// The tokens of a text around an occurrence of a special symbol are the
/// tokens of what stands before it, the symbol as one token, and the tokens of
/// what stands after it. This holds where the occurrence is one that the
/// carve-out finds (no special symbol reaches into it from the text before,
/// and none that begins with it is longer) and where neither side is made of
/// white space alone.
pub proof fn lemma_special_symbol_between_texts(
    specials: Seq<Seq<char>>,
    unknown: Seq<char>,
    rules: MergeRules,
    lower_case: bool,
    a: Seq<char>,
    symbol: Seq<char>,
    b: Seq<char>,
)
    requires
        specials.contains(symbol),
        symbol.len() > 0,
        longest_special(specials, symbol + b) == symbol.len(),
        none_reaches_beyond(specials, a, symbol + b),
        !is_blank(split_spec(specials, a)),
        !is_blank(split_spec(specials, b)),
    ensures
        tokens_of(specials, unknown, rules, lower_case, a + symbol + b) == tokens_of(
            specials,
            unknown,
            rules,
            lower_case,
            a,
        ) + seq![symbol] + tokens_of(specials, unknown, rules, lower_case, b),
{
    lemma_split_around_special(specials, a, symbol, b);
    let each = |piece: Piece| piece_tokens(rules, lower_case, piece);
    let before = split_spec(specials, a);
    let after = split_spec(specials, b);
    let middle = seq![Piece { text: symbol, special: true }];
    let all = split_spec(specials, a + symbol + b);
    assert(all[before.len() as int] == middle[0]);
    assert(!is_blank(all));
    assert(all.map_values(each) =~= before.map_values(each) + middle.map_values(each)
        + after.map_values(each));
    lemma_flatten_concat(before.map_values(each), middle.map_values(each));
    lemma_flatten_concat(
        before.map_values(each) + middle.map_values(each),
        after.map_values(each),
    );
    assert(middle.map_values(each) =~= seq![seq![symbol]]);
    middle.map_values(each).lemma_flatten_one_element();
}

} // verus!

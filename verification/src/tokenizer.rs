//! The tokenizer of the GPT-2 family: special symbols are carved out, the text
//! between them is cut into chunks, each chunk is written in the visible
//! alphabet and split by byte-pair encoding.
//!
//! A text that holds no special symbol and nothing but white space is given
//! the unknown symbol as its only token.

use vstd::prelude::*;
use std::rc::Rc;
use regex::Regex;
use crate::bpe::{bpe, bpe_spec};
use crate::cache::WordCache;
use crate::detokenize::{detokenized, join_tokens, remove_marker, to_bytes, DetokenizationError};
use crate::encoding::{
    encode_ids, encoded, Encoding, EncodingError, TokenizedInput, TruncationStrategy,
};
use crate::merges::{BpePairVocab, IndexedPairs, MergeRules, Ranks};
use crate::pretokenize::{
    compile, compiled, pre_tokenize, words_of, LOOKAHEAD_PATTERN, TOKENIZATION_PATTERN,
};
use crate::special::{pieces_of, split_on_special_tokens, split_spec, Piece};
use crate::text::{
    all_white_space, append_all, chars_of, is_whitespace, lowercase_of, string_from_utf8, texts,
    to_lowercase, trim,
};
use crate::vocab::{Gpt2Vocab, IndexedVocab};

verus! {

/// Why a tokenizer could not be made.
#[derive(Debug, Clone, Copy, PartialEq, Eq, Structural)]
pub enum TokenizerError {
    /// The vocabulary has no id for its unknown symbol.
    MissingUnknownToken,
    /// A pattern of the pre-tokenization was not accepted.
    InvalidPattern,
}

/// The tokens of a text without special symbols: the sub-symbols of its
/// chunks, in order.
pub open spec fn literal_tokens(rules: MergeRules, text: Seq<char>) -> Seq<Seq<char>> {
    words_of(text).map_values(|word: Seq<char>| bpe_spec(rules, word)).flatten()
}

/// The tokens of one fragment: a special symbol is its own token, ordinary
/// text is lower-cased where that is asked for and then split.
pub open spec fn piece_tokens(rules: MergeRules, lower_case: bool, piece: Piece) -> Seq<Seq<char>> {
    if piece.special {
        seq![piece.text]
    } else if lower_case {
        literal_tokens(rules, lowercase_of(piece.text))
    } else {
        literal_tokens(rules, piece.text)
    }
}

/// True when the fragments are those of a text that holds no special symbol
/// and nothing but white space.
pub open spec fn is_blank(pieces: Seq<Piece>) -> bool {
    pieces.len() == 1 && !pieces[0].special && all_white_space(pieces[0].text)
}

/// The tokens of a text: the unknown symbol alone for a text that holds no
/// special symbol and nothing but white space, and else the tokens of the
/// fragments of the text, in order.
pub open spec fn tokens_of(
    specials: Seq<Seq<char>>,
    unknown: Seq<char>,
    rules: MergeRules,
    lower_case: bool,
    text: Seq<char>,
) -> Seq<Seq<char>> {
    let pieces = split_spec(specials, text);
    if is_blank(pieces) {
        seq![unknown]
    } else {
        pieces.map_values(|piece: Piece| piece_tokens(rules, lower_case, piece)).flatten()
    }
}

/// The symbols that the ids stand for, in order; the ids of special symbols
/// are left out where that is asked for.
pub open spec fn decoded_symbols(vocab: Gpt2Vocab, ids: Seq<i64>, skip_special: bool) -> Seq<
    Seq<char>,
>
    decreases ids.len(),
{
    if ids.len() == 0 {
        Seq::empty()
    } else if skip_special && vocab.has_special_id(ids.last()) {
        decoded_symbols(vocab, ids.drop_last(), skip_special)
    } else {
        decoded_symbols(vocab, ids.drop_last(), skip_special).push(vocab.symbol_for(ids.last()))
    }
}

/// The encoding of a result, where there is one.
pub open spec fn encoding_of(r: Result<TokenizedInput, EncodingError>) -> Result<
    Encoding,
    EncodingError,
> {
    match r {
        Ok(input) => Ok(input@),
        Err(e) => Err(e),
    }
}

/// The text of a result, where there is one.
pub open spec fn text_of(r: Result<String, DetokenizationError>) -> Result<
    Seq<char>,
    DetokenizationError,
> {
    match r {
        Ok(s) => Ok(s@),
        Err(e) => Err(e),
    }
}

/// Whether a text holds nothing but white space.
fn is_all_whitespace(text: &str) -> (r: bool)
    ensures
        r == all_white_space(text@),
{
    let chars = chars_of(text);
    let mut i: usize = 0;
    while i < chars.len()
        invariant
            i <= chars@.len(),
            chars@ == text@,
            forall|k: int| 0 <= k < i ==> crate::text::is_white_space(#[trigger] chars@[k]),
        decreases chars@.len() - i,
    {
        if !is_whitespace(chars[i]) {
            return false;
        }
        i += 1;
    }
    true
}

/// A tokenizer of the GPT-2 family.
pub struct Gpt2Tokenizer {
    vocab: IndexedVocab,
    bpe_ranks: IndexedPairs,
    cache: WordCache,
    pattern_lookahead: Regex,
    pattern_tokenization: Regex,
    lower_case: bool,
}

impl Gpt2Tokenizer {
    /// What holds of every tokenizer: the unknown symbol has an id, the two
    /// regular expressions are those of the two patterns of the
    /// pre-tokenization, and the cache holds for each of its words the
    /// sub-symbols of that word.
    #[verifier::type_invariant]
    spec fn well_formed(self) -> bool {
        &&& self.vocab.vocabulary().has_unknown()
        &&& compiled(LOOKAHEAD_PATTERN@) == Some(self.pattern_lookahead)
        &&& compiled(TOKENIZATION_PATTERN@) == Some(self.pattern_tokenization)
        &&& forall|i: int|
            0 <= i < self.cache.view().len() ==> (#[trigger] self.cache.view()[i]).1 == bpe_spec(
                self.bpe_ranks.rules(),
                self.cache.view()[i].0,
            )
    }

    /// The vocabulary of the tokenizer.
    pub closed spec fn vocabulary(self) -> Gpt2Vocab {
        self.vocab.vocabulary()
    }

    /// The merge rules of the tokenizer.
    pub closed spec fn merge_rules(self) -> MergeRules {
        self.bpe_ranks.rules()
    }

    /// Whether the tokenizer lower-cases ordinary text.
    pub closed spec fn folds_case(self) -> bool {
        self.lower_case
    }

    /// The tokens that this tokenizer gives a text.
    pub open spec fn tokens(self, text: Seq<char>) -> Seq<Seq<char>> {
        tokens_of(
            self.vocabulary().special_symbols(),
            self.vocabulary().unknown_value@,
            self.merge_rules(),
            self.folds_case(),
            text,
        )
    }

    /// The ids of the tokens that this tokenizer gives a text.
    pub open spec fn ids(self, text: Seq<char>) -> Seq<i64> {
        self.tokens(text).map_values(|token: Seq<char>| self.vocabulary().id_for(token))
    }

    /// The ids of the tokens of a second text, where there is one.
    pub open spec fn ids_of_second(self, text: Option<&str>) -> Option<Seq<i64>> {
        match text {
            Some(t) => Some(self.ids(t@)),
            None => None,
        }
    }

    /// Makes a tokenizer of a vocabulary and merge rules, with an empty cache.
    /// It is refused where the vocabulary has no id for its unknown symbol, and
    /// where one of the two patterns is not accepted.
    pub fn from_existing_vocab_and_merges(
        vocab: Rc<Gpt2Vocab>,
        merges: Rc<BpePairVocab>,
        lower_case: bool,
    ) -> (r: Result<Gpt2Tokenizer, TokenizerError>)
        ensures
            match r {
                Ok(tokenizer) => {
                    &&& vocab.has_unknown()
                    &&& compiled(LOOKAHEAD_PATTERN@) is Some
                    &&& compiled(TOKENIZATION_PATTERN@) is Some
                    &&& tokenizer.vocabulary() == *vocab
                    &&& tokenizer.merge_rules() == merges@
                    &&& tokenizer.folds_case() == lower_case
                },
                Err(TokenizerError::MissingUnknownToken) => !vocab.has_unknown(),
                Err(TokenizerError::InvalidPattern) => vocab.has_unknown() && (compiled(
                    LOOKAHEAD_PATTERN@,
                ) is None || compiled(TOKENIZATION_PATTERN@) is None),
            },
    {
        if !vocab.knows_unknown() {
            return Err(TokenizerError::MissingUnknownToken);
        }
        let pattern_lookahead = match compile(LOOKAHEAD_PATTERN) {
            Ok(re) => re,
            Err(_) => {
                return Err(TokenizerError::InvalidPattern);
            },
        };
        let pattern_tokenization = match compile(TOKENIZATION_PATTERN) {
            Ok(re) => re,
            Err(_) => {
                return Err(TokenizerError::InvalidPattern);
            },
        };
        Ok(
            Gpt2Tokenizer {
                vocab: IndexedVocab::new(vocab),
                bpe_ranks: IndexedPairs::new(merges),
                cache: WordCache::new(),
                pattern_lookahead,
                pattern_tokenization,
                lower_case,
            },
        )
    }

    /// The sub-symbols of a word in the visible alphabet: those that the cache
    /// holds for it, or else those that the merge rules give, which the cache
    /// then keeps.
    fn bpe_cached(&mut self, word: String) -> (tokens: Vec<String>)
        ensures
            texts(tokens@) == bpe_spec(old(self).merge_rules(), word@),
            final(self).vocabulary() == old(self).vocabulary(),
            final(self).merge_rules() == old(self).merge_rules(),
            final(self).folds_case() == old(self).folds_case(),
    {
        proof {
            use_type_invariant(&*self);
        }
        match self.cache.get(&word) {
            Some(tokens) => {
                proof {
                    crate::cache::lemma_remembered(self.cache.view(), word@);
                    let entry = (word@, texts(tokens@));
                    let i = choose|i: int|
                        0 <= i < self.cache.view().len() && #[trigger] self.cache.view()[i]
                            == entry;
                    assert(self.cache.view()[i].1 == bpe_spec(self.bpe_ranks.rules(), word@));
                }
                tokens
            },
            None => {
                let tokens = bpe(word.as_str(), &self.bpe_ranks);
                let mut cache = WordCache::new();
                std::mem::swap(&mut self.cache, &mut cache);
                cache.insert(word, &tokens);
                std::mem::swap(&mut self.cache, &mut cache);
                tokens
            },
        }
    }

    /// The tokens of a text without special symbols.
    fn tokenize_literal(&mut self, text: &str, tokens: &mut Vec<String>)
        ensures
            texts(final(tokens)@) == texts(old(tokens)@) + literal_tokens(
                old(self).merge_rules(),
                text@,
            ),
            final(self).vocabulary() == old(self).vocabulary(),
            final(self).merge_rules() == old(self).merge_rules(),
            final(self).folds_case() == old(self).folds_case(),
    {
        proof {
            use_type_invariant(&*self);
        }
        let ghost rules = self.merge_rules();
        let ghost split = |word: Seq<char>| bpe_spec(rules, word);
        let ghost before = texts(tokens@);
        let words = pre_tokenize(text, &self.pattern_lookahead, &self.pattern_tokenization);
        let ghost all = texts(words@);
        assert(all.take(0).map_values(split) =~= Seq::<Seq<Seq<char>>>::empty());
        assert(texts(tokens@) =~= before + all.take(0).map_values(split).flatten());
        for word in it: words
            invariant
                all == texts(it.seq()),
                self.merge_rules() == rules,
                self.vocabulary() == old(self).vocabulary(),
                self.folds_case() == old(self).folds_case(),
                split == |word: Seq<char>| bpe_spec(rules, word),
                texts(tokens@) == before + all.take(it.index() as int).map_values(split).flatten(),
        {
            let ghost done = it.index() as int;
            assert(word@ == all[done]);
            let pieces = self.bpe_cached(word);
            append_all(tokens, pieces);
            proof {
                let upto = all.take(done).map_values(split);
                assert(all.take(done + 1).map_values(split) =~= upto.push(split(all[done])));
                upto.lemma_flatten_push(split(all[done]));
            }
        }
        assert(all.take(all.len() as int) =~= all);
    }

    /// Cuts a text into tokens. Special symbols are tokens as they stand; the
    /// text between them is lower-cased where that was asked for, cut into
    /// chunks, and each chunk is split by the merge rules. A text that holds
    /// no special symbol and nothing but white space is given the unknown
    /// symbol alone.
    ///
    /// The tokens depend on the text, the vocabulary, the merge rules and the
    /// choice of lower-casing alone: what the cache holds changes nothing, and
    /// the tokenizer is the same afterwards but for its cache.
    pub fn tokenize(&mut self, text: &str) -> (tokens: Vec<String>)
        ensures
            texts(tokens@) == old(self).tokens(text@),
            final(self).vocabulary() == old(self).vocabulary(),
            final(self).merge_rules() == old(self).merge_rules(),
            final(self).folds_case() == old(self).folds_case(),
    {
        let ghost rules = self.merge_rules();
        let ghost lower = self.folds_case();
        let ghost each = |piece: Piece| piece_tokens(rules, lower, piece);
        let fragments = split_on_special_tokens(text, self.vocab.vocab());
        let ghost pieces = pieces_of(fragments@);
        let mut tokens: Vec<String> = Vec::new();
        if fragments.len() == 1 && !fragments[0].special && is_all_whitespace(
            fragments[0].text.as_str(),
        ) {
            tokens.push(self.vocab.vocab().unknown_value.to_owned());
            assert(texts(tokens@) =~= seq![self.vocabulary().unknown_value@]);
            return tokens;
        }
        assert(!is_blank(pieces));
        let mut i: usize = 0;
        assert(pieces.take(0).map_values(each) =~= Seq::<Seq<Seq<char>>>::empty());
        assert(texts(tokens@) =~= pieces.take(0).map_values(each).flatten());
        while i < fragments.len()
            invariant
                i <= fragments@.len(),
                pieces == pieces_of(fragments@),
                self.merge_rules() == rules,
                self.folds_case() == lower,
                self.vocabulary() == old(self).vocabulary(),
                each == |piece: Piece| piece_tokens(rules, lower, piece),
                texts(tokens@) == pieces.take(i as int).map_values(each).flatten(),
            decreases fragments@.len() - i,
        {
            let ghost so_far = texts(tokens@);
            let fragment = &fragments[i];
            assert(fragment@ == pieces[i as int]);
            if fragment.special {
                tokens.push(fragment.text.clone());
                assert(texts(tokens@) =~= so_far + each(pieces[i as int]));
            } else if self.lower_case {
                let lowered = to_lowercase(fragment.text.as_str());
                self.tokenize_literal(lowered.as_str(), &mut tokens);
            } else {
                self.tokenize_literal(fragment.text.as_str(), &mut tokens);
            }
            proof {
                let upto = pieces.take(i as int).map_values(each);
                assert(pieces.take(i + 1).map_values(each) =~= upto.push(each(pieces[i as int])));
                upto.lemma_flatten_push(each(pieces[i as int]));
            }
            i += 1;
        }
        assert(pieces.take(i as int) =~= pieces);
        tokens
    }

    /// The tokens of each text of a list.
    pub fn tokenize_list(&mut self, text_list: Vec<&str>) -> (r: Vec<Vec<String>>)
        ensures
            r@.len() == text_list@.len(),
            forall|i: int|
                0 <= i < r@.len() ==> texts((#[trigger] r@[i])@) == old(self).tokens(
                    text_list@[i]@,
                ),
            final(self).vocabulary() == old(self).vocabulary(),
            final(self).merge_rules() == old(self).merge_rules(),
            final(self).folds_case() == old(self).folds_case(),
    {
        let mut out: Vec<Vec<String>> = Vec::new();
        let mut i: usize = 0;
        while i < text_list.len()
            invariant
                i <= text_list@.len(),
                out@.len() == i,
                self.vocabulary() == old(self).vocabulary(),
                self.merge_rules() == old(self).merge_rules(),
                self.folds_case() == old(self).folds_case(),
                forall|k: int|
                    0 <= k < i ==> texts((#[trigger] out@[k])@) == old(self).tokens(
                        text_list@[k]@,
                    ),
            decreases text_list@.len() - i,
        {
            let tokens = self.tokenize(text_list[i]);
            out.push(tokens);
            i += 1;
        }
        out
    }

    /// Turns tokens back into the text that they stand for. Fails on a code
    /// point that stands for no byte, and on bytes that are no valid UTF-8.
    pub fn convert_tokens_to_string(
        &self,
        tokens: Vec<String>,
        clean_up_tokenization_spaces: bool,
    ) -> (r: Result<String, DetokenizationError>)
        ensures
            text_of(r) == detokenized(texts(tokens@), clean_up_tokenization_spaces),
    {
        let all = join_tokens(&tokens);
        let plain = remove_marker(&all);
        let kept = if clean_up_tokenization_spaces {
            trim(&plain)
        } else {
            plain
        };
        match to_bytes(&kept) {
            None => Err(DetokenizationError::UnknownCodePoint),
            Some(bytes) => match string_from_utf8(bytes) {
                None => Err(DetokenizationError::InvalidUtf8),
                Some(text) => Ok(text),
            },
        }
    }

    /// The ids of the tokens; the id of the unknown symbol stands for a token
    /// that has none.
    pub fn convert_tokens_to_ids(&self, tokens: &Vec<String>) -> (ids: Vec<i64>)
        ensures
            ids@.len() == tokens@.len(),
            forall|i: int|
                0 <= i < ids@.len() ==> #[trigger] ids@[i] == self.vocabulary().id_for(
                    tokens@[i]@,
                ),
    {
        proof {
            use_type_invariant(self);
        }
        let mut ids: Vec<i64> = Vec::new();
        let mut i: usize = 0;
        while i < tokens.len()
            invariant
                i <= tokens@.len(),
                ids@.len() == i,
                self.vocab.vocabulary().has_unknown(),
                forall|k: int|
                    0 <= k < i ==> #[trigger] ids@[k] == self.vocabulary().id_for(tokens@[k]@),
            decreases tokens@.len() - i,
        {
            ids.push(self.vocab.token_to_id(tokens[i].as_str()));
            i += 1;
        }
        ids
    }

    /// The ids of the tokens of a text.
    pub fn encode_to_ids(&mut self, text: &str) -> (ids: Vec<i64>)
        ensures
            ids@ == old(self).ids(text@),
            final(self).vocabulary() == old(self).vocabulary(),
            final(self).merge_rules() == old(self).merge_rules(),
            final(self).folds_case() == old(self).folds_case(),
    {
        let tokens = self.tokenize(text);
        let ids = self.convert_tokens_to_ids(&tokens);
        assert(ids@ =~= old(self).ids(text@));
        ids
    }

    /// Encodes a text, or a pair of texts, for a model: the ids of their
    /// tokens, shortened to `max_len` ids in all.
    pub fn encode(
        &mut self,
        text_1: &str,
        text_2: Option<&str>,
        max_len: usize,
        truncation_strategy: &TruncationStrategy,
        stride: usize,
    ) -> (r: Result<TokenizedInput, EncodingError>)
        ensures
            encoding_of(r) == encoded(
                old(self).ids(text_1@),
                old(self).ids_of_second(text_2),
                max_len as int,
                *truncation_strategy,
                stride as int,
            ),
            final(self).vocabulary() == old(self).vocabulary(),
            final(self).merge_rules() == old(self).merge_rules(),
            final(self).folds_case() == old(self).folds_case(),
    {
        let token_ids_1 = self.encode_to_ids(text_1);
        let token_ids_2 = match text_2 {
            Some(text) => Some(self.encode_to_ids(text)),
            None => None,
        };
        encode_ids(token_ids_1, token_ids_2, max_len, truncation_strategy, stride)
    }

    /// Encodes each text of a list.
    pub fn encode_list(
        &mut self,
        text_list: Vec<&str>,
        max_len: usize,
        truncation_strategy: &TruncationStrategy,
        stride: usize,
    ) -> (r: Vec<Result<TokenizedInput, EncodingError>>)
        ensures
            r@.len() == text_list@.len(),
            forall|i: int|
                0 <= i < r@.len() ==> encoding_of(#[trigger] r@[i]) == encoded(
                    old(self).ids(text_list@[i]@),
                    None,
                    max_len as int,
                    *truncation_strategy,
                    stride as int,
                ),
            final(self).vocabulary() == old(self).vocabulary(),
            final(self).merge_rules() == old(self).merge_rules(),
            final(self).folds_case() == old(self).folds_case(),
    {
        let mut out: Vec<Result<TokenizedInput, EncodingError>> = Vec::new();
        let mut i: usize = 0;
        while i < text_list.len()
            invariant
                i <= text_list@.len(),
                out@.len() == i,
                self.vocabulary() == old(self).vocabulary(),
                self.merge_rules() == old(self).merge_rules(),
                self.folds_case() == old(self).folds_case(),
                forall|k: int|
                    0 <= k < i ==> encoding_of(#[trigger] out@[k]) == encoded(
                        old(self).ids(text_list@[k]@),
                        None,
                        max_len as int,
                        *truncation_strategy,
                        stride as int,
                    ),
            decreases text_list@.len() - i,
        {
            let input = self.encode(text_list[i], None, max_len, truncation_strategy, stride);
            out.push(input);
            i += 1;
        }
        out
    }

    /// Encodes each pair of texts of a list.
    pub fn encode_pair_list(
        &mut self,
        text_list: Vec<(&str, &str)>,
        max_len: usize,
        truncation_strategy: &TruncationStrategy,
        stride: usize,
    ) -> (r: Vec<Result<TokenizedInput, EncodingError>>)
        ensures
            r@.len() == text_list@.len(),
            forall|i: int|
                0 <= i < r@.len() ==> encoding_of(#[trigger] r@[i]) == encoded(
                    old(self).ids(text_list@[i].0@),
                    Some(old(self).ids(text_list@[i].1@)),
                    max_len as int,
                    *truncation_strategy,
                    stride as int,
                ),
            final(self).vocabulary() == old(self).vocabulary(),
            final(self).merge_rules() == old(self).merge_rules(),
            final(self).folds_case() == old(self).folds_case(),
    {
        let mut out: Vec<Result<TokenizedInput, EncodingError>> = Vec::new();
        let mut i: usize = 0;
        while i < text_list.len()
            invariant
                i <= text_list@.len(),
                out@.len() == i,
                self.vocabulary() == old(self).vocabulary(),
                self.merge_rules() == old(self).merge_rules(),
                self.folds_case() == old(self).folds_case(),
                forall|k: int|
                    0 <= k < i ==> encoding_of(#[trigger] out@[k]) == encoded(
                        old(self).ids(text_list@[k].0@),
                        Some(old(self).ids(text_list@[k].1@)),
                        max_len as int,
                        *truncation_strategy,
                        stride as int,
                    ),
            decreases text_list@.len() - i,
        {
            let input = self.encode(
                text_list[i].0,
                Some(text_list[i].1),
                max_len,
                truncation_strategy,
                stride,
            );
            out.push(input);
            i += 1;
        }
        out
    }

    /// The text that each list of ids stands for.
    pub fn decode_list(
        &self,
        token_ids_list: Vec<Vec<i64>>,
        skip_special_tokens: bool,
        clean_up_tokenization_spaces: bool,
    ) -> (r: Vec<Result<String, DetokenizationError>>)
        ensures
            r@.len() == token_ids_list@.len(),
            forall|i: int|
                0 <= i < r@.len() ==> text_of(#[trigger] r@[i]) == detokenized(
                    decoded_symbols(self.vocabulary(), token_ids_list@[i]@, skip_special_tokens),
                    clean_up_tokenization_spaces,
                ),
    {
        let mut out: Vec<Result<String, DetokenizationError>> = Vec::new();
        for ids in it: token_ids_list
            invariant
                out@.len() == it.index(),
                forall|i: int|
                    0 <= i < out@.len() ==> text_of(#[trigger] out@[i]) == detokenized(
                        decoded_symbols(self.vocabulary(), it.seq()[i]@, skip_special_tokens),
                        clean_up_tokenization_spaces,
                    ),
        {
            let text = self.decode(ids, skip_special_tokens, clean_up_tokenization_spaces);
            out.push(text);
        }
        out
    }

    /// The symbols of the ids, in order; the ids of special symbols are left
    /// out where that is asked for.
    pub fn decode_to_vec(&self, token_ids: Vec<i64>, skip_special_tokens: bool) -> (tokens: Vec<
        String,
    >)
        ensures
            texts(tokens@) == decoded_symbols(self.vocabulary(), token_ids@, skip_special_tokens),
    {
        let mut tokens: Vec<String> = Vec::new();
        let mut i: usize = 0;
        assert(token_ids@.take(0) =~= Seq::<i64>::empty());
        while i < token_ids.len()
            invariant
                i <= token_ids@.len(),
                texts(tokens@) == decoded_symbols(
                    self.vocabulary(),
                    token_ids@.take(i as int),
                    skip_special_tokens,
                ),
            decreases token_ids@.len() - i,
        {
            let ghost before = texts(tokens@);
            let id = token_ids[i];
            proof {
                let upto = token_ids@.take(i + 1);
                assert(upto.drop_last() =~= token_ids@.take(i as int));
                assert(upto.last() == id);
            }
            if !(skip_special_tokens && self.vocab.vocab().is_special_id(&id)) {
                tokens.push(self.vocab.id_to_token(&id));
                assert(texts(tokens@) =~= before.push(self.vocabulary().symbol_for(id)));
            }
            i += 1;
        }
        assert(token_ids@.take(i as int) =~= token_ids@);
        tokens
    }

    /// The text that the ids stand for.
    pub fn decode(
        &self,
        token_ids: Vec<i64>,
        skip_special_tokens: bool,
        clean_up_tokenization_spaces: bool,
    ) -> (r: Result<String, DetokenizationError>)
        ensures
            text_of(r) == detokenized(
                decoded_symbols(self.vocabulary(), token_ids@, skip_special_tokens),
                clean_up_tokenization_spaces,
            ),
    {
        let tokens = self.decode_to_vec(token_ids, skip_special_tokens);
        self.convert_tokens_to_string(tokens, clean_up_tokenization_spaces)
    }

    /// The vocabulary of the tokenizer.
    pub fn vocab(&self) -> (r: &Gpt2Vocab)
        ensures
            *r == self.vocabulary(),
            r.has_unknown(),
    {
        proof {
            use_type_invariant(self);
        }
        self.vocab.vocab()
    }
}

} // verus!

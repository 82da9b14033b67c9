use rust_tokenizers::detokenize::DetokenizationError;
use rust_tokenizers::encoding::{
    encode_ids, truncate_sequences, EncodingError, TokenizedInput, TruncationStrategy,
};
use rust_tokenizers::merges::BpePairVocab;
use rust_tokenizers::tokenizer::{Gpt2Tokenizer, TokenizerError};
use rust_tokenizers::vocab::{swap_key_values, Gpt2Vocab};
use std::rc::Rc;

fn generate_test_vocab() -> Gpt2Vocab {
    let values: Vec<(String, i64)> = [
        ("t".to_owned(), 0),
        ("h".to_owned(), 1),
        ("a@@".to_owned(), 2),
        ("n".to_owned(), 3),
        ("the".to_owned(), 4),
        ("Ġ".to_owned(), 5),
        ("<|endoftext|>".to_owned(), 6),
        ("o@@".to_owned(), 7),
        ("Ġear".to_owned(), 8),
        ("th".to_owned(), 9),
    ]
    .iter()
    .cloned()
    .collect();

    let special_values: Vec<(String, i64)> =
        [("<|endoftext|>".to_owned(), 6)].iter().cloned().collect();

    let indices = swap_key_values(&values);
    let special_indices = swap_key_values(&special_values);

    Gpt2Vocab { values, indices, unknown_value: "<|endoftext|>", special_values, special_indices }
}

fn generate_test_merges() -> BpePairVocab {
    let values: Vec<((String, String), i64)> = [
        (("Ġ".to_owned(), "t".to_owned()), 0),
        (("Ġ".to_owned(), "n".to_owned()), 1),
        (("e".to_owned(), "e".to_owned()), 2),
        (("Ġt".to_owned(), "he".to_owned()), 3),
        (("h".to_owned(), "e".to_owned()), 4),
        (("t".to_owned(), "h".to_owned()), 5),
        (("t".to_owned(), "he".to_owned()), 6),
        (("Ġ".to_owned(), "e".to_owned()), 7),
        (("Ġe".to_owned(), "a".to_owned()), 8),
        (("Ġea".to_owned(), "r".to_owned()), 9),
    ]
    .iter()
    .cloned()
    .collect();

    BpePairVocab { values }
}

fn test_tokenizer(lower_case: bool) -> Gpt2Tokenizer {
    let vocab = Rc::new(generate_test_vocab());
    let merges = Rc::new(generate_test_merges());
    Gpt2Tokenizer::from_existing_vocab_and_merges(vocab, merges, lower_case).unwrap()
}

#[test]
fn test_gpt2_tokenizer() {
    //        Given
    let mut gpt2_tokenizer: Gpt2Tokenizer = test_tokenizer(true);
    let test_tuples = [
        ("the Earth", vec!["the", "Ġear", "th"]),
        ("", vec![]),
        (" ", vec!["<|endoftext|>"]),
        (" \n ", vec!["<|endoftext|>"]),
    ];
    let source_texts: Vec<&str> = test_tuples.iter().map(|v| v.0).collect();
    let expected_results: Vec<Vec<&str>> = test_tuples.iter().map(|v| v.1.clone()).collect();

    //        When & Then
    for (source_text, expected_result) in test_tuples.iter() {
        assert_eq!(gpt2_tokenizer.tokenize(*source_text), *expected_result);
    }

    assert_eq!(gpt2_tokenizer.tokenize_list(source_texts.clone()), expected_results);
}

#[test]
fn test_gpt2_tokenizer_no_lower_casing() {
    //        Given
    let mut gpt2_tokenizer: Gpt2Tokenizer = test_tokenizer(false);
    let test_tuples = [
        ("the Earth", vec!["the", "Ġ", "E", "a", "r", "th"]),
        ("", vec![]),
        (" ", vec!["<|endoftext|>"]),
        (" \n ", vec!["<|endoftext|>"]),
    ];
    let source_texts: Vec<&str> = test_tuples.iter().map(|v| v.0).collect();
    let expected_results: Vec<Vec<&str>> = test_tuples.iter().map(|v| v.1.clone()).collect();

    //        When & Then
    for (source_text, expected_result) in test_tuples.iter() {
        assert_eq!(gpt2_tokenizer.tokenize(*source_text), *expected_result);
    }

    assert_eq!(gpt2_tokenizer.tokenize_list(source_texts.clone()), expected_results);
}

#[test]
fn test_decode() {
    //        Given
    let gpt2_tokenizer: Gpt2Tokenizer = test_tokenizer(true);
    let skip_special_tokens = false;
    let clean_up_tokenization_spaces = false;
    let test_tuples = [(vec![4, 8, 9], "the earth")];

    let source_ids: Vec<Vec<i64>> = test_tuples.iter().map(|v| v.0.clone()).collect();
    let expected_results: Vec<&str> = test_tuples.iter().map(|v| v.1).collect();

    //        When & Then
    for (source_ids, expected_result) in test_tuples.iter() {
        assert_eq!(
            gpt2_tokenizer
                .decode(source_ids.clone(), skip_special_tokens, clean_up_tokenization_spaces)
                .unwrap(),
            *expected_result
        );
    }
    let decoded: Vec<String> = gpt2_tokenizer
        .decode_list(source_ids.clone(), skip_special_tokens, clean_up_tokenization_spaces)
        .into_iter()
        .map(|r| r.unwrap())
        .collect();
    assert_eq!(decoded, expected_results);
}

#[test]
fn test_encode() {
    //        Given
    let mut gpt2_tokenizer: Gpt2Tokenizer = test_tokenizer(true);
    let truncation_strategy = TruncationStrategy::LongestFirst;
    let test_tuples = [
        (
            "the earth",
            TokenizedInput {
                token_ids: vec![4, 8, 9],
                segment_ids: vec![0, 0, 0],
                special_tokens_mask: vec![0, 0, 0],
                overflowing_tokens: vec![],
                num_truncated_tokens: 0,
            },
        ),
        (
            " ",
            TokenizedInput {
                token_ids: vec![6],
                segment_ids: vec![0],
                special_tokens_mask: vec![0],
                overflowing_tokens: vec![],
                num_truncated_tokens: 0,
            },
        ),
        (
            "",
            TokenizedInput {
                token_ids: vec![],
                segment_ids: vec![],
                special_tokens_mask: vec![],
                overflowing_tokens: vec![],
                num_truncated_tokens: 0,
            },
        ),
    ];
    let source_texts: Vec<&str> = test_tuples.iter().map(|v| v.0).collect();
    let expected_results: Vec<TokenizedInput> = test_tuples.iter().map(|v| v.1.clone()).collect();

    //        When & Then
    for (source_text, expected_result) in test_tuples.iter() {
        assert_eq!(
            gpt2_tokenizer.encode(source_text, None, 128, &truncation_strategy, 0).unwrap(),
            *expected_result
        );
    }
    let encoded: Vec<TokenizedInput> = gpt2_tokenizer
        .encode_list(source_texts.clone(), 128, &truncation_strategy, 0)
        .into_iter()
        .map(|r| r.unwrap())
        .collect();
    assert_eq!(encoded, expected_results);
}

#[test]
fn test_token_ids_of_tokenized_text() {
    let mut gpt2_tokenizer: Gpt2Tokenizer = test_tokenizer(true);
    let test_tuples: [(&str, Vec<i64>); 3] =
        [("the earth", vec![4, 8, 9]), (" ", vec![6]), ("", vec![])];
    for (source_text, expected_ids) in test_tuples.iter() {
        let tokens = gpt2_tokenizer.tokenize(source_text);
        assert_eq!(gpt2_tokenizer.convert_tokens_to_ids(&tokens), *expected_ids);
    }
    assert_eq!(gpt2_tokenizer.convert_tokens_to_ids(&vec!["zzz".to_owned()]), vec![6]);
}

#[test]
fn test_encode_truncates_to_the_greatest_length() {
    let mut tokenizer = test_tokenizer(true);
    let input = tokenizer
        .encode("the earth", None, 2, &TruncationStrategy::LongestFirst, 1)
        .unwrap();
    assert_eq!(
        input,
        TokenizedInput {
            token_ids: vec![4, 8],
            segment_ids: vec![0, 0],
            special_tokens_mask: vec![0, 0],
            overflowing_tokens: vec![8, 9],
            num_truncated_tokens: 1,
        }
    );
    assert_eq!(
        tokenizer.encode("the earth", None, 2, &TruncationStrategy::DoNotTruncate, 0),
        Err(EncodingError::TruncationNotAllowed)
    );
    assert_eq!(
        tokenizer.encode("the earth", None, 2, &TruncationStrategy::OnlySecond, 0),
        Err(EncodingError::NoSecondSequence)
    );
    let pair = tokenizer
        .encode("the earth", Some("the"), 128, &TruncationStrategy::LongestFirst, 0)
        .unwrap();
    assert_eq!(pair.token_ids, vec![4, 8, 9, 4]);
    assert_eq!(pair.segment_ids, vec![0, 0, 0, 1]);
    assert_eq!(pair.special_tokens_mask, vec![0, 0, 0, 0]);
    let pairs = tokenizer.encode_pair_list(
        vec![("the earth", "the")],
        128,
        &TruncationStrategy::LongestFirst,
        0,
    );
    assert_eq!(pairs, vec![Ok(pair)]);
}

#[test]
fn test_truncation_of_pairs() {
    let first = vec![1, 2, 3, 4, 5];
    let second = vec![6, 7, 8];
    assert_eq!(
        truncate_sequences(
            first.clone(),
            Some(second.clone()),
            4,
            &TruncationStrategy::LongestFirst,
            2
        ),
        Ok((vec![1, 2], Some(vec![6, 7]), vec![1, 2, 3, 4, 5]))
    );
    assert_eq!(
        truncate_sequences(first.clone(), Some(second.clone()), 2, &TruncationStrategy::OnlyFirst, 0),
        Ok((vec![1, 2, 3], Some(vec![6, 7, 8]), vec![4, 5]))
    );
    assert_eq!(
        truncate_sequences(first.clone(), Some(second.clone()), 2, &TruncationStrategy::OnlySecond, 5),
        Ok((vec![1, 2, 3, 4, 5], Some(vec![6]), vec![6, 7, 8]))
    );
    assert_eq!(
        truncate_sequences(first.clone(), Some(second.clone()), 4, &TruncationStrategy::OnlySecond, 0),
        Err(EncodingError::SequenceTooShort)
    );
    assert_eq!(
        truncate_sequences(first.clone(), Some(second.clone()), 9, &TruncationStrategy::LongestFirst, 0),
        Err(EncodingError::SequenceTooShort)
    );
    assert_eq!(
        truncate_sequences(first.clone(), None, 6, &TruncationStrategy::OnlyFirst, 0),
        Err(EncodingError::SequenceTooShort)
    );
    assert_eq!(
        truncate_sequences(first.clone(), None, 0, &TruncationStrategy::DoNotTruncate, 3),
        Ok((first.clone(), None, vec![]))
    );
    let input =
        encode_ids(first, Some(second), 6, &TruncationStrategy::LongestFirst, 0).unwrap();
    assert_eq!(input.token_ids, vec![1, 2, 3, 6, 7, 8]);
    assert_eq!(input.segment_ids, vec![0, 0, 0, 1, 1, 1]);
    assert_eq!(input.overflowing_tokens, vec![4, 5]);
    assert_eq!(input.num_truncated_tokens, 2);
}

#[test]
fn test_truncation_strategy_names() {
    assert_eq!(TruncationStrategy::from_name("longest_first"), Some(TruncationStrategy::LongestFirst));
    assert_eq!(TruncationStrategy::from_name("only_first"), Some(TruncationStrategy::OnlyFirst));
    assert_eq!(TruncationStrategy::from_name("only_second"), Some(TruncationStrategy::OnlySecond));
    assert_eq!(
        TruncationStrategy::from_name("do_not_truncate"),
        Some(TruncationStrategy::DoNotTruncate)
    );
    assert_eq!(TruncationStrategy::from_name("Longest_First"), None);
    assert_eq!(TruncationStrategy::from_name(""), None);
}

#[test]
fn test_tokenizer_without_unknown_token_is_refused() {
    let mut vocab = generate_test_vocab();
    vocab.values.remove(6);
    let merges = Rc::new(generate_test_merges());
    let r = Gpt2Tokenizer::from_existing_vocab_and_merges(Rc::new(vocab), merges, false);
    assert!(matches!(r, Err(TokenizerError::MissingUnknownToken)));
}

#[test]
fn test_round_trip_of_mixed_text() {
    let mut tokenizer = test_tokenizer(false);
    let texts = [
        "the Earth",
        "  leading and trailing  ",
        "it's 42 o'clock, isn't it?\n\n  Yes!",
        "naïve café — 日本語 \u{00A0}x \u{2003}y 🙂",
        "a\tb\r\nc",
        "",
    ];
    for text in texts.iter() {
        let tokens = tokenizer.tokenize(text);
        assert_eq!(tokenizer.convert_tokens_to_string(tokens.clone(), false).unwrap(), *text);
        assert_eq!(tokenizer.convert_tokens_to_string(tokens, true).unwrap(), *text);
    }
}

#[test]
fn test_pre_tokenization_chunks() {
    // With no merge rules every chunk falls into its code points, so the
    // chunks are seen through a table that merges everything it is asked.
    let vocab = Rc::new(generate_test_vocab());
    let merges = Rc::new(BpePairVocab { values: vec![] });
    let mut tokenizer =
        Gpt2Tokenizer::from_existing_vocab_and_merges(vocab, merges, false).unwrap();
    assert_eq!(tokenizer.tokenize("a  b"), vec!["a", "Ġ", "Ġ", "b"]);
    assert_eq!(tokenizer.tokenize("I'm"), vec!["I", "'", "m"]);
}

#[test]
fn test_special_tokens_are_kept_verbatim() {
    let mut tokenizer = test_tokenizer(true);
    assert_eq!(tokenizer.tokenize("<|endoftext|>"), vec!["<|endoftext|>"]);
    assert_eq!(
        tokenizer.tokenize("the<|endoftext|>the"),
        vec!["the", "<|endoftext|>", "the"]
    );
    assert_eq!(tokenizer.tokenize(" <|endoftext|>"), vec!["Ġ", "<|endoftext|>"]);
}

#[test]
fn test_cache_does_not_change_tokens() {
    let mut warm = test_tokenizer(true);
    let first = warm.tokenize("the Earth the earth");
    let second = warm.tokenize("the Earth the earth");
    let mut cold = test_tokenizer(true);
    assert_eq!(first, second);
    assert_eq!(cold.tokenize("the Earth the earth"), second);
}

#[test]
fn test_detokenization_errors() {
    let tokenizer = test_tokenizer(false);
    assert_eq!(
        tokenizer.convert_tokens_to_string(vec!["a b".to_owned()], false),
        Err(DetokenizationError::UnknownCodePoint)
    );
    assert_eq!(
        tokenizer.convert_tokens_to_string(vec!["é".to_owned()], false),
        Err(DetokenizationError::InvalidUtf8)
    );
    assert_eq!(
        tokenizer.convert_tokens_to_string(vec![" a".to_owned(), "b ".to_owned()], true),
        Ok("ab".to_owned())
    );
    assert_eq!(
        tokenizer.convert_tokens_to_string(vec!["a".to_owned(), " ##b".to_owned()], false),
        Ok("ab".to_owned())
    );
}

#[test]
fn test_decode_skips_special_tokens() {
    let tokenizer = test_tokenizer(true);
    assert_eq!(tokenizer.decode(vec![4, 6, 9], false, false).unwrap(), "the<|endoftext|>th");
    assert_eq!(tokenizer.decode(vec![4, 6, 9], true, false).unwrap(), "theth");
    assert_eq!(tokenizer.decode(vec![4, 99], false, false).unwrap(), "the<|endoftext|>");
}

use rust_tokenizers::alphabet::{byte_to_char, char_to_byte};
use rust_tokenizers::bpe::bpe;
use rust_tokenizers::merges::BpePairVocab;
use rust_tokenizers::special::split_on_special_tokens;
use rust_tokenizers::vocab::{Gpt2Vocab, VocabError};

const VOCAB_JSON: &str = "{\"hello\": 1,\n \"world\": 0,\n \"<|endoftext|>\": 2,\n \"!\": 3\n}";

fn sorted(mut entries: Vec<(String, i64)>) -> Vec<(String, i64)> {
    entries.sort();
    entries
}

#[test]
fn test_create_vocab() {
    //        Given
    let values: Vec<(String, i64)> = Vec::new();
    let special_values: Vec<(String, i64)> = Vec::new();
    let indices: Vec<(i64, String)> = Vec::new();
    let special_indices: Vec<(i64, String)> = Vec::new();
    let unknown_value = Gpt2Vocab::unknown_value();

    //        When
    let gpt2_vocab = Gpt2Vocab { values, indices, unknown_value, special_indices, special_values };

    //        Then
    assert_eq!(gpt2_vocab.unknown_value, "<|endoftext|>");
    assert_eq!(gpt2_vocab.unknown_value, Gpt2Vocab::unknown_value());
    assert_eq!(gpt2_vocab.values, *gpt2_vocab.values());
    assert_eq!(gpt2_vocab.special_values, *gpt2_vocab.special_values());
}

#[test]
fn test_create_object_from_file() {
    //        Given
    let target_values: Vec<(String, i64)> = [
        ("hello".to_owned(), 1),
        ("world".to_owned(), 0),
        ("<|endoftext|>".to_owned(), 2),
        ("!".to_owned(), 3),
    ]
    .iter()
    .cloned()
    .collect();

    let special_values: Vec<(String, i64)> =
        [("<|endoftext|>".to_owned(), 2)].iter().cloned().collect();

    //        When
    let gpt2_vocab = Gpt2Vocab::from_json(VOCAB_JSON).unwrap();

    //        Then
    assert_eq!(gpt2_vocab.unknown_value, "<|endoftext|>");
    assert_eq!(sorted(gpt2_vocab.values.clone()), sorted(target_values));
    assert_eq!(gpt2_vocab.special_values, special_values);
    assert_eq!(gpt2_vocab.special_indices, vec![(2, "<|endoftext|>".to_owned())]);
    assert_eq!(gpt2_vocab.indices.len(), 4);
}

#[test]
#[should_panic]
fn test_create_object_from_file_without_unknown_token() {
    //        When & Then
    let _ctrl_vocab =
        Gpt2Vocab::from_json("{\"hello\": 1,\n \"world\": 0,\n \"!\": 3\n}").unwrap();
}

#[test]
fn test_encode_tokens() {
    //        Given
    let gpt2_vocab = Gpt2Vocab::from_json(VOCAB_JSON).unwrap();

    //        When & Then
    assert_eq!(gpt2_vocab.token_to_id("hello"), 1);
    assert_eq!(gpt2_vocab.token_to_id("world"), 0);
    assert_eq!(gpt2_vocab.token_to_id("!"), 3);
    assert_eq!(gpt2_vocab.token_to_id("<|endoftext|>"), 2);
    assert_eq!(gpt2_vocab.token_to_id("oov_value"), 2);
}

#[test]
fn test_decode_tokens() {
    //        Given
    let gpt2_vocab = Gpt2Vocab::from_json(VOCAB_JSON).unwrap();

    //        When & Then
    assert_eq!(gpt2_vocab.id_to_token(&(1 as i64)), "hello");
    assert_eq!(gpt2_vocab.id_to_token(&(0 as i64)), "world");
    assert_eq!(gpt2_vocab.id_to_token(&(3 as i64)), "!");
    assert_eq!(gpt2_vocab.id_to_token(&(2 as i64)), "<|endoftext|>");
}

#[test]
fn test_unknown_id_gives_unknown_token() {
    let gpt2_vocab = Gpt2Vocab::from_json(VOCAB_JSON).unwrap();
    assert_eq!(gpt2_vocab.id_to_token(&(17 as i64)), "<|endoftext|>");
    assert!(gpt2_vocab.is_special("<|endoftext|>"));
    assert!(!gpt2_vocab.is_special("hello"));
    assert!(gpt2_vocab.is_special_id(&2));
    assert!(!gpt2_vocab.is_special_id(&1));
    assert!(gpt2_vocab.knows_unknown());
}

#[test]
fn test_vocabulary_errors() {
    let entry = |s: &str, i: i64| (s.to_owned(), i);
    assert!(matches!(Gpt2Vocab::from_json("[1, 2"), Err(VocabError::Malformed)));
    assert!(matches!(Gpt2Vocab::from_json("{\"a\": \"b\"}"), Err(VocabError::Malformed)));
    assert!(matches!(
        Gpt2Vocab::from_values(vec![entry("a", 0), entry("<|endoftext|>", 1), entry("a", 2)]),
        Err(VocabError::DuplicateSymbol)
    ));
    assert!(matches!(
        Gpt2Vocab::from_values(vec![entry("a", 1), entry("<|endoftext|>", 1)]),
        Err(VocabError::DuplicateId)
    ));
    assert!(matches!(
        Gpt2Vocab::from_values(vec![entry("a", 0), entry("b", 1)]),
        Err(VocabError::MissingUnknownToken)
    ));
    let vocab = Gpt2Vocab::from_values(vec![entry("a", 0), entry("<|endoftext|>", 1)]).unwrap();
    assert_eq!(vocab.indices, vec![(0, "a".to_owned()), (1, "<|endoftext|>".to_owned())]);
}

#[test]
fn test_byte_alphabet() {
    assert_eq!(byte_to_char(b' '), 'Ġ');
    assert_eq!(byte_to_char(b'a'), 'a');
    assert_eq!(byte_to_char(0), '\u{100}');
    assert_eq!(byte_to_char(b'\n'), '\u{10A}');
    assert_eq!(byte_to_char(127), '\u{121}');
    assert_eq!(byte_to_char(160), '\u{142}');
    assert_eq!(byte_to_char(161), '\u{A1}');
    assert_eq!(byte_to_char(173), '\u{143}');
    assert_eq!(byte_to_char(255), '\u{FF}');
    assert_eq!(char_to_byte(' '), None);
    assert_eq!(char_to_byte('\u{144}'), None);
    assert_eq!(char_to_byte('\u{AD}'), None);
    let mut seen = std::collections::HashSet::new();
    for b in 0..=255u8 {
        let c = byte_to_char(b);
        assert_eq!(char_to_byte(c), Some(b));
        assert!(!c.is_whitespace() && !c.is_control());
        assert!(seen.insert(c));
    }
}

#[test]
fn test_merge_ranks() {
    let table = BpePairVocab::from_pairs(vec![
        ("a".to_owned(), "b".to_owned()),
        ("ab".to_owned(), "c".to_owned()),
        ("a".to_owned(), "b".to_owned()),
    ])
    .unwrap();
    assert_eq!(table.rank(&"a".to_owned(), &"b".to_owned()), Some(0));
    assert_eq!(table.rank(&"ab".to_owned(), &"c".to_owned()), Some(1));
    assert_eq!(table.rank(&"b".to_owned(), &"a".to_owned()), None);
}

#[test]
fn test_merges_text() {
    let text = "#version: 0.2\n\u{120} t\n  h e \nlonely\n\na  b c\r\nx y";
    let table = BpePairVocab::from_text(text).unwrap();
    let expected: Vec<((String, String), i64)> = vec![
        (("\u{120}".to_owned(), "t".to_owned()), 0),
        (("h".to_owned(), "e".to_owned()), 1),
        (("a".to_owned(), "".to_owned()), 2),
        (("x".to_owned(), "y".to_owned()), 3),
    ];
    assert_eq!(table.values, expected);
    assert!(BpePairVocab::from_text("").unwrap().values.is_empty());
    assert!(BpePairVocab::from_text("a b").unwrap().values.is_empty());
}

#[test]
fn test_bpe_merges_lowest_rank_first() {
    let pair = |a: &str, b: &str| (a.to_owned(), b.to_owned());
    let table =
        BpePairVocab::from_pairs(vec![pair("b", "c"), pair("a", "b"), pair("a", "bc")]).unwrap();
    assert_eq!(bpe("abc", &table), vec!["abc"]);
    assert_eq!(bpe("abab", &table), vec!["ab", "ab"]);
    assert_eq!(bpe("aaa", &BpePairVocab { values: vec![(pair("a", "a"), 0)] }), vec!["aa", "a"]);
    assert_eq!(bpe("", &table), Vec::<String>::new());
    assert_eq!(bpe("x", &table), vec!["x"]);
    assert_eq!(bpe("xy", &table), vec!["x", "y"]);
}

#[test]
fn test_split_takes_the_longest_special_symbol() {
    let entry = |s: &str, i: i64| (s.to_owned(), i);
    let mut vocab =
        Gpt2Vocab::from_values(vec![entry("<|endoftext|>", 0), entry("<a>", 1), entry("<a>b", 2)])
            .unwrap();
    vocab.special_values.push(entry("<a>", 1));
    vocab.special_values.push(entry("<a>b", 2));
    let fragments = split_on_special_tokens("x<a>by<a>", &vocab);
    let seen: Vec<(&str, bool)> =
        fragments.iter().map(|f| (f.text.as_str(), f.special)).collect();
    assert_eq!(seen, vec![("x", false), ("<a>b", true), ("y", false), ("<a>", true)]);
    assert!(split_on_special_tokens("", &vocab).is_empty());
}

use rust_tokenizers::merges::{BpePairVocab, IndexedPairs, Ranks};
use rust_tokenizers::places::{number, number_pair, Places};
use rust_tokenizers::vocab::{swap_key_values, Gpt2Vocab, IndexedVocab};
use std::rc::Rc;

#[test]
fn test_places_are_kept_under_their_numbers() {
    let mut places = Places::new();
    assert!(places.under(7).is_empty());
    for number in [7u64, 3, 7, 7, 0, 3] {
        places.push(number);
    }
    assert_eq!(*places.under(7), vec![0, 2, 3]);
    assert_eq!(*places.under(3), vec![1, 5]);
    assert_eq!(*places.under(0), vec![4]);
    assert!(places.under(1).is_empty());
}

#[test]
fn test_numbers_of_texts() {
    assert_eq!(number(""), 0);
    assert_eq!(number("a"), 98);
    assert_eq!(number("ab"), 98 * 257 + 99);
    assert_eq!(number("é"), (0xc3 + 1) * 257 + 0xa9 + 1);
    assert_eq!(number("the"), number(&String::from("the")));
    assert_ne!(number("ab"), number("ba"));
    assert_eq!(number_pair("a", "ab"), 98 * 0x1_0000_0000 + 98 * 257 + 99);
    let long = "x".repeat(1000);
    assert_eq!(number(&long), number(&"x".repeat(1000)));
    assert_ne!(number(&long), number(&"x".repeat(999)));
}

#[test]
fn test_indexed_pairs_rank_as_the_table_does() {
    let pair = |a: &str, b: &str| (a.to_owned(), b.to_owned());
    let table = Rc::new(BpePairVocab {
        values: vec![
            (pair("a", "b"), 5),
            (pair("Ġ", "t"), 0),
            (pair("a", "b"), 1),
            (pair("ab", ""), 2),
            (pair("", "ab"), 3),
        ],
    });
    let indexed = IndexedPairs::new(table.clone());
    let asked = [("a", "b"), ("Ġ", "t"), ("ab", ""), ("", "ab"), ("b", "a"), ("", ""), ("a", "")];
    for (a, b) in asked.iter() {
        let (a, b) = (a.to_string(), b.to_string());
        assert_eq!(indexed.rank_of_pair(&a, &b), table.rank(&a, &b));
        assert_eq!(table.rank_of_pair(&a, &b), table.rank(&a, &b));
    }
    assert_eq!(indexed.rank_of_pair(&"a".to_owned(), &"b".to_owned()), Some(5));
    assert_eq!(indexed.rank_of_pair(&"b".to_owned(), &"a".to_owned()), None);
}

#[test]
fn test_indexed_vocabulary_answers_as_the_vocabulary_does() {
    let values: Vec<(String, i64)> = vec![
        ("a".to_owned(), -3),
        ("<|endoftext|>".to_owned(), 7),
        ("b".to_owned(), i64::MIN),
        ("a".to_owned(), 9),
        ("c".to_owned(), 7),
        ("d".to_owned(), i64::MAX),
    ];
    let indices = swap_key_values(&values);
    let vocab = Rc::new(Gpt2Vocab {
        values,
        indices,
        unknown_value: "<|endoftext|>",
        special_values: vec![],
        special_indices: vec![],
    });
    let indexed = IndexedVocab::new(vocab.clone());
    for token in ["a", "b", "c", "d", "e", "", "<|endoftext|>"].iter() {
        assert_eq!(indexed.token_to_id(token), vocab.token_to_id(token));
    }
    assert_eq!(indexed.find_id("a"), Some(-3));
    assert_eq!(indexed.find_id("e"), None);
    for id in [-3i64, 7, 9, i64::MIN, i64::MAX, 0, 2, -4].iter() {
        assert_eq!(indexed.id_to_token(id), vocab.id_to_token(id));
    }
    assert_eq!(indexed.id_to_token(&7), "<|endoftext|>");
    assert_eq!(indexed.id_to_token(&0), "<|endoftext|>");
    assert_eq!(indexed.vocab().values.len(), 6);
}

#[test]
fn test_large_vocabulary() {
    let mut values: Vec<(String, i64)> = (0..30000).map(|i| (format!("symbol{}", i), i)).collect();
    values.push(("<|endoftext|>".to_owned(), 30000));
    let vocab = Rc::new(Gpt2Vocab::from_values(values).unwrap());
    let indexed = IndexedVocab::new(vocab.clone());
    for i in (0..30000).step_by(7) {
        assert_eq!(indexed.token_to_id(&format!("symbol{}", i)), i);
        assert_eq!(indexed.id_to_token(&i), format!("symbol{}", i));
    }
    assert_eq!(indexed.token_to_id("absent"), 30000);
}

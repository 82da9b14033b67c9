use rust_tokenizers::bpe::bpe;
use rust_tokenizers::merges::BpePairVocab;
use rust_tokenizers::text::{chars_of, is_whitespace, same_text, string_of_range, trim};

#[test]
fn test_white_space_is_that_of_unicode() {
    for v in 0..=0x10FFFFu32 {
        if let Some(c) = char::from_u32(v) {
            assert_eq!(is_whitespace(c), c.is_whitespace(), "U+{:04X}", v);
        }
    }
}

#[test]
fn test_trim_removes_white_space_at_both_ends() {
    let texts = ["", " ", "a", "  a b \n", "\u{a0}x\u{2003}", "no space", " \t\r\n", "é "];
    for text in texts.iter() {
        let trimmed: String = trim(&text.chars().collect()).into_iter().collect();
        assert_eq!(trimmed, text.trim());
    }
}

#[test]
fn test_code_points_of_a_string() {
    assert_eq!(chars_of("aé🙂"), vec!['a', 'é', '🙂']);
    assert_eq!(chars_of(""), Vec::<char>::new());
    assert_eq!(string_of_range(&vec!['a', 'é', '🙂', 'b'], 1, 3), "é🙂");
    assert_eq!(string_of_range(&vec!['a'], 1, 1), "");
    assert!(same_text("abc", "abc"));
    assert!(!same_text("abc", "abd"));
    assert!(!same_text("abc", "ab"));
}

#[test]
fn test_bpe_depends_on_word_and_rules_alone() {
    let pair = |a: &str, b: &str| (a.to_owned(), b.to_owned());
    let table = BpePairVocab::from_pairs(vec![pair("l", "l"), pair("h", "e"), pair("he", "ll")])
        .unwrap();
    let first = bpe("hello", &table);
    assert_eq!(first, vec!["hell", "o"]);
    assert_eq!(bpe("hello", &table), first);
    let other = BpePairVocab::from_pairs(vec![pair("h", "e"), pair("l", "l"), pair("he", "ll")])
        .unwrap();
    assert_eq!(bpe("hello", &other), first);
    assert_eq!(first.concat(), "hello");
}

#[test]
fn test_bpe_takes_the_leftmost_of_equal_ranks() {
    let pair = |a: &str, b: &str| (a.to_owned(), b.to_owned());
    let table = BpePairVocab { values: vec![(pair("b", "c"), 0), (pair("a", "b"), 0)] };
    assert_eq!(bpe("abc", &table), vec!["ab", "c"]);
    let shadowed = BpePairVocab { values: vec![(pair("a", "b"), 5), (pair("a", "b"), 1)] };
    assert_eq!(shadowed.rank(&"a".to_owned(), &"b".to_owned()), Some(5));
}

#[test]
fn test_word_cache_remembers_what_it_was_given() {
    let mut cache = rust_tokenizers::cache::WordCache::new();
    let word = |s: &str| s.to_owned();
    assert_eq!(cache.get(&word("the")), None);
    cache.insert(word("the"), &vec![word("th"), word("e")]);
    cache.insert(word("Ġear"), &vec![word("Ġear")]);
    assert_eq!(cache.get(&word("the")), Some(vec![word("th"), word("e")]));
    assert_eq!(cache.get(&word("Ġear")), Some(vec![word("Ġear")]));
    assert_eq!(cache.get(&word("th")), None);
    for i in 0..2000 {
        cache.insert(format!("w{}", i), &vec![format!("{}", i)]);
    }
    for i in 0..2000 {
        assert_eq!(cache.get(&format!("w{}", i)), Some(vec![format!("{}", i)]));
    }
    assert_eq!(cache.get(&word("w2000")), None);
}

use rust_tokenizers::pretokenize::{split_at_matches, split_before_trailing};

#[test]
fn test_chunks_are_cut_at_matches() {
    assert_eq!(split_at_matches("ab cd", &vec![(0, 2), (2, 5)]), vec!["ab", "Ġcd"]);
    assert_eq!(split_at_matches("", &vec![]), Vec::<String>::new());
    assert_eq!(split_at_matches("abc", &vec![]), vec!["abc"]);
    assert_eq!(split_at_matches("a\nb", &vec![(0, 1), (1, 2), (2, 3)]), vec!["a", "Ċ", "b"]);
    assert_eq!(split_at_matches("é", &vec![(0, 2)]), vec!["Ã©"]);
}

#[test]
fn test_chunks_cover_the_text_between_matches() {
    assert_eq!(split_at_matches("abc", &vec![(1, 2)]), vec!["a", "b", "c"]);
    assert_eq!(split_at_matches("abcd", &vec![(1, 1), (2, 3)]), vec!["a", "b", "c", "d"]);
    assert_eq!(split_at_matches("abcd", &vec![(2, 3)]), vec!["ab", "c", "d"]);
}

#[test]
fn test_ranges_out_of_order_are_moved_into_order() {
    assert_eq!(split_at_matches("abcd", &vec![(3, 1), (2, 100)]), vec!["abc", "d"]);
    assert_eq!(split_at_matches("abcd", &vec![(9, 9)]), vec!["abcd"]);
}

#[test]
fn test_parts_are_cut_before_the_last_white_space() {
    assert_eq!(split_before_trailing("a  b", &vec![(1, 4)]), vec!["a ", " b"]);
    assert_eq!(split_before_trailing("a b", &vec![(1, 3)]), vec!["a", " b"]);
    assert_eq!(split_before_trailing(" b", &vec![(0, 2)]), vec![" b"]);
    assert_eq!(split_before_trailing("ab", &vec![]), vec!["ab"]);
    assert_eq!(split_before_trailing("", &vec![]), Vec::<&str>::new());
    assert_eq!(
        split_before_trailing("a b  c", &vec![(1, 3), (3, 6)]),
        vec!["a", " b ", " c"]
    );
}

#[test]
fn test_parts_are_cut_at_code_points() {
    assert_eq!(split_before_trailing("a\u{2003}b", &vec![(1, 5)]), vec!["a", "\u{2003}b"]);
    assert_eq!(split_before_trailing("a \u{e9}", &vec![(1, 4)]), vec!["a", " \u{e9}"]);
    assert_eq!(split_before_trailing("\u{e9}\u{a0}\u{a0}x", &vec![(2, 7)]), vec![
        "\u{e9}\u{a0}",
        "\u{a0}x"
    ]);
    assert_eq!(split_before_trailing("ab", &vec![(0, 1)]), vec!["ab"]);
    assert_eq!(split_before_trailing("abc", &vec![(0, 3), (0, 2)]), vec!["a", "bc"]);
}

fn ranges(re: &regex::Regex, text: &str) -> Vec<(usize, usize)> {
    re.find_iter(text).map(|m| (m.start(), m.end())).collect()
}

fn visible_text(text: &str) -> String {
    text.bytes().map(rust_tokenizers::alphabet::byte_to_char).collect()
}

#[test]
fn test_chunks_are_the_matches_of_the_two_patterns() {
    let lookahead = regex::Regex::new(rust_tokenizers::pretokenize::LOOKAHEAD_PATTERN).unwrap();
    let tokenization =
        regex::Regex::new(rust_tokenizers::pretokenize::TOKENIZATION_PATTERN).unwrap();
    let texts = [
        "the Earth",
        "Hello, world!  It's 2024...\n\nI'll say: we've won 1st prize, haven't we?",
        "  two  spaces   and a tab\tthen\r\nnewlines \n ",
        "naïve café costs 12€ — 日本語のテキスト and emoji 🙂 !",
        "a",
        " ",
        "",
        "x'sy't'rez'vea'mb'llc'd'",
        "tabs\t\tand\u{b}vertical",
    ];
    for text in texts.iter() {
        // The matches alone, cut as the two patterns are meant to be used.
        let mut splits: Vec<&str> = vec![];
        let mut i: usize = 0;
        for hit in lookahead.find_iter(text) {
            let end = hit.end() - 1 - hit.as_str().chars().last().unwrap().len_utf8();
            splits.push(&text[i..end]);
            i = end;
        }
        splits.push(&text[i..]);
        let mut expected: Vec<String> = vec![];
        for sub_word in splits {
            for hit in tokenization.find_iter(sub_word) {
                expected.push(visible_text(hit.as_str()));
            }
        }

        let mut words: Vec<String> = vec![];
        for part in split_before_trailing(text, &ranges(&lookahead, text)) {
            words.extend(split_at_matches(part, &ranges(&tokenization, part)));
        }
        assert_eq!(words, expected);
    }
}

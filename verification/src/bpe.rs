//! The byte-pair-encoding engine: splits one word into sub-symbols by merging,
//! again and again, the adjacent pair of lowest rank.

use vstd::prelude::*;
use vstd::string::StringExecFns;
use crate::merges::{rank_of, MergeRules, Ranks};
use crate::text::{chars_of, push_char, texts};

verus! {

/// A word as a sequence of symbols of one code point each.
pub open spec fn symbols_of(word: Seq<char>) -> Seq<Seq<char>> {
    Seq::new(word.len(), |i: int| seq![word[i]])
}

/// The rank of the adjacent pair that starts at index `i` of `s`.
pub open spec fn pair_rank(rules: MergeRules, s: Seq<Seq<char>>, i: int) -> Option<i64> {
    rank_of(rules, s[i], s[i + 1])
}

/// True when the adjacent pair at index `i` has the lowest rank of all adjacent
/// pairs of `s` that the table knows, and is the leftmost pair of that rank.
pub open spec fn is_best_pair(rules: MergeRules, s: Seq<Seq<char>>, i: int) -> bool {
    &&& 0 <= i < s.len() - 1
    &&& pair_rank(rules, s, i) is Some
    &&& forall|j: int|
        0 <= j < s.len() - 1 && (#[trigger] pair_rank(rules, s, j)) is Some ==> {
            ||| pair_rank(rules, s, i)->0 < pair_rank(rules, s, j)->0
            ||| (pair_rank(rules, s, i)->0 == pair_rank(rules, s, j)->0 && i <= j)
        }
}

/// One pass over `s` from left to right that joins every occurrence of `a`
/// followed by `b`; occurrences do not overlap, the leftmost is taken first.
pub open spec fn merge_pass(s: Seq<Seq<char>>, a: Seq<char>, b: Seq<char>) -> Seq<Seq<char>>
    decreases s.len(),
{
    if s.len() == 0 {
        s
    } else if s.len() >= 2 && s[0] == a && s[1] == b {
        seq![a + b] + merge_pass(s.skip(2), a, b)
    } else {
        seq![s[0]] + merge_pass(s.skip(1), a, b)
    }
}

/// The symbols that remain when no adjacent pair of `s` is known to the table
/// any more, after merging the best pair pass by pass. A pass that changes
/// nothing would end the merging; a pass for the best pair always shortens
/// the sequence.
pub open spec fn bpe_steps(rules: MergeRules, s: Seq<Seq<char>>) -> Seq<Seq<char>>
    decreases s.len(),
{
    if exists|i: int| is_best_pair(rules, s, i) {
        let i = choose|i: int| is_best_pair(rules, s, i);
        let merged = merge_pass(s, s[i], s[i + 1]);
        if merged.len() < s.len() {
            bpe_steps(rules, merged)
        } else {
            s
        }
    } else {
        s
    }
}

/// The sub-symbols of a word under the given merge rules.
pub open spec fn bpe_spec(rules: MergeRules, word: Seq<char>) -> Seq<Seq<char>> {
    bpe_steps(rules, symbols_of(word))
}

/// A pass never lengthens the sequence, and one that keeps its length changes
/// nothing.
pub proof fn lemma_merge_pass_len(s: Seq<Seq<char>>, a: Seq<char>, b: Seq<char>)
    ensures
        merge_pass(s, a, b).len() <= s.len(),
        merge_pass(s, a, b).len() == s.len() ==> merge_pass(s, a, b) == s,
    decreases s.len(),
{
    if s.len() == 0 {
    } else if s.len() >= 2 && s[0] == a && s[1] == b {
        lemma_merge_pass_len(s.skip(2), a, b);
    } else {
        lemma_merge_pass_len(s.skip(1), a, b);
        if merge_pass(s, a, b).len() == s.len() {
            assert(merge_pass(s, a, b) =~= s);
        }
    }
}

/// A pass shortens a sequence in which the pair occurs.
pub proof fn lemma_merge_pass_shrinks(s: Seq<Seq<char>>, a: Seq<char>, b: Seq<char>, i: int)
    requires
        0 <= i < s.len() - 1,
        s[i] == a,
        s[i + 1] == b,
    ensures
        merge_pass(s, a, b).len() < s.len(),
    decreases s.len(),
{
    if s.len() >= 2 && s[0] == a && s[1] == b {
        lemma_merge_pass_len(s.skip(2), a, b);
    } else {
        lemma_merge_pass_shrinks(s.skip(1), a, b, i - 1);
    }
}

/// A pass keeps the concatenation of the symbols.
pub proof fn lemma_merge_pass_flatten(s: Seq<Seq<char>>, a: Seq<char>, b: Seq<char>)
    ensures
        merge_pass(s, a, b).flatten() == s.flatten(),
    decreases s.len(),
{
    if s.len() == 0 {
    } else if s.len() >= 2 && s[0] == a && s[1] == b {
        let rest = s.skip(2);
        lemma_merge_pass_flatten(rest, a, b);
        let m = merge_pass(rest, a, b);
        assert((seq![a + b] + m).drop_first() =~= m);
        assert(s.drop_first().drop_first() =~= rest);
        let tail = s.drop_first();
        assert(tail.flatten() =~= tail[0] + tail.drop_first().flatten());
        assert(s.flatten() =~= s[0] + (s[1] + rest.flatten()));
        assert((seq![a + b] + m).flatten() =~= (a + b) + m.flatten());
    } else {
        let rest = s.skip(1);
        lemma_merge_pass_flatten(rest, a, b);
        let m = merge_pass(rest, a, b);
        assert((seq![s[0]] + m).drop_first() =~= m);
        assert(s.drop_first() =~= rest);
    }
}

/// The symbols of a word, put together, are the word.
pub proof fn lemma_symbols_of_flatten(word: Seq<char>)
    ensures
        symbols_of(word).flatten() == word,
    decreases word.len(),
{
    if word.len() > 0 {
        lemma_symbols_of_flatten(word.drop_first());
        assert(symbols_of(word).drop_first() =~= symbols_of(word.drop_first()));
        assert(symbols_of(word).flatten() =~= word);
    } else {
        assert(symbols_of(word).flatten() =~= word);
    }
}

/// Merging keeps the concatenation of the symbols.
pub proof fn lemma_bpe_steps_flatten(rules: MergeRules, s: Seq<Seq<char>>)
    ensures
        bpe_steps(rules, s).flatten() == s.flatten(),
    decreases s.len(),
{
    if exists|i: int| is_best_pair(rules, s, i) {
        let i = choose|i: int| is_best_pair(rules, s, i);
        let merged = merge_pass(s, s[i], s[i + 1]);
        if merged.len() < s.len() {
            lemma_merge_pass_flatten(s, s[i], s[i + 1]);
            lemma_bpe_steps_flatten(rules, merged);
        }
    }
}

/// The sub-symbols of a word, put together in order, are the word.
pub proof fn lemma_bpe_concatenates_to_word(rules: MergeRules, word: Seq<char>)
    ensures
        bpe_spec(rules, word).flatten() == word,
{
    lemma_symbols_of_flatten(word);
    lemma_bpe_steps_flatten(rules, symbols_of(word));
}

/// Among the first `n` adjacent pairs, of which the table knows one, one has
/// the lowest rank and is the leftmost of that rank.
proof fn lemma_best_among(rules: MergeRules, s: Seq<Seq<char>>, n: int) -> (i: int)
    requires
        0 <= n <= s.len() - 1,
        exists|j: int| 0 <= j < n && (#[trigger] pair_rank(rules, s, j)) is Some,
    ensures
        0 <= i < n,
        pair_rank(rules, s, i) is Some,
        forall|k: int|
            0 <= k < n && (#[trigger] pair_rank(rules, s, k)) is Some ==> {
                ||| pair_rank(rules, s, i)->0 < pair_rank(rules, s, k)->0
                ||| (pair_rank(rules, s, i)->0 == pair_rank(rules, s, k)->0 && i <= k)
            },
    decreases n,
{
    if exists|j: int| 0 <= j < n - 1 && (#[trigger] pair_rank(rules, s, j)) is Some {
        let before = lemma_best_among(rules, s, n - 1);
        let last = pair_rank(rules, s, n - 1);
        if last is Some && last->0 < pair_rank(rules, s, before)->0 {
            n - 1
        } else {
            before
        }
    } else {
        n - 1
    }
}

/// Where the table knows an adjacent pair, one pair is the best.
pub proof fn lemma_best_pair_exists(rules: MergeRules, s: Seq<Seq<char>>, j: int)
    requires
        0 <= j < s.len() - 1,
        pair_rank(rules, s, j) is Some,
    ensures
        exists|i: int| #[trigger] is_best_pair(rules, s, i),
{
    let i = lemma_best_among(rules, s, s.len() - 1);
    assert(is_best_pair(rules, s, i));
}

/// Merging goes on as long as the table knows an adjacent pair: the best pair
/// is merged wherever it occurs, which shortens the sequence, and what is left
/// is merged further.
pub proof fn lemma_bpe_steps_merges_best_pair(rules: MergeRules, s: Seq<Seq<char>>, i: int)
    requires
        is_best_pair(rules, s, i),
    ensures
        merge_pass(s, s[i], s[i + 1]).len() < s.len(),
        bpe_steps(rules, s) == bpe_steps(rules, merge_pass(s, s[i], s[i + 1])),
{
    let c = choose|c: int| is_best_pair(rules, s, c);
    lemma_best_pair_unique(rules, s, i, c);
    lemma_merge_pass_shrinks(s, s[i], s[i + 1], i);
}

/// Merging ends with symbols of which the table knows no adjacent pair.
pub proof fn lemma_bpe_steps_is_final(rules: MergeRules, s: Seq<Seq<char>>, j: int)
    requires
        0 <= j < bpe_steps(rules, s).len() - 1,
    ensures
        pair_rank(rules, bpe_steps(rules, s), j) is None,
    decreases s.len(),
{
    if exists|i: int| is_best_pair(rules, s, i) {
        let i = choose|i: int| is_best_pair(rules, s, i);
        lemma_bpe_steps_merges_best_pair(rules, s, i);
        lemma_bpe_steps_is_final(rules, merge_pass(s, s[i], s[i + 1]), j);
    } else {
        if pair_rank(rules, s, j) is Some {
            lemma_best_pair_exists(rules, s, j);
        }
    }
}

/// At most one pair is the best.
pub proof fn lemma_best_pair_unique(rules: MergeRules, s: Seq<Seq<char>>, i: int, j: int)
    requires
        is_best_pair(rules, s, i),
        is_best_pair(rules, s, j),
    ensures
        i == j,
{
}

/// The index of the best adjacent pair of `symbols`, `None` when the table
/// knows none of them.
pub fn find_best_pair<R: Ranks>(symbols: &Vec<String>, rules: &R) -> (r: Option<usize>)
    ensures
        match r {
            Some(i) => is_best_pair(rules.rules(), texts(symbols@), i as int),
            None => forall|i: int| !is_best_pair(rules.rules(), texts(symbols@), i),
        },
{
    let ghost table = rules.rules();
    let ghost s = texts(symbols@);
    let n = symbols.len();
    if n < 2 {
        return None;
    }
    let mut best: Option<(usize, i64)> = None;
    let mut j: usize = 0;
    while j < n - 1
        invariant
            s == texts(symbols@),
            table == rules.rules(),
            n == symbols@.len(),
            n >= 2,
            j <= n - 1,
            match best {
                Some((i, r)) => {
                    &&& i < j
                    &&& pair_rank(table, s, i as int) == Some(r)
                    &&& forall|k: int|
                        0 <= k < j && (#[trigger] pair_rank(table, s, k)) is Some ==> {
                            ||| r < pair_rank(table, s, k)->0
                            ||| (r == pair_rank(table, s, k)->0 && i <= k)
                        }
                },
                None => forall|k: int| 0 <= k < j ==> (#[trigger] pair_rank(table, s, k)) is None,
            },
        decreases symbols@.len() - j,
    {
        let found = rules.rank_of_pair(&symbols[j], &symbols[j + 1]);
        assert(found == pair_rank(table, s, j as int));
        match found {
            Some(r) => {
                let better = match best {
                    Some((_, lowest)) => r < lowest,
                    None => true,
                };
                if better {
                    best = Some((j, r));
                }
            },
            None => {},
        }
        j += 1;
    }
    match best {
        Some((i, _)) => Some(i),
        None => None,
    }
}

/// One merge pass over `symbols` for the pair `(a, b)`.
pub fn merge_pair(symbols: &Vec<String>, a: &String, b: &String) -> (r: Vec<String>)
    ensures
        texts(r@) == merge_pass(texts(symbols@), a@, b@),
{
    let ghost s = texts(symbols@);
    let mut out: Vec<String> = Vec::new();
    let mut i: usize = 0;
    assert(s.skip(0) =~= s);
    assert(texts(out@) + merge_pass(s, a@, b@) =~= merge_pass(s, a@, b@));
    while i < symbols.len()
        invariant
            s == texts(symbols@),
            i <= symbols@.len(),
            merge_pass(s, a@, b@) == texts(out@) + merge_pass(s.skip(i as int), a@, b@),
        decreases symbols@.len() - i,
    {
        let ghost before = texts(out@);
        let ghost tail = s.skip(i as int);
        assert(tail[0] == s[i as int]);
        if i + 1 < symbols.len() && symbols[i] == *a && symbols[i + 1] == *b {
            assert(tail[1] == s[i + 1]);
            let joined = a.clone().concat(b.as_str());
            out.push(joined);
            i += 2;
            proof {
                assert(tail.skip(2) =~= s.skip(i as int));
                assert(texts(out@) =~= before + seq![a@ + b@]);
                assert(before + (seq![a@ + b@] + merge_pass(tail.skip(2), a@, b@)) =~= (before
                    + seq![a@ + b@]) + merge_pass(tail.skip(2), a@, b@));
            }
        } else {
            out.push(symbols[i].clone());
            i += 1;
            proof {
                assert(tail.skip(1) =~= s.skip(i as int));
                assert(texts(out@) =~= before + seq![tail[0]]);
                assert(before + (seq![tail[0]] + merge_pass(tail.skip(1), a@, b@)) =~= (before
                    + seq![tail[0]]) + merge_pass(tail.skip(1), a@, b@));
            }
        }
    }
    assert(texts(out@) + merge_pass(s.skip(i as int), a@, b@) =~= texts(out@));
    out
}

/// Splits a word of the visible alphabet into its sub-symbols. The result
/// depends on the word and the merge rules alone, and its symbols put together
/// are the word.
pub fn bpe<R: Ranks>(token: &str, bpe_ranks: &R) -> (r: Vec<String>)
    ensures
        texts(r@) == bpe_spec(bpe_ranks.rules(), token@),
        texts(r@).flatten() == token@,
{
    let ghost table = bpe_ranks.rules();
    let chars = chars_of(token);
    let mut symbols: Vec<String> = Vec::new();
    let mut k: usize = 0;
    while k < chars.len()
        invariant
            k <= chars@.len(),
            chars@ == token@,
            texts(symbols@) == symbols_of(token@).take(k as int),
        decreases chars@.len() - k,
    {
        let ghost before = texts(symbols@);
        let mut one = String::new();
        push_char(&mut one, chars[k]);
        assert(one@ =~= seq![token@[k as int]]);
        symbols.push(one);
        assert(texts(symbols@) =~= before.push(seq![token@[k as int]]));
        k += 1;
        assert(texts(symbols@) =~= symbols_of(token@).take(k as int));
    }
    assert(symbols_of(token@).take(k as int) =~= symbols_of(token@));
    proof {
        lemma_bpe_concatenates_to_word(table, token@);
    }
    loop
        invariant
            table == bpe_ranks.rules(),
            bpe_steps(table, texts(symbols@)) == bpe_spec(table, token@),
            bpe_spec(table, token@).flatten() == token@,
        decreases symbols@.len(),
    {
        match find_best_pair(&symbols, bpe_ranks) {
            None => {
                return symbols;
            },
            Some(i) => {
                proof {
                    let s = texts(symbols@);
                    let c = choose|c: int| is_best_pair(table, s, c);
                    lemma_best_pair_unique(table, s, i as int, c);
                    lemma_merge_pass_len(s, s[i as int], s[i + 1]);
                }
                let n = symbols.len();
                assert(i + 1 < n);
                let merged = merge_pair(&symbols, &symbols[i], &symbols[i + 1]);
                if merged.len() >= symbols.len() {
                    return symbols;
                }
                symbols = merged;
            },
        }
    }
}

} // verus!

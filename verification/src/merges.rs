//! The merge table: an ordered list of symbol pairs, each with its rank.

use vstd::prelude::*;
use std::rc::Rc;
use crate::places::{lemma_first_under, number_of_pair, number_pair, places_under, Places};
use crate::text::{chars_of, string_of_range, trim, trimmed};

verus! {

/// A merge table as plain values: pairs of symbols with their ranks, in the
/// order in which they were given.
pub type MergeRules = Seq<((Seq<char>, Seq<char>), i64)>;

/// The rank of the pair `(a, b)`: that of the first rule for it, `None` when
/// the table has no rule for the pair.
pub open spec fn rank_of(rules: MergeRules, a: Seq<char>, b: Seq<char>) -> Option<i64>
    decreases rules.len(),
{
    if rules.len() == 0 {
        None
    } else if rules[0].0.0 == a && rules[0].0.1 == b {
        Some(rules[0].1)
    } else {
        rank_of(rules.drop_first(), a, b)
    }
}

/// The index of the first `c` in `s`; the length of `s` when it holds none.
pub open spec fn first_index_of(s: Seq<char>, c: char) -> nat
    decreases s.len(),
{
    if s.len() == 0 || s[0] == c {
        0
    } else {
        1 + first_index_of(s.drop_first(), c)
    }
}

/// The pieces of `s` between the occurrences of `c`.
pub open spec fn split_at_char(s: Seq<char>, c: char) -> Seq<Seq<char>>
    decreases s.len(),
{
    let i = first_index_of(s, c) as int;
    if i >= s.len() {
        seq![s]
    } else {
        seq![s.take(i)] + split_at_char(s.skip(i + 1), c)
    }
}

/// The pair that a line of a merges text names: the first two of the fields
/// that single spaces part, once the white space at both ends is gone. A line
/// with one field names none.
pub open spec fn pair_of_line(line: Seq<char>) -> Option<(Seq<char>, Seq<char>)> {
    let fields = split_at_char(trimmed(line), ' ');
    if fields.len() >= 2 {
        Some((fields[0], fields[1]))
    } else {
        None
    }
}

/// The pairs that the lines name, in order.
pub open spec fn pairs_of_lines(lines: Seq<Seq<char>>) -> Seq<(Seq<char>, Seq<char>)>
    decreases lines.len(),
{
    if lines.len() == 0 {
        Seq::empty()
    } else {
        match pair_of_line(lines.last()) {
            Some(pair) => pairs_of_lines(lines.drop_last()).push(pair),
            None => pairs_of_lines(lines.drop_last()),
        }
    }
}

/// The pairs of a merges text: those of its lines but the first, which holds
/// the version.
pub open spec fn merge_pairs(text: Seq<char>) -> Seq<(Seq<char>, Seq<char>)> {
    pairs_of_lines(split_at_char(text, '\n').drop_first())
}

/// The pairs ranked by their position, the first with rank 0.
pub open spec fn ranked(pairs: Seq<(Seq<char>, Seq<char>)>) -> MergeRules {
    Seq::new(pairs.len(), |i: int| (pairs[i], i as i64))
}

/// The pairs of strings as plain values.
pub open spec fn pair_texts(pairs: Seq<(String, String)>) -> Seq<(Seq<char>, Seq<char>)> {
    Seq::new(pairs.len(), |i: int| (pairs[i].0@, pairs[i].1@))
}

/// The first occurrence lies within the text or at its end, and nothing
/// before it is the code point looked for.
pub proof fn lemma_first_index_of(s: Seq<char>, c: char)
    ensures
        first_index_of(s, c) <= s.len(),
        first_index_of(s, c) < s.len() ==> s[first_index_of(s, c) as int] == c,
        forall|k: int| 0 <= k < first_index_of(s, c) ==> s[k] != c,
    decreases s.len(),
{
    if s.len() == 0 || s[0] == c {
    } else {
        let rest = s.drop_first();
        lemma_first_index_of(rest, c);
        assert forall|k: int| 0 <= k < first_index_of(s, c) implies s[k] != c by {
            if k > 0 {
                assert(rest[k - 1] == s[k]);
            }
        }
    }
}

/// The index of the first `c` at or after index `from`; the length of the list
/// when there is none.
fn index_of_from(chars: &Vec<char>, from: usize, c: char) -> (i: usize)
    requires
        from <= chars@.len(),
    ensures
        from <= i <= chars@.len(),
        i - from == first_index_of(chars@.skip(from as int), c),
{
    let n = chars.len();
    let mut i: usize = from;
    while i < n && chars[i] != c
        invariant
            from <= i <= n == chars@.len(),
            first_index_of(chars@.skip(from as int), c) == (i - from) + first_index_of(
                chars@.skip(i as int),
                c,
            ),
        decreases n - i,
    {
        assert(chars@.skip(i as int).drop_first() =~= chars@.skip(i + 1));
        i += 1;
    }
    assert(first_index_of(chars@.skip(i as int), c) == 0) by {
        if i < n {
            assert(chars@.skip(i as int)[0] == chars@[i as int]);
        }
    }
    i
}

/// The pair that a line names.
fn pair_of(line: &Vec<char>) -> (r: Option<(String, String)>)
    ensures
        match r {
            Some(pair) => pair_of_line(line@) == Some((pair.0@, pair.1@)),
            None => pair_of_line(line@) is None,
        },
{
    let t = trim(line);
    let n = t.len();
    assert(t@.skip(0) =~= t@);
    let i = index_of_from(&t, 0, ' ');
    if i >= n {
        return None;
    }
    let j = index_of_from(&t, i + 1, ' ');
    let first = string_of_range(&t, 0, i);
    let second = string_of_range(&t, i + 1, j);
    proof {
        let rest = t@.skip(i + 1);
        let fields = split_at_char(t@, ' ');
        let more = split_at_char(rest, ' ');
        lemma_first_index_of(rest, ' ');
        assert(fields =~= seq![t@.take(i as int)] + more);
        assert(more[0] == rest.take(j - (i + 1))) by {
            if j - (i + 1) >= rest.len() {
                assert(rest.take(j - (i + 1)) =~= rest);
            }
        }
        assert(rest.take(j - (i + 1)) =~= t@.subrange(i + 1, j as int));
        assert(t@.take(i as int) =~= t@.subrange(0, i as int));
        assert(fields[1] == more[0]);
    }
    Some((first, second))
}

/// The merge rules of a byte-pair encoding. A lower rank is a merge that was
/// learned earlier and is applied first.
pub struct BpePairVocab {
    pub values: Vec<((String, String), i64)>,
}

impl View for BpePairVocab {
    type V = MergeRules;

    open spec fn view(&self) -> MergeRules {
        Seq::new(
            self.values@.len(),
            |i: int| ((self.values@[i].0.0@, self.values@[i].0.1@), self.values@[i].1),
        )
    }
}

impl BpePairVocab {
    /// The table that ranks the given pairs by their position, the first pair
    /// with rank 0. `None` when there are more pairs than ranks.
    pub fn from_pairs(pairs: Vec<(String, String)>) -> (r: Option<BpePairVocab>)
        ensures
            r is Some <==> pairs@.len() <= i64::MAX,
            r matches Some(table) ==> {
                &&& table@.len() == pairs@.len()
                &&& forall|i: int|
                    0 <= i < pairs@.len() ==> #[trigger] table@[i] == (
                        (pairs@[i].0@, pairs@[i].1@),
                        i as i64,
                    )
            },
    {
        if pairs.len() as u64 > i64::MAX as u64 {
            return None;
        }
        let mut values: Vec<((String, String), i64)> = Vec::new();
        let mut i: usize = 0;
        while i < pairs.len()
            invariant
                i <= pairs@.len() <= i64::MAX,
                values@.len() == i,
                forall|k: int|
                    0 <= k < i ==> #[trigger] values@[k] == (pairs@[k], k as i64),
            decreases pairs@.len() - i,
        {
            let first = pairs[i].0.clone();
            let second = pairs[i].1.clone();
            values.push(((first, second), i as i64));
            i += 1;
        }
        let table = BpePairVocab { values };
        proof {
            assert forall|k: int| 0 <= k < pairs@.len() implies #[trigger] table@[k] == (
                (pairs@[k].0@, pairs@[k].1@),
                k as i64,
            ) by {
                assert(table.values@[k] == (pairs@[k], k as i64));
            }
        }
        Some(table)
    }

    /// The table of a merges text: the pairs that its lines name, but for the
    /// first line, ranked in their order. `None` when there are more pairs
    /// than ranks.
    pub fn from_text(text: &str) -> (r: Option<BpePairVocab>)
        ensures
            r is Some <==> merge_pairs(text@).len() <= i64::MAX,
            r matches Some(table) ==> table@ == ranked(merge_pairs(text@)),
    {
        let chars = chars_of(text);
        let n = chars.len();
        let mut pairs: Vec<(String, String)> = Vec::new();
        let ghost lines = split_at_char(chars@, '\n').drop_first();
        let ghost mut done: Seq<Seq<char>> = Seq::empty();
        assert(chars@.skip(0) =~= chars@);
        let first_end = index_of_from(&chars, 0, '\n');
        assert(pair_texts(pairs@) =~= pairs_of_lines(done));
        if first_end < n {
            let mut pos: usize = first_end + 1;
            proof {
                let rest = split_at_char(chars@.skip(pos as int), '\n');
                assert((seq![chars@.take(first_end as int)] + rest).drop_first() =~= rest);
                assert(done + rest =~= rest);
            }
            loop
                invariant_except_break
                    lines == done + split_at_char(chars@.skip(pos as int), '\n'),
                invariant
                    pos <= n == chars@.len(),
                    pair_texts(pairs@) == pairs_of_lines(done),
                ensures
                    lines == done,
                decreases n - pos,
            {
                let end = index_of_from(&chars, pos, '\n');
                let ghost tail = chars@.skip(pos as int);
                let ghost line = chars@.subrange(pos as int, end as int);
                let ghost before = done;
                let mut held: Vec<char> = Vec::new();
                let mut k: usize = pos;
                while k < end
                    invariant
                        pos <= k <= end <= n == chars@.len(),
                        held@ == chars@.subrange(pos as int, k as int),
                    decreases end - k,
                {
                    held.push(chars[k]);
                    k += 1;
                    assert(held@ =~= chars@.subrange(pos as int, k as int));
                }
                let ghost so_far = pair_texts(pairs@);
                match pair_of(&held) {
                    Some(pair) => {
                        pairs.push(pair);
                        assert(pair_texts(pairs@) =~= so_far.push((pair.0@, pair.1@)));
                    },
                    None => {},
                }
                proof {
                    assert(tail.take(end - pos) =~= line);
                    done = before.push(line);
                    assert(done.drop_last() =~= before);
                    if end >= n {
                        assert(line =~= tail);
                        assert(before + seq![line] =~= done);
                    } else {
                        assert(tail.skip(end - pos + 1) =~= chars@.skip(end + 1));
                        assert(before + (seq![line] + split_at_char(chars@.skip(end + 1), '\n'))
                            =~= done + split_at_char(chars@.skip(end + 1), '\n'));
                    }
                }
                if end >= n {
                    break;
                }
                pos = end + 1;
            }
        } else {
            assert(lines =~= done);
        }
        let ghost given = pair_texts(pairs@);
        match BpePairVocab::from_pairs(pairs) {
            Some(table) => {
                assert(table@ =~= ranked(given));
                Some(table)
            },
            None => None,
        }
    }

    /// The rank of the pair `(a, b)`, `None` when the table has no rule for it.
    pub fn rank(&self, a: &String, b: &String) -> (r: Option<i64>)
        ensures
            r == rank_of(self@, a@, b@),
    {
        let mut i: usize = 0;
        assert(self@.skip(0) =~= self@);
        while i < self.values.len()
            invariant
                i <= self.values@.len(),
                rank_of(self@, a@, b@) == rank_of(self@.skip(i as int), a@, b@),
            decreases self.values@.len() - i,
        {
            let entry = &self.values[i];
            proof {
                let tail = self@.skip(i as int);
                assert(tail[0] == self@[i as int]);
                assert(tail.drop_first() =~= self@.skip(i + 1));
            }
            if entry.0.0 == *a && entry.0.1 == *b {
                return Some(entry.1);
            }
            i += 1;
        }
        None
    }
}

/// Merge rules that tell the rank of a pair.
pub trait Ranks {
    /// The rules as plain values.
    spec fn rules(&self) -> MergeRules;

    /// The rank of the pair `(a, b)`, `None` when there is no rule for it.
    fn rank_of_pair(&self, a: &String, b: &String) -> (r: Option<i64>)
        ensures
            r == rank_of(self.rules(), a@, b@),
    ;
}

impl Ranks for BpePairVocab {
    open spec fn rules(&self) -> MergeRules {
        self@
    }

    fn rank_of_pair(&self, a: &String, b: &String) -> (r: Option<i64>) {
        self.rank(a, b)
    }
}

/// The first rule for a pair is the rule whose rank the pair has.
pub proof fn lemma_rank_of(rules: MergeRules, a: Seq<char>, b: Seq<char>)
    ensures
        match rank_of(rules, a, b) {
            Some(rank) => exists|i: int|
                0 <= i < rules.len() && #[trigger] rules[i] == ((a, b), rank) && forall|j: int|
                    0 <= j < i ==> (#[trigger] rules[j]).0 != (a, b),
            None => forall|i: int| 0 <= i < rules.len() ==> (#[trigger] rules[i]).0 != (a, b),
        },
    decreases rules.len(),
{
    if rules.len() == 0 {
    } else if rules[0].0.0 == a && rules[0].0.1 == b {
        assert(rules[0] == ((a, b), rules[0].1));
    } else {
        let rest = rules.drop_first();
        lemma_rank_of(rest, a, b);
        match rank_of(rest, a, b) {
            Some(rank) => {
                let i = choose|i: int|
                    0 <= i < rest.len() && #[trigger] rest[i] == ((a, b), rank) && forall|j: int|
                        0 <= j < i ==> (#[trigger] rest[j]).0 != (a, b);
                assert(rules[i + 1] == ((a, b), rank));
                assert forall|j: int| 0 <= j < i + 1 implies (#[trigger] rules[j]).0 != (a, b) by {
                    if j > 0 {
                        assert(rest[j - 1] == rules[j]);
                    }
                }
            },
            None => {
                assert forall|i: int| 0 <= i < rules.len() implies (#[trigger] rules[i]).0 != (
                    a,
                    b,
                ) by {
                    if i > 0 {
                        assert(rest[i - 1] == rules[i]);
                    }
                }
            },
        }
    }
}

/// The numbers of the pairs of the rules.
pub open spec fn numbers_of_rules(rules: MergeRules) -> Seq<u64> {
    Seq::new(rules.len(), |i: int| number_of_pair(rules[i].0.0, rules[i].0.1))
}

/// Merge rules with the places of their pairs, so that the rank of a pair is
/// found without a look at all the rules.
pub struct IndexedPairs {
    table: Rc<BpePairVocab>,
    places: Places,
}

impl IndexedPairs {
    /// The places are those of the rules.
    #[verifier::type_invariant]
    spec fn well_formed(self) -> bool {
        self.places.numbers() == numbers_of_rules(self.table@)
    }

    /// The rules.
    pub closed spec fn table(self) -> BpePairVocab {
        *self.table
    }

    /// Notes the places of the pairs of a table.
    pub fn new(table: Rc<BpePairVocab>) -> (r: IndexedPairs)
        ensures
            r.table() == *table,
    {
        let mut places = Places::new();
        let mut i: usize = 0;
        let ghost all = table@;
        assert(places.numbers() =~= numbers_of_rules(all.take(0)));
        while i < table.values.len()
            invariant
                i <= table.values@.len(),
                all == table@,
                places.numbers() == numbers_of_rules(all.take(i as int)),
            decreases table.values@.len() - i,
        {
            let pair = &table.values[i].0;
            places.push(number_pair(pair.0.as_str(), pair.1.as_str()));
            i += 1;
            assert(places.numbers() =~= numbers_of_rules(all.take(i as int)));
        }
        assert(all.take(i as int) =~= all);
        IndexedPairs { table, places }
    }
}

impl Ranks for IndexedPairs {
    open spec fn rules(&self) -> MergeRules {
        self.table()@
    }

    fn rank_of_pair(&self, a: &String, b: &String) -> (r: Option<i64>) {
        proof {
            use_type_invariant(self);
        }
        let ghost all = self.table@;
        let ghost hit = |i: int| all[i].0 == (a@, b@);
        let wanted = number_pair(a.as_str(), b.as_str());
        let found = self.places.under(wanted);
        let mut k: usize = 0;
        while k < found.len()
            invariant
                k <= found@.len(),
                all == self.table@,
                hit == |i: int| all[i].0 == (a@, b@),
                places_under(found@, numbers_of_rules(all), wanted),
                forall|j: int| 0 <= j < k ==> !hit(#[trigger] found@[j] as int),
            decreases found@.len() - k,
        {
            let place = found[k];
            let entry = &self.table.values[place];
            if entry.0.0 == *a && entry.0.1 == *b {
                proof {
                    lemma_first_under(found@, numbers_of_rules(all), wanted, hit, k as int);
                    lemma_rank_of(all, a@, b@);
                    assert(all[place as int] == ((a@, b@), entry.1));
                    assert forall|i: int| 0 <= i < place implies (#[trigger] all[i]).0 != (
                        a@,
                        b@,
                    ) by {
                        assert(!hit(i));
                    }
                }
                return Some(entry.1);
            }
            k += 1;
        }
        proof {
            lemma_first_under(found@, numbers_of_rules(all), wanted, hit, k as int);
            lemma_rank_of(all, a@, b@);
            assert forall|i: int| 0 <= i < all.len() implies (#[trigger] all[i]).0 != (a@, b@) by {
                assert(!hit(i));
            }
        }
        None
    }
}

} // verus!

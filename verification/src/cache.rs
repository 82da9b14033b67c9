//! The memory of the tokenizer: words of the visible alphabet with the
//! sub-symbols that were found for them.

use vstd::prelude::*;
use crate::places::{lemma_first_under, number, number_of, places_under, Places};
use crate::text::texts;

verus! {

/// A word with its sub-symbols, as plain values.
pub type Remembered = (Seq<char>, Seq<Seq<char>>);

/// What is remembered for a word: the sub-symbols of the first entry for it,
/// `None` when there is no entry for the word.
pub open spec fn remembered(entries: Seq<Remembered>, word: Seq<char>) -> Option<Seq<Seq<char>>>
    decreases entries.len(),
{
    if entries.len() == 0 {
        None
    } else if entries[0].0 == word {
        Some(entries[0].1)
    } else {
        remembered(entries.drop_first(), word)
    }
}

/// What is found for a word is what the first entry for it holds.
pub proof fn lemma_remembered(entries: Seq<Remembered>, word: Seq<char>)
    ensures
        match remembered(entries, word) {
            Some(symbols) => exists|i: int|
                0 <= i < entries.len() && #[trigger] entries[i] == (word, symbols) && forall|j: int|
                    0 <= j < i ==> (#[trigger] entries[j]).0 != word,
            None => forall|i: int| 0 <= i < entries.len() ==> (#[trigger] entries[i]).0 != word,
        },
    decreases entries.len(),
{
    if entries.len() == 0 {
    } else if entries[0].0 == word {
        assert(entries[0] == (word, entries[0].1));
    } else {
        let rest = entries.drop_first();
        lemma_remembered(rest, word);
        match remembered(rest, word) {
            Some(symbols) => {
                let i = choose|i: int|
                    0 <= i < rest.len() && #[trigger] rest[i] == (word, symbols) && forall|j: int|
                        0 <= j < i ==> (#[trigger] rest[j]).0 != word;
                assert(entries[i + 1] == (word, symbols));
                assert forall|j: int| 0 <= j < i + 1 implies (#[trigger] entries[j]).0 != word by {
                    if j > 0 {
                        assert(rest[j - 1] == entries[j]);
                    }
                }
            },
            None => {
                assert forall|i: int| 0 <= i < entries.len() implies (#[trigger] entries[i]).0
                    != word by {
                    if i > 0 {
                        assert(rest[i - 1] == entries[i]);
                    }
                }
            },
        }
    }
}

/// Words with their sub-symbols. A word is found by its number.
pub struct WordCache {
    entries: Vec<(String, Vec<String>)>,
    places: Places,
}

/// A copy of a list of symbols.
fn copy_of(symbols: &Vec<String>) -> (r: Vec<String>)
    ensures
        texts(r@) == texts(symbols@),
{
    let mut out: Vec<String> = Vec::new();
    let mut i: usize = 0;
    while i < symbols.len()
        invariant
            i <= symbols@.len(),
            out@.len() == i,
            forall|k: int| 0 <= k < i ==> (#[trigger] out@[k])@ == symbols@[k]@,
        decreases symbols@.len() - i,
    {
        out.push(symbols[i].clone());
        i += 1;
    }
    assert(texts(out@) =~= texts(symbols@));
    out
}

/// The entries as plain values.
pub open spec fn entry_views(entries: Seq<(String, Vec<String>)>) -> Seq<Remembered> {
    Seq::new(entries.len(), |i: int| (entries[i].0@, texts(entries[i].1@)))
}

/// The numbers of the words of the entries.
pub open spec fn numbers_of(entries: Seq<Remembered>) -> Seq<u64> {
    Seq::new(entries.len(), |i: int| number_of(entries[i].0))
}

impl WordCache {
    /// The places are those of the entries.
    #[verifier::type_invariant]
    spec fn well_formed(self) -> bool {
        self.places.numbers() == numbers_of(entry_views(self.entries@))
    }

    /// What is remembered, in the order in which it came.
    pub closed spec fn view(self) -> Seq<Remembered> {
        entry_views(self.entries@)
    }

    /// A cache that remembers nothing.
    pub fn new() -> (cache: WordCache)
        ensures
            cache.view() == Seq::<Remembered>::empty(),
    {
        let places = Places::new();
        assert(places.numbers() =~= numbers_of(entry_views(Seq::empty())));
        let cache = WordCache { entries: Vec::new(), places };
        assert(cache.view() =~= Seq::<Remembered>::empty());
        cache
    }

    /// A copy of the sub-symbols that are remembered for a word; `None` for a
    /// word for which nothing is remembered.
    pub fn get(&self, word: &String) -> (r: Option<Vec<String>>)
        ensures
            match r {
                Some(symbols) => remembered(self.view(), word@) == Some(texts(symbols@)),
                None => remembered(self.view(), word@) is None,
            },
    {
        proof {
            use_type_invariant(self);
        }
        let ghost all = self.view();
        let ghost hit = |i: int| all[i].0 == word@;
        let wanted = number(word.as_str());
        let found = self.places.under(wanted);
        let mut k: usize = 0;
        while k < found.len()
            invariant
                k <= found@.len(),
                all == entry_views(self.entries@),
                hit == |i: int| all[i].0 == word@,
                places_under(found@, numbers_of(all), wanted),
                forall|j: int| 0 <= j < k ==> !hit(#[trigger] found@[j] as int),
            decreases found@.len() - k,
        {
            let place = found[k];
            if self.entries[place].0 == *word {
                let symbols = copy_of(&self.entries[place].1);
                proof {
                    lemma_first_under(found@, numbers_of(all), wanted, hit, k as int);
                    lemma_remembered(all, word@);
                    assert(all[place as int] == (word@, texts(symbols@)));
                    assert forall|i: int| 0 <= i < place implies (#[trigger] all[i]).0
                        != word@ by {
                        assert(!hit(i));
                    }
                }
                return Some(symbols);
            }
            k += 1;
        }
        proof {
            lemma_first_under(found@, numbers_of(all), wanted, hit, k as int);
            lemma_remembered(all, word@);
            assert forall|i: int| 0 <= i < all.len() implies (#[trigger] all[i]).0 != word@ by {
                assert(!hit(i));
            }
        }
        None
    }

    /// Remembers a copy of the sub-symbols of a word, after all that is
    /// remembered already.
    pub fn insert(&mut self, word: String, symbols: &Vec<String>)
        ensures
            final(self).view() == old(self).view().push((word@, texts(symbols@))),
    {
        proof {
            use_type_invariant(&*self);
        }
        let ghost before = self.view();
        let mut taken = WordCache::new();
        std::mem::swap(self, &mut taken);
        let WordCache { mut entries, mut places } = taken;
        places.push(number(word.as_str()));
        entries.push((word, copy_of(symbols)));
        proof {
            let after = entry_views(entries@);
            assert(after =~= before.push((word@, texts(symbols@))));
            assert(places.numbers() =~= numbers_of(after));
        }
        *self = WordCache { entries, places };
    }
}

} // verus!

//! The vocabulary: symbols and their ids, with a fallback for what is unknown
//! and a registry of special symbols.

use vstd::prelude::*;
use vstd::pervasive::unreached;
use std::collections::BTreeMap;
use std::rc::Rc;
use crate::places::{lemma_first_under, number, number_of, places_under, Places};

verus! {

/// A table from symbols to ids as plain values, in the order of its entries.
pub type SymbolIds = Seq<(Seq<char>, i64)>;

/// A table from ids to symbols as plain values, in the order of its entries.
pub type IdSymbols = Seq<(i64, Seq<char>)>;

/// The id of `symbol`: that of the first entry for it, `None` when there is
/// no entry for the symbol.
pub open spec fn id_of(entries: SymbolIds, symbol: Seq<char>) -> Option<i64>
    decreases entries.len(),
{
    if entries.len() == 0 {
        None
    } else if entries[0].0 == symbol {
        Some(entries[0].1)
    } else {
        id_of(entries.drop_first(), symbol)
    }
}

/// The symbol of `id`: that of the first entry for it, `None` when there is no
/// entry for the id.
pub open spec fn symbol_of(entries: IdSymbols, id: i64) -> Option<Seq<char>>
    decreases entries.len(),
{
    if entries.len() == 0 {
        None
    } else if entries[0].0 == id {
        Some(entries[0].1)
    } else {
        symbol_of(entries.drop_first(), id)
    }
}

/// The entries of a symbol table as plain values.
pub open spec fn symbol_ids(v: Seq<(String, i64)>) -> SymbolIds {
    Seq::new(v.len(), |i: int| (v[i].0@, v[i].1))
}

/// The entries of an id table as plain values.
pub open spec fn id_symbols(v: Seq<(i64, String)>) -> IdSymbols {
    Seq::new(v.len(), |i: int| (v[i].0, v[i].1@))
}

/// The table read the other way round, entry by entry.
pub open spec fn swapped(entries: SymbolIds) -> IdSymbols {
    Seq::new(entries.len(), |i: int| (entries[i].1, entries[i].0))
}

/// True when no symbol has two entries.
pub open spec fn distinct_symbols(entries: SymbolIds) -> bool {
    forall|i: int, j: int|
        0 <= i < j < entries.len() ==> (#[trigger] entries[i]).0 != (#[trigger] entries[j]).0
}

/// True when no id has two entries.
pub open spec fn distinct_ids(entries: SymbolIds) -> bool {
    forall|i: int, j: int|
        0 <= i < j < entries.len() ==> (#[trigger] entries[i]).1 != (#[trigger] entries[j]).1
}

/// True when every entry of `part` is an entry of `whole`.
pub open spec fn included(part: SymbolIds, whole: SymbolIds) -> bool {
    forall|i: int| 0 <= i < part.len() ==> whole.contains(#[trigger] part[i])
}

/// Why a vocabulary could not be made.
#[derive(Debug, Clone, Copy, PartialEq, Eq, Structural)]
pub enum VocabError {
    /// The text is no JSON object of symbols with integer ids.
    Malformed,
    /// A symbol was given two ids.
    DuplicateSymbol,
    /// An id was given to two symbols.
    DuplicateId,
    /// The unknown symbol has no id.
    MissingUnknownToken,
}

/// The vocabulary of a GPT-2 tokenizer.
pub struct Gpt2Vocab {
    /// Symbol to id.
    pub values: Vec<(String, i64)>,
    /// Id to symbol: `values` read the other way round.
    pub indices: Vec<(i64, String)>,
    /// The symbol that stands for every symbol without an id.
    pub unknown_value: &'static str,
    /// The symbols that are never split nor case-folded.
    pub special_values: Vec<(String, i64)>,
    /// `special_values` read the other way round.
    pub special_indices: Vec<(i64, String)>,
}

/// The unknown symbol of this family of vocabularies.
pub const UNKNOWN_VALUE: &'static str = "<|endoftext|>";

/// An entry found by its symbol is an entry with that symbol, and the first.
pub proof fn lemma_id_of(entries: SymbolIds, symbol: Seq<char>)
    ensures
        match id_of(entries, symbol) {
            Some(id) => exists|i: int|
                0 <= i < entries.len() && #[trigger] entries[i] == (symbol, id) && forall|j: int|
                    0 <= j < i ==> (#[trigger] entries[j]).0 != symbol,
            None => forall|i: int| 0 <= i < entries.len() ==> (#[trigger] entries[i]).0 != symbol,
        },
    decreases entries.len(),
{
    if entries.len() == 0 {
    } else if entries[0].0 == symbol {
        assert(entries[0] == (symbol, entries[0].1));
    } else {
        let rest = entries.drop_first();
        lemma_id_of(rest, symbol);
        match id_of(rest, symbol) {
            Some(id) => {
                let i = choose|i: int|
                    0 <= i < rest.len() && #[trigger] rest[i] == (symbol, id) && forall|j: int|
                        0 <= j < i ==> (#[trigger] rest[j]).0 != symbol;
                assert(entries[i + 1] == (symbol, id));
                assert forall|j: int| 0 <= j < i + 1 implies (#[trigger] entries[j]).0
                    != symbol by {
                    if j > 0 {
                        assert(rest[j - 1] == entries[j]);
                    }
                }
            },
            None => {
                assert forall|i: int| 0 <= i < entries.len() implies (#[trigger] entries[i]).0
                    != symbol by {
                    if i > 0 {
                        assert(rest[i - 1] == entries[i]);
                    }
                }
            },
        }
    }
}

/// An entry found by its id is an entry with that id, and the first.
pub proof fn lemma_symbol_of(entries: IdSymbols, id: i64)
    ensures
        match symbol_of(entries, id) {
            Some(symbol) => exists|i: int|
                0 <= i < entries.len() && #[trigger] entries[i] == (id, symbol) && forall|j: int|
                    0 <= j < i ==> (#[trigger] entries[j]).0 != id,
            None => forall|i: int| 0 <= i < entries.len() ==> (#[trigger] entries[i]).0 != id,
        },
    decreases entries.len(),
{
    if entries.len() == 0 {
    } else if entries[0].0 == id {
        assert(entries[0] == (id, entries[0].1));
    } else {
        let rest = entries.drop_first();
        lemma_symbol_of(rest, id);
        match symbol_of(rest, id) {
            Some(symbol) => {
                let i = choose|i: int|
                    0 <= i < rest.len() && #[trigger] rest[i] == (id, symbol) && forall|j: int|
                        0 <= j < i ==> (#[trigger] rest[j]).0 != id;
                assert(entries[i + 1] == (id, symbol));
                assert forall|j: int| 0 <= j < i + 1 implies (#[trigger] entries[j]).0 != id by {
                    if j > 0 {
                        assert(rest[j - 1] == entries[j]);
                    }
                }
            },
            None => {
                assert forall|i: int| 0 <= i < entries.len() implies (#[trigger] entries[i]).0
                    != id by {
                    if i > 0 {
                        assert(rest[i - 1] == entries[i]);
                    }
                }
            },
        }
    }
}

/// In a table without a symbol or an id that occurs twice, a symbol has the
/// id whose symbol, in the table read the other way round, it is.
pub proof fn lemma_tables_are_inverse(entries: SymbolIds, symbol: Seq<char>, id: i64)
    requires
        distinct_symbols(entries),
        distinct_ids(entries),
    ensures
        id_of(entries, symbol) == Some(id) <==> symbol_of(swapped(entries), id) == Some(symbol),
{
    let back = swapped(entries);
    lemma_id_of(entries, symbol);
    lemma_symbol_of(back, id);
    if id_of(entries, symbol) == Some(id) {
        let i = choose|i: int| 0 <= i < entries.len() && #[trigger] entries[i] == (symbol, id);
        assert(back[i] == (id, symbol));
        match symbol_of(back, id) {
            Some(other) => {
                let j = choose|j: int| 0 <= j < back.len() && #[trigger] back[j] == (id, other);
                assert(entries[j].1 == id);
            },
            None => {},
        }
    }
    if symbol_of(back, id) == Some(symbol) {
        let j = choose|j: int| 0 <= j < back.len() && #[trigger] back[j] == (id, symbol);
        assert(entries[j] == (symbol, id));
        match id_of(entries, symbol) {
            Some(other) => {
                let i = choose|i: int|
                    0 <= i < entries.len() && #[trigger] entries[i] == (symbol, other);
                assert(entries[i].0 == symbol);
            },
            None => {},
        }
    }
}

/// `serde_json::Error`, why a text was not read; nothing inside it is read.
#[verifier::external_type_specification]
#[verifier::external_body]
pub struct ExJsonError(serde_json::Error);

/// What `serde_json::from_str` reads from a text as a map from strings to
/// 64-bit integers, its entries in the order of their keys; `None` where it
/// reports an error.
pub uninterp spec fn json_symbol_ids(text: Seq<char>) -> Option<SymbolIds>;

/// `serde_json::from_str`, asked for a map from `String` to `i64`: the entries
/// of the JSON object that the text holds, or the error of the parser.
#[verifier::external_body]
fn parse_symbol_ids(text: &str) -> (r: Result<Vec<(String, i64)>, serde_json::Error>)
    ensures
        match r {
            Ok(entries) => json_symbol_ids(text@) == Some(symbol_ids(entries@)),
            Err(_) => json_symbol_ids(text@) is None,
        },
{
    serde_json::from_str::<BTreeMap<String, i64>>(text).map(|m| m.into_iter().collect())
}

/// The id of `symbol` in a table.
fn find_id(entries: &Vec<(String, i64)>, symbol: &str) -> (r: Option<i64>)
    ensures
        r == id_of(symbol_ids(entries@), symbol@),
{
    let key: String = symbol.to_owned();
    let ghost all = symbol_ids(entries@);
    let mut i: usize = 0;
    assert(all.skip(0) =~= all);
    while i < entries.len()
        invariant
            i <= entries@.len(),
            all == symbol_ids(entries@),
            key@ == symbol@,
            id_of(all, symbol@) == id_of(all.skip(i as int), symbol@),
        decreases entries@.len() - i,
    {
        proof {
            let tail = all.skip(i as int);
            assert(tail[0] == all[i as int]);
            assert(tail.drop_first() =~= all.skip(i + 1));
        }
        if entries[i].0 == key {
            return Some(entries[i].1);
        }
        i += 1;
    }
    None
}

/// The index of the first entry with the given id.
fn find_symbol(entries: &Vec<(i64, String)>, id: i64) -> (r: Option<usize>)
    ensures
        match r {
            Some(i) => i < entries@.len() && symbol_of(id_symbols(entries@), id) == Some(
                entries@[i as int].1@,
            ),
            None => symbol_of(id_symbols(entries@), id) is None,
        },
{
    let ghost all = id_symbols(entries@);
    let mut i: usize = 0;
    assert(all.skip(0) =~= all);
    while i < entries.len()
        invariant
            i <= entries@.len(),
            all == id_symbols(entries@),
            symbol_of(all, id) == symbol_of(all.skip(i as int), id),
        decreases entries@.len() - i,
    {
        proof {
            let tail = all.skip(i as int);
            assert(tail[0] == all[i as int]);
            assert(tail.drop_first() =~= all.skip(i + 1));
        }
        if entries[i].0 == id {
            return Some(i);
        }
        i += 1;
    }
    None
}

/// The table read the other way round.
pub fn swap_key_values(entries: &Vec<(String, i64)>) -> (r: Vec<(i64, String)>)
    ensures
        id_symbols(r@) == swapped(symbol_ids(entries@)),
{
    let mut out: Vec<(i64, String)> = Vec::new();
    let mut i: usize = 0;
    while i < entries.len()
        invariant
            i <= entries@.len(),
            out@.len() == i,
            forall|k: int|
                0 <= k < i ==> (#[trigger] out@[k]).0 == entries@[k].1 && out@[k].1@
                    == entries@[k].0@,
        decreases entries@.len() - i,
    {
        out.push((entries[i].1, entries[i].0.clone()));
        i += 1;
    }
    assert(id_symbols(out@) =~= swapped(symbol_ids(entries@)));
    out
}

/// Whether some symbol or some id has two entries.
fn find_duplicate(entries: &Vec<(String, i64)>) -> (r: Option<VocabError>)
    ensures
        match r {
            Some(e) => {
                &&& e == VocabError::DuplicateSymbol || e == VocabError::DuplicateId
                &&& e == VocabError::DuplicateSymbol <==> !distinct_symbols(symbol_ids(entries@))
                &&& !distinct_symbols(symbol_ids(entries@)) || !distinct_ids(symbol_ids(entries@))
            },
            None => distinct_symbols(symbol_ids(entries@)) && distinct_ids(symbol_ids(entries@)),
        },
{
    let ghost all = symbol_ids(entries@);
    let n = entries.len();
    let mut symbols = Places::new();
    let mut ids = Places::new();
    let mut twice: bool = false;
    let mut j: usize = 0;
    assert(symbols.numbers() =~= numbers_of_symbols(all.take(0)));
    assert(ids.numbers() =~= numbers_of_ids(swapped(all.take(0))));
    while j < n
        invariant
            j <= n == entries@.len(),
            all == symbol_ids(entries@),
            symbols.numbers() == numbers_of_symbols(all.take(j as int)),
            ids.numbers() == numbers_of_ids(swapped(all.take(j as int))),
            forall|a: int, b: int| 0 <= a < b < j ==> (#[trigger] all[a]).0 != (#[trigger] all[b]).0,
            twice <==> exists|a: int, b: int|
                0 <= a < b < j && (#[trigger] all[a]).1 == (#[trigger] all[b]).1,
        decreases n - j,
    {
        let ghost before = all.take(j as int);
        let ghost same_symbol = |i: int| before[i].0 == all[j as int].0;
        let ghost same_id = |i: int| before[i].1 == all[j as int].1;
        let symbol_number = number(entries[j].0.as_str());
        let found = symbols.under(symbol_number);
        let mut k: usize = 0;
        while k < found.len()
            invariant
                k <= found@.len(),
                j < n == entries@.len(),
                all == symbol_ids(entries@),
                before == all.take(j as int),
                same_symbol == |i: int| before[i].0 == all[j as int].0,
                places_under(found@, numbers_of_symbols(before), symbol_number),
                forall|i: int| 0 <= i < k ==> !same_symbol(#[trigger] found@[i] as int),
            decreases found@.len() - k,
        {
            let place = found[k];
            if entries[place].0 == entries[j].0 {
                assert(all[place as int].0 == all[j as int].0);
                return Some(VocabError::DuplicateSymbol);
            }
            assert(before[place as int] == all[place as int]);
            k += 1;
        }
        let id_no = id_number(entries[j].1);
        let found_ids = ids.under(id_no);
        let mut m: usize = 0;
        let mut seen: bool = false;
        while m < found_ids.len()
            invariant
                m <= found_ids@.len(),
                j < n == entries@.len(),
                all == symbol_ids(entries@),
                before == all.take(j as int),
                same_id == |i: int| before[i].1 == all[j as int].1,
                places_under(found_ids@, numbers_of_ids(swapped(before)), id_no),
                seen <==> exists|i: int| 0 <= i < m && same_id(#[trigger] found_ids@[i] as int),
            decreases found_ids@.len() - m,
        {
            let place = found_ids[m];
            assert(before[place as int] == all[place as int]);
            if entries[place].1 == entries[j].1 {
                seen = true;
            }
            m += 1;
        }
        proof {
            lemma_first_under(
                found@,
                numbers_of_symbols(before),
                symbol_number,
                same_symbol,
                k as int,
            );
            assert forall|a: int| 0 <= a < j implies (#[trigger] all[a]).0 != all[j as int].0 by {
                assert(before[a] == all[a]);
                assert(!same_symbol(a));
            }
            if !seen {
                lemma_first_under(
                    found_ids@,
                    numbers_of_ids(swapped(before)),
                    id_no,
                    same_id,
                    m as int,
                );
                assert forall|a: int| 0 <= a < j implies (#[trigger] all[a]).1
                    != all[j as int].1 by {
                    assert(before[a] == all[a]);
                    assert(!same_id(a));
                }
            } else {
                let i = choose|i: int| 0 <= i < m && same_id(#[trigger] found_ids@[i] as int);
                let a = found_ids@[i] as int;
                assert(before[a] == all[a]);
                assert(all[a].1 == all[j as int].1);
            }
        }
        if seen {
            twice = true;
        }
        symbols.push(symbol_number);
        ids.push(id_no);
        j += 1;
        proof {
            assert(symbols.numbers() =~= numbers_of_symbols(all.take(j as int)));
            assert(ids.numbers() =~= numbers_of_ids(swapped(all.take(j as int))));
        }
    }
    if twice {
        Some(VocabError::DuplicateId)
    } else {
        None
    }
}

impl Gpt2Vocab {
    /// The entries of `values` as plain values.
    pub open spec fn values_view(&self) -> SymbolIds {
        symbol_ids(self.values@)
    }

    /// The entries of `special_values` as plain values.
    pub open spec fn special_view(&self) -> SymbolIds {
        symbol_ids(self.special_values@)
    }

    /// The special symbols, in the order of their entries.
    pub open spec fn special_symbols(&self) -> Seq<Seq<char>> {
        Seq::new(self.special_values@.len(), |i: int| self.special_values@[i].0@)
    }

    /// What holds of every vocabulary that was made by this library: no symbol
    /// and no id occurs twice, the id tables are the symbol tables read the
    /// other way round, every special symbol is in the vocabulary with the same
    /// id, and the unknown symbol is special.
    pub open spec fn wf(&self) -> bool {
        &&& self.unknown_value@ == UNKNOWN_VALUE@
        &&& distinct_symbols(self.values_view())
        &&& distinct_ids(self.values_view())
        &&& id_symbols(self.indices@) == swapped(self.values_view())
        &&& distinct_symbols(self.special_view())
        &&& included(self.special_view(), self.values_view())
        &&& id_symbols(self.special_indices@) == swapped(self.special_view())
        &&& id_of(self.special_view(), UNKNOWN_VALUE@) is Some
    }

    /// True when `id` is the id of a special symbol.
    pub open spec fn has_special_id(&self, id: i64) -> bool {
        symbol_of(id_symbols(self.special_indices@), id) is Some
    }

    /// True when the unknown symbol has an id.
    pub open spec fn has_unknown(&self) -> bool {
        id_of(self.values_view(), self.unknown_value@) is Some
    }

    /// The id that stands for `symbol`: its own, or that of the unknown symbol.
    pub open spec fn id_for(&self, symbol: Seq<char>) -> i64 {
        match id_of(self.values_view(), symbol) {
            Some(id) => id,
            None => id_of(self.values_view(), self.unknown_value@)->0,
        }
    }

    /// The symbol that stands for `id`: its own, or the unknown symbol.
    pub open spec fn symbol_for(&self, id: i64) -> Seq<char> {
        match symbol_of(id_symbols(self.indices@), id) {
            Some(symbol) => symbol,
            None => self.unknown_value@,
        }
    }

    /// The unknown symbol.
    pub fn unknown_value() -> (r: &'static str)
        ensures
            r@ == UNKNOWN_VALUE@,
    {
        UNKNOWN_VALUE
    }

    /// Symbol to id.
    pub fn values(&self) -> (r: &Vec<(String, i64)>)
        ensures
            r == &self.values,
    {
        &self.values
    }

    /// Id to symbol.
    pub fn indices(&self) -> (r: &Vec<(i64, String)>)
        ensures
            r == &self.indices,
    {
        &self.indices
    }

    /// The special symbols with their ids.
    pub fn special_values(&self) -> (r: &Vec<(String, i64)>)
        ensures
            r == &self.special_values,
    {
        &self.special_values
    }

    /// The ids of the special symbols with their symbols.
    pub fn special_indices(&self) -> (r: &Vec<(i64, String)>)
        ensures
            r == &self.special_indices,
    {
        &self.special_indices
    }

    /// Makes the vocabulary of the given entries and registers the unknown
    /// symbol as special. The entries are refused when a symbol or an id occurs
    /// twice, or when the unknown symbol is not among them.
    pub fn from_values(values: Vec<(String, i64)>) -> (r: Result<Gpt2Vocab, VocabError>)
        ensures
            match r {
                Ok(vocab) => {
                    &&& vocab.wf()
                    &&& vocab.values@ == values@
                    &&& vocab.special_view() == seq![
                        (UNKNOWN_VALUE@, id_of(symbol_ids(values@), UNKNOWN_VALUE@)->0),
                    ]
                    &&& distinct_symbols(symbol_ids(values@))
                    &&& distinct_ids(symbol_ids(values@))
                    &&& id_of(symbol_ids(values@), UNKNOWN_VALUE@) is Some
                },
                Err(e) => {
                    &&& e != VocabError::Malformed
                    &&& e == VocabError::DuplicateSymbol <==> !distinct_symbols(
                        symbol_ids(values@),
                    )
                    &&& e == VocabError::DuplicateId <==> distinct_symbols(symbol_ids(values@))
                        && !distinct_ids(symbol_ids(values@))
                    &&& e == VocabError::MissingUnknownToken <==> distinct_symbols(
                        symbol_ids(values@),
                    ) && distinct_ids(symbol_ids(values@)) && id_of(
                        symbol_ids(values@),
                        UNKNOWN_VALUE@,
                    ) is None
                },
            },
    {
        match find_duplicate(&values) {
            Some(e) => {
                return Err(e);
            },
            None => {},
        }
        let unknown_id = match find_id(&values, UNKNOWN_VALUE) {
            Some(id) => id,
            None => {
                return Err(VocabError::MissingUnknownToken);
            },
        };
        let mut special_values: Vec<(String, i64)> = Vec::new();
        special_values.push((UNKNOWN_VALUE.to_owned(), unknown_id));
        let indices = swap_key_values(&values);
        let special_indices = swap_key_values(&special_values);
        let vocab = Gpt2Vocab {
            values,
            indices,
            unknown_value: UNKNOWN_VALUE,
            special_values,
            special_indices,
        };
        proof {
            let special = vocab.special_view();
            assert(special =~= seq![(UNKNOWN_VALUE@, unknown_id)]);
            lemma_id_of(vocab.values_view(), UNKNOWN_VALUE@);
            assert(vocab.values_view().contains(special[0]));
            assert(special.drop_first().len() == 0);
        }
        Ok(vocab)
    }

    /// Makes the vocabulary that a JSON object of symbols and ids describes.
    pub fn from_json(text: &str) -> (r: Result<Gpt2Vocab, VocabError>)
        ensures
            match json_symbol_ids(text@) {
                None => r == Err::<Gpt2Vocab, VocabError>(VocabError::Malformed),
                Some(entries) => match r {
                    Ok(vocab) => {
                        &&& vocab.wf()
                        &&& vocab.values_view() == entries
                        &&& vocab.special_view() == seq![
                            (UNKNOWN_VALUE@, id_of(entries, UNKNOWN_VALUE@)->0),
                        ]
                        &&& distinct_symbols(entries)
                        &&& distinct_ids(entries)
                        &&& id_of(entries, UNKNOWN_VALUE@) is Some
                    },
                    Err(e) => {
                        &&& e != VocabError::Malformed
                        &&& e == VocabError::DuplicateSymbol <==> !distinct_symbols(entries)
                        &&& e == VocabError::DuplicateId <==> distinct_symbols(entries)
                            && !distinct_ids(entries)
                        &&& e == VocabError::MissingUnknownToken <==> distinct_symbols(entries)
                            && distinct_ids(entries) && id_of(entries, UNKNOWN_VALUE@) is None
                    },
                },
            },
    {
        match parse_symbol_ids(text) {
            Err(_) => Err(VocabError::Malformed),
            Ok(entries) => Gpt2Vocab::from_values(entries),
        }
    }

    /// Whether the unknown symbol has an id.
    pub fn knows_unknown(&self) -> (r: bool)
        ensures
            r == self.has_unknown(),
    {
        find_id(&self.values, self.unknown_value).is_some()
    }

    /// In a vocabulary made by this library the two tables are inverse to each
    /// other: the symbol of the id of a symbol of the vocabulary is that
    /// symbol, and the id of the symbol of an id of the vocabulary is that id.
    pub proof fn lemma_ids_and_symbols_are_inverse(&self, symbol: Seq<char>, id: i64)
        requires
            self.wf(),
        ensures
            id_of(self.values_view(), symbol) is Some ==> self.symbol_for(self.id_for(symbol))
                == symbol,
            symbol_of(id_symbols(self.indices@), id) is Some ==> self.id_for(self.symbol_for(id))
                == id,
    {
        if id_of(self.values_view(), symbol) is Some {
            lemma_tables_are_inverse(self.values_view(), symbol, self.id_for(symbol));
        }
        if symbol_of(id_symbols(self.indices@), id) is Some {
            lemma_tables_are_inverse(self.values_view(), self.symbol_for(id), id);
        }
    }

    /// A vocabulary made by this library has an id for its unknown symbol.
    pub proof fn lemma_wf_has_unknown(&self)
        requires
            self.wf(),
        ensures
            self.has_unknown(),
    {
        lemma_id_of(self.special_view(), UNKNOWN_VALUE@);
        lemma_id_of(self.values_view(), UNKNOWN_VALUE@);
    }

    /// The id of a symbol; that of the unknown symbol for a symbol that has
    /// none.
    pub fn token_to_id(&self, token: &str) -> (id: i64)
        requires
            self.has_unknown(),
        ensures
            id == self.id_for(token@),
    {
        match find_id(&self.values, token) {
            Some(id) => id,
            None => {
                match find_id(&self.values, self.unknown_value) {
                    Some(id) => id,
                    None => unreached(),
                }
            },
        }
    }

    /// The symbol of an id; the unknown symbol for an id that has none.
    pub fn id_to_token(&self, id: &i64) -> (token: String)
        ensures
            token@ == self.symbol_for(*id),
    {
        match find_symbol(&self.indices, *id) {
            Some(i) => self.indices[i].1.clone(),
            None => self.unknown_value.to_owned(),
        }
    }

    /// Whether an id is that of a special symbol.
    pub fn is_special_id(&self, id: &i64) -> (r: bool)
        ensures
            r == self.has_special_id(*id),
    {
        find_symbol(&self.special_indices, *id).is_some()
    }

    /// Whether a symbol is special.
    pub fn is_special(&self, token: &str) -> (r: bool)
        ensures
            r == self.special_symbols().contains(token@),
    {
        let found = find_id(&self.special_values, token);
        proof {
            lemma_id_of(self.special_view(), token@);
            let symbols = self.special_symbols();
            if found is Some {
                let i = choose|i: int|
                    0 <= i < self.special_view().len() && #[trigger] self.special_view()[i] == (
                        token@,
                        found->0,
                    );
                assert(symbols[i] == token@);
            } else {
                assert forall|i: int| 0 <= i < symbols.len() implies symbols[i] != token@ by {
                    assert(self.special_view()[i].0 == symbols[i]);
                }
            }
        }
        found.is_some()
    }
}

/// The number under which an id is looked for.
pub open spec fn number_of_id(id: i64) -> u64 {
    if id >= 0 {
        id as u64
    } else {
        (-(id + 1)) as u64
    }
}

/// The numbers of the symbols of a table.
pub open spec fn numbers_of_symbols(entries: SymbolIds) -> Seq<u64> {
    Seq::new(entries.len(), |i: int| number_of(entries[i].0))
}

/// The numbers of the ids of a table.
pub open spec fn numbers_of_ids(entries: IdSymbols) -> Seq<u64> {
    Seq::new(entries.len(), |i: int| number_of_id(entries[i].0))
}

/// The number under which an id is looked for.
fn id_number(id: i64) -> (h: u64)
    ensures
        h == number_of_id(id),
{
    if id >= 0 {
        id as u64
    } else {
        (-(id + 1)) as u64
    }
}

/// A vocabulary with the places of its symbols and of its ids, so that a
/// symbol or an id is found without a look at the whole vocabulary.
pub struct IndexedVocab {
    vocab: Rc<Gpt2Vocab>,
    symbols: Places,
    ids: Places,
}

impl IndexedVocab {
    /// The places are those of the entries of the two tables.
    #[verifier::type_invariant]
    spec fn well_formed(self) -> bool {
        &&& self.symbols.numbers() == numbers_of_symbols(self.vocab.values_view())
        &&& self.ids.numbers() == numbers_of_ids(id_symbols(self.vocab.indices@))
    }

    /// The vocabulary.
    pub closed spec fn vocabulary(self) -> Gpt2Vocab {
        *self.vocab
    }

    /// Notes the places of the symbols and of the ids of a vocabulary.
    pub fn new(vocab: Rc<Gpt2Vocab>) -> (r: IndexedVocab)
        ensures
            r.vocabulary() == *vocab,
    {
        let ghost values = vocab.values_view();
        let ghost indices = id_symbols(vocab.indices@);
        let mut symbols = Places::new();
        let mut i: usize = 0;
        assert(symbols.numbers() =~= numbers_of_symbols(values.take(0)));
        while i < vocab.values.len()
            invariant
                i <= vocab.values@.len(),
                values == vocab.values_view(),
                symbols.numbers() == numbers_of_symbols(values.take(i as int)),
            decreases vocab.values@.len() - i,
        {
            symbols.push(number(vocab.values[i].0.as_str()));
            i += 1;
            assert(symbols.numbers() =~= numbers_of_symbols(values.take(i as int)));
        }
        assert(values.take(i as int) =~= values);
        let mut ids = Places::new();
        let mut j: usize = 0;
        assert(ids.numbers() =~= numbers_of_ids(indices.take(0)));
        while j < vocab.indices.len()
            invariant
                j <= vocab.indices@.len(),
                indices == id_symbols(vocab.indices@),
                ids.numbers() == numbers_of_ids(indices.take(j as int)),
            decreases vocab.indices@.len() - j,
        {
            ids.push(id_number(vocab.indices[j].0));
            j += 1;
            assert(ids.numbers() =~= numbers_of_ids(indices.take(j as int)));
        }
        assert(indices.take(j as int) =~= indices);
        IndexedVocab { vocab, symbols, ids }
    }

    /// The vocabulary.
    pub fn vocab(&self) -> (r: &Gpt2Vocab)
        ensures
            *r == self.vocabulary(),
    {
        &self.vocab
    }

    /// The id of a symbol, where it has one.
    pub fn find_id(&self, symbol: &str) -> (r: Option<i64>)
        ensures
            r == id_of(self.vocabulary().values_view(), symbol@),
    {
        proof {
            use_type_invariant(self);
        }
        let key: String = symbol.to_owned();
        let ghost all = self.vocab.values_view();
        let ghost hit = |i: int| all[i].0 == symbol@;
        let wanted = number(symbol);
        let found = self.symbols.under(wanted);
        let mut k: usize = 0;
        while k < found.len()
            invariant
                k <= found@.len(),
                key@ == symbol@,
                all == self.vocab.values_view(),
                hit == |i: int| all[i].0 == symbol@,
                places_under(found@, numbers_of_symbols(all), wanted),
                forall|j: int| 0 <= j < k ==> !hit(#[trigger] found@[j] as int),
            decreases found@.len() - k,
        {
            let place = found[k];
            let entry = &self.vocab.values[place];
            if entry.0 == key {
                proof {
                    lemma_first_under(found@, numbers_of_symbols(all), wanted, hit, k as int);
                    lemma_id_of(all, symbol@);
                    assert(all[place as int] == (symbol@, entry.1));
                    assert forall|i: int| 0 <= i < place implies (#[trigger] all[i]).0
                        != symbol@ by {
                        assert(!hit(i));
                    }
                }
                return Some(entry.1);
            }
            k += 1;
        }
        proof {
            lemma_first_under(found@, numbers_of_symbols(all), wanted, hit, k as int);
            lemma_id_of(all, symbol@);
            assert forall|i: int| 0 <= i < all.len() implies (#[trigger] all[i]).0 != symbol@ by {
                assert(!hit(i));
            }
        }
        None
    }

    /// The id of a symbol; that of the unknown symbol for a symbol that has
    /// none.
    pub fn token_to_id(&self, token: &str) -> (id: i64)
        requires
            self.vocabulary().has_unknown(),
        ensures
            id == self.vocabulary().id_for(token@),
    {
        match self.find_id(token) {
            Some(id) => id,
            None => match self.find_id(self.vocab.unknown_value) {
                Some(id) => id,
                None => unreached(),
            },
        }
    }

    /// The symbol of an id; the unknown symbol for an id that has none.
    pub fn id_to_token(&self, id: &i64) -> (token: String)
        ensures
            token@ == self.vocabulary().symbol_for(*id),
    {
        proof {
            use_type_invariant(self);
        }
        let ghost all = id_symbols(self.vocab.indices@);
        let ghost hit = |i: int| all[i].0 == *id;
        let wanted = id_number(*id);
        let found = self.ids.under(wanted);
        let mut k: usize = 0;
        while k < found.len()
            invariant
                k <= found@.len(),
                all == id_symbols(self.vocab.indices@),
                hit == |i: int| all[i].0 == *id,
                places_under(found@, numbers_of_ids(all), wanted),
                forall|j: int| 0 <= j < k ==> !hit(#[trigger] found@[j] as int),
            decreases found@.len() - k,
        {
            let place = found[k];
            let entry = &self.vocab.indices[place];
            if entry.0 == *id {
                proof {
                    lemma_first_under(found@, numbers_of_ids(all), wanted, hit, k as int);
                    lemma_symbol_of(all, *id);
                    assert(all[place as int] == (*id, entry.1@));
                    assert forall|i: int| 0 <= i < place implies (#[trigger] all[i]).0 != *id by {
                        assert(!hit(i));
                    }
                }
                return entry.1.clone();
            }
            k += 1;
        }
        proof {
            lemma_first_under(found@, numbers_of_ids(all), wanted, hit, k as int);
            lemma_symbol_of(all, *id);
            assert forall|i: int| 0 <= i < all.len() implies (#[trigger] all[i]).0 != *id by {
                assert(!hit(i));
            }
        }
        self.vocab.unknown_value.to_owned()
    }
}

} // verus!

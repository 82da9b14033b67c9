//! The carve-out of special symbols: a text is cut into fragments that are a
//! special symbol each and fragments of ordinary text between them.

use vstd::prelude::*;
use crate::text::{chars_of, string_of_range};
use crate::vocab::Gpt2Vocab;

verus! {

/// A fragment of a text as plain values.
pub struct Piece {
    /// The code points of the fragment.
    pub text: Seq<char>,
    /// Whether the fragment is one special symbol.
    pub special: bool,
}

/// A fragment of a text: one special symbol, or ordinary text.
#[derive(Debug)]
pub struct Fragment {
    /// The text of the fragment.
    pub text: String,
    /// Whether the fragment is one special symbol.
    pub special: bool,
}

impl View for Fragment {
    type V = Piece;

    open spec fn view(&self) -> Piece {
        Piece { text: self.text@, special: self.special }
    }
}

/// The fragments as plain values.
pub open spec fn pieces_of(v: Seq<Fragment>) -> Seq<Piece> {
    Seq::new(v.len(), |i: int| v[i]@)
}

/// The code-point sequences held by a list of vectors.
pub open spec fn char_seqs(v: Seq<Vec<char>>) -> Seq<Seq<char>> {
    Seq::new(v.len(), |i: int| v[i]@)
}

/// The length of the longest of the special symbols that `text` begins with;
/// 0 when it begins with none. The empty symbol counts for nothing.
pub open spec fn longest_special(specials: Seq<Seq<char>>, text: Seq<char>) -> nat
    decreases specials.len(),
{
    if specials.len() == 0 {
        0
    } else {
        let rest = longest_special(specials.drop_last(), text);
        let s = specials.last();
        if s.is_prefix_of(text) && s.len() > rest {
            s.len()
        } else {
            rest
        }
    }
}

/// The number of code points at the beginning of `text` before the first place
/// at which a special symbol begins.
pub open spec fn literal_run(specials: Seq<Seq<char>>, text: Seq<char>) -> nat
    decreases text.len(),
{
    if text.len() == 0 || longest_special(specials, text) > 0 {
        0
    } else {
        1 + literal_run(specials, text.drop_first())
    }
}

/// The fragments of a text, from left to right. Where special symbols begin at
/// one place the longest is taken; ordinary text runs up to the next place at
/// which a special symbol begins. Every fragment holds a code point at least,
/// so that the fragments of what is left are fewer.
pub open spec fn split_spec(specials: Seq<Seq<char>>, text: Seq<char>) -> Seq<Piece>
    decreases text.len(),
{
    if text.len() == 0 {
        Seq::empty()
    } else {
        let n = longest_special(specials, text) as int;
        let m = if n > 0 {
            n
        } else {
            literal_run(specials, text) as int
        };
        if 0 < m <= text.len() {
            seq![Piece { text: text.take(m), special: n > 0 }] + split_spec(specials, text.skip(m))
        } else {
            Seq::empty()
        }
    }
}

/// True when a special symbol that is not empty occurs in the text.
pub open spec fn holds_special(specials: Seq<Seq<char>>, text: Seq<char>) -> bool {
    exists|k: int| 0 <= k < text.len() && longest_special(specials, #[trigger] text.skip(k)) > 0
}

/// The texts of the pieces, one after the other.
pub open spec fn piece_texts(pieces: Seq<Piece>) -> Seq<Seq<char>> {
    Seq::new(pieces.len(), |i: int| pieces[i].text)
}

/// The longest special symbol at the beginning of a text is one of the special
/// symbols and a beginning of the text, and no longer special symbol is.
pub proof fn lemma_longest_special(specials: Seq<Seq<char>>, text: Seq<char>)
    ensures
        longest_special(specials, text) <= text.len(),
        longest_special(specials, text) > 0 ==> specials.contains(
            text.take(longest_special(specials, text) as int),
        ),
        forall|i: int|
            0 <= i < specials.len() && (#[trigger] specials[i]).is_prefix_of(text)
                ==> specials[i].len() <= longest_special(specials, text),
    decreases specials.len(),
{
    if specials.len() > 0 {
        let front = specials.drop_last();
        lemma_longest_special(front, text);
        let rest = longest_special(front, text);
        let s = specials.last();
        if s.is_prefix_of(text) && s.len() > rest {
            assert(text.take(s.len() as int) =~= s);
            assert(specials[specials.len() - 1] == s);
        } else if rest > 0 {
            let t = text.take(rest as int);
            let k = choose|k: int| 0 <= k < front.len() && front[k] == t;
            assert(specials[k] == t);
        }
        assert forall|i: int|
            0 <= i < specials.len() && (#[trigger] specials[i]).is_prefix_of(
                text,
            ) implies specials[i].len() <= longest_special(specials, text) by {
            if i < specials.len() - 1 {
                assert(front[i] == specials[i]);
            }
        }
    }
}

/// Ordinary text ends within the text, and is not empty where the text is not
/// and no special symbol begins it.
pub proof fn lemma_literal_run(specials: Seq<Seq<char>>, text: Seq<char>)
    ensures
        literal_run(specials, text) <= text.len(),
        text.len() > 0 && longest_special(specials, text) == 0 ==> literal_run(specials, text) > 0,
        forall|k: int|
            0 <= k < literal_run(specials, text) ==> longest_special(
                specials,
                #[trigger] text.skip(k),
            ) == 0,
        literal_run(specials, text) < text.len() ==> longest_special(
            specials,
            text.skip(literal_run(specials, text) as int),
        ) > 0,
    decreases text.len(),
{
    if text.len() == 0 || longest_special(specials, text) > 0 {
        assert(text.skip(0) =~= text);
    } else {
        let rest = text.drop_first();
        lemma_literal_run(specials, rest);
        let m = literal_run(specials, text);
        assert forall|k: int| 0 <= k < m implies longest_special(
            specials,
            #[trigger] text.skip(k),
        ) == 0 by {
            if k == 0 {
                assert(text.skip(0) =~= text);
            } else {
                assert(text.skip(k) =~= rest.skip(k - 1));
            }
        }
        assert(text.skip(m as int) =~= rest.skip(m - 1));
    }
}

/// The fragments of a text, put together in order, are the text.
pub proof fn lemma_split_concatenates_to_text(specials: Seq<Seq<char>>, text: Seq<char>)
    ensures
        piece_texts(split_spec(specials, text)).flatten() == text,
    decreases text.len(),
{
    lemma_longest_special(specials, text);
    lemma_literal_run(specials, text);
    if text.len() == 0 {
        assert(piece_texts(split_spec(specials, text)) =~= Seq::<Seq<char>>::empty());
        assert(piece_texts(split_spec(specials, text)).flatten() =~= text);
    } else {
        let n = longest_special(specials, text) as int;
        let m = if n > 0 {
            n
        } else {
            literal_run(specials, text) as int
        };
        let rest = split_spec(specials, text.skip(m));
        lemma_split_concatenates_to_text(specials, text.skip(m));
        let all = piece_texts(split_spec(specials, text));
        assert(all =~= seq![text.take(m)] + piece_texts(rest));
        assert(all.drop_first() =~= piece_texts(rest));
        assert(all.flatten() =~= text.take(m) + text.skip(m));
        assert(text.take(m) + text.skip(m) =~= text);
    }
}

/// A special symbol that is not empty is, as a text, one special fragment.
pub proof fn lemma_split_of_special(specials: Seq<Seq<char>>, symbol: Seq<char>)
    requires
        specials.contains(symbol),
        symbol.len() > 0,
    ensures
        split_spec(specials, symbol) == seq![Piece { text: symbol, special: true }],
{
    lemma_longest_special(specials, symbol);
    let k = choose|k: int| 0 <= k < specials.len() && specials[k] == symbol;
    assert(specials[k].is_prefix_of(symbol)) by {
        assert(symbol.subrange(0, symbol.len() as int) =~= symbol);
    }
    let n = longest_special(specials, symbol) as int;
    assert(n == symbol.len());
    assert(symbol.take(n) =~= symbol);
    assert(symbol.skip(n).len() == 0);
    assert(split_spec(specials, symbol.skip(n)) =~= Seq::<Piece>::empty());
    assert(split_spec(specials, symbol) =~= seq![Piece { text: symbol, special: true }]);
}

/// Whether `pattern` stands in `text` at index `at`.
fn occurs_at(text: &Vec<char>, at: usize, pattern: &Vec<char>) -> (r: bool)
    requires
        at <= text@.len(),
    ensures
        r == pattern@.is_prefix_of(text@.skip(at as int)),
{
    let n = pattern.len();
    let len = text.len();
    if n > len - at {
        return false;
    }
    let ghost tail = text@.skip(at as int);
    let mut k: usize = 0;
    while k < n
        invariant
            k <= n == pattern@.len(),
            at + n <= len == text@.len(),
            tail == text@.skip(at as int),
            forall|j: int| 0 <= j < k ==> pattern@[j] == tail[j],
        decreases n - k,
    {
        if pattern[k] != text[at + k] {
            assert(tail.subrange(0, n as int)[k as int] != pattern@[k as int]);
            return false;
        }
        k += 1;
    }
    assert(pattern@ =~= tail.subrange(0, n as int));
    true
}

/// The length of the longest special symbol that stands in `text` at `at`.
fn longest_special_at(text: &Vec<char>, at: usize, specials: &Vec<Vec<char>>) -> (n: usize)
    requires
        at <= text@.len(),
    ensures
        n == longest_special(char_seqs(specials@), text@.skip(at as int)),
        at + n <= text@.len(),
{
    let ghost all = char_seqs(specials@);
    let ghost tail = text@.skip(at as int);
    let mut best: usize = 0;
    let mut k: usize = 0;
    assert(all.take(0) =~= Seq::<Seq<char>>::empty());
    while k < specials.len()
        invariant
            k <= specials@.len(),
            all == char_seqs(specials@),
            tail == text@.skip(at as int),
            at <= text@.len(),
            best == longest_special(all.take(k as int), tail),
            at + best <= text@.len(),
        decreases specials@.len() - k,
    {
        proof {
            let upto = all.take(k + 1);
            assert(upto.drop_last() =~= all.take(k as int));
            assert(upto.last() == specials@[k as int]@);
        }
        if specials[k].len() > best && occurs_at(text, at, &specials[k]) {
            best = specials[k].len();
        }
        k += 1;
    }
    assert(all.take(k as int) =~= all);
    best
}

/// Cuts a text into its fragments: each occurrence of a special symbol of the
/// vocabulary, and the ordinary text between them.
pub fn split_on_special_tokens(text: &str, vocab: &Gpt2Vocab) -> (r: Vec<Fragment>)
    ensures
        pieces_of(r@) == split_spec(vocab.special_symbols(), text@),
{
    let chars = chars_of(text);
    let mut specials: Vec<Vec<char>> = Vec::new();
    let mut k: usize = 0;
    while k < vocab.special_values.len()
        invariant
            k <= vocab.special_values@.len(),
            char_seqs(specials@) == vocab.special_symbols().take(k as int),
        decreases vocab.special_values@.len() - k,
    {
        let ghost before = char_seqs(specials@);
        let symbol = chars_of(vocab.special_values[k].0.as_str());
        specials.push(symbol);
        assert(char_seqs(specials@) =~= before.push(vocab.special_symbols()[k as int]));
        k += 1;
        assert(char_seqs(specials@) =~= vocab.special_symbols().take(k as int));
    }
    assert(vocab.special_symbols().take(k as int) =~= vocab.special_symbols());
    let ghost all = vocab.special_symbols();
    let mut out: Vec<Fragment> = Vec::new();
    let mut i: usize = 0;
    assert(chars@.skip(0) =~= chars@);
    assert(pieces_of(out@) + split_spec(all, chars@) =~= split_spec(all, chars@));
    while i < chars.len()
        invariant
            i <= chars@.len(),
            chars@ == text@,
            all == char_seqs(specials@),
            split_spec(all, chars@) == pieces_of(out@) + split_spec(all, chars@.skip(i as int)),
        decreases chars@.len() - i,
    {
        let ghost tail = chars@.skip(i as int);
        let ghost before = pieces_of(out@);
        let n = longest_special_at(&chars, i, &specials);
        let mut j: usize = i + n;
        if n == 0 {
            j = i + 1;
            proof {
                lemma_literal_run(all, tail);
                assert(tail.drop_first() =~= chars@.skip(i + 1));
            }
            while j < chars.len() && longest_special_at(&chars, j, &specials) == 0
                invariant
                    i < j <= chars@.len(),
                    all == char_seqs(specials@),
                    tail == chars@.skip(i as int),
                    literal_run(all, tail) == (j - i) + literal_run(all, chars@.skip(j as int)),
                decreases chars@.len() - j,
            {
                proof {
                    assert(chars@.skip(j as int).drop_first() =~= chars@.skip(j + 1));
                }
                j += 1;
            }
            assert(literal_run(all, tail) == j - i);
        }
        let piece = string_of_range(&chars, i, j);
        out.push(Fragment { text: piece, special: n > 0 });
        proof {
            lemma_longest_special(all, tail);
            let m = j - i;
            assert(tail.take(m) =~= chars@.subrange(i as int, j as int));
            assert(tail.skip(m) =~= chars@.skip(j as int));
            let first = Piece { text: tail.take(m), special: n > 0 };
            assert(pieces_of(out@) =~= before.push(first));
            assert(before + (seq![first] + split_spec(all, tail.skip(m))) =~= before.push(first)
                + split_spec(all, tail.skip(m)));
        }
        i = j;
    }
    assert(pieces_of(out@) + split_spec(all, chars@.skip(i as int)) =~= pieces_of(out@));
    out
}

/// A text in which no special symbol occurs is one fragment of ordinary text,
/// and no fragment at all when it is empty.
pub proof fn lemma_split_without_special(specials: Seq<Seq<char>>, text: Seq<char>)
    requires
        !holds_special(specials, text),
    ensures
        split_spec(specials, text) == if text.len() == 0 {
            Seq::<Piece>::empty()
        } else {
            seq![Piece { text: text, special: false }]
        },
{
    lemma_literal_run(specials, text);
    if text.len() > 0 {
        assert(text.skip(0) =~= text);
        let m = literal_run(specials, text) as int;
        if m < text.len() {
            assert(longest_special(specials, text.skip(m)) > 0);
        }
        assert(text.take(m) =~= text);
        assert(split_spec(specials, text.skip(m)) =~= Seq::<Piece>::empty());
        assert(split_spec(specials, text) =~= seq![Piece { text: text, special: false }]);
    }
}

/// Where two texts begin alike up to the longest special symbol that begins
/// either, the same special symbols begin both.
proof fn lemma_longest_special_agrees(specials: Seq<Seq<char>>, x: Seq<char>, y: Seq<char>, n: int)
    requires
        0 <= n <= x.len(),
        n <= y.len(),
        x.take(n) == y.take(n),
        longest_special(specials, x) <= n,
        longest_special(specials, y) <= n,
    ensures
        longest_special(specials, x) == longest_special(specials, y),
{
    lemma_longest_special(specials, x);
    lemma_longest_special(specials, y);
    let lx = longest_special(specials, x) as int;
    let ly = longest_special(specials, y) as int;
    if lx > 0 {
        let s = x.take(lx);
        let k = choose|k: int| 0 <= k < specials.len() && specials[k] == s;
        assert(s =~= y.subrange(0, lx)) by {
            assert forall|i: int| 0 <= i < lx implies s[i] == y[i] by {
                assert(x.take(n)[i] == y.take(n)[i]);
            }
        }
        assert(specials[k].is_prefix_of(y));
    }
    if ly > 0 {
        let s = y.take(ly);
        let k = choose|k: int| 0 <= k < specials.len() && specials[k] == s;
        assert(s =~= x.subrange(0, ly)) by {
            assert forall|i: int| 0 <= i < ly implies s[i] == x[i] by {
                assert(x.take(n)[i] == y.take(n)[i]);
            }
        }
        assert(specials[k].is_prefix_of(x));
    }
}

/// True when no special symbol that begins within `a` reaches beyond its end
/// in the text `a + rest`.
pub open spec fn none_reaches_beyond(
    specials: Seq<Seq<char>>,
    a: Seq<char>,
    rest: Seq<char>,
) -> bool {
    forall|k: int|
        0 <= k < a.len() ==> longest_special(specials, #[trigger] (a + rest).skip(k)) <= a.len()
            - k
}

/// Ordinary text at the beginning of `a` ends where it ends in `a + rest`,
/// when no special symbol reaches from `a` into `rest` and one begins `rest`.
proof fn lemma_literal_run_append(specials: Seq<Seq<char>>, a: Seq<char>, rest: Seq<char>)
    requires
        none_reaches_beyond(specials, a, rest),
        rest.len() == 0 || longest_special(specials, rest) > 0,
    ensures
        literal_run(specials, a + rest) == literal_run(specials, a),
    decreases a.len(),
{
    let t = a + rest;
    if a.len() == 0 {
        assert(t =~= rest);
    } else {
        assert(t.skip(0) =~= t);
        lemma_longest_special(specials, a);
        assert(t.take(a.len() as int) =~= a.take(a.len() as int));
        lemma_longest_special_agrees(specials, t, a, a.len() as int);
        if longest_special(specials, t) == 0 {
            let a1 = a.drop_first();
            assert(t.drop_first() =~= a1 + rest);
            assert forall|k: int| 0 <= k < a1.len() implies longest_special(
                specials,
                #[trigger] (a1 + rest).skip(k),
            ) <= a1.len() - k by {
                assert((a1 + rest).skip(k) =~= t.skip(k + 1));
            }
            lemma_literal_run_append(specials, a1, rest);
        }
    }
}

/// The fragments of `a + rest` are those of `a`, then those of `rest`, when
/// no special symbol reaches from `a` into `rest` and one begins `rest`.
pub proof fn lemma_split_append(specials: Seq<Seq<char>>, a: Seq<char>, rest: Seq<char>)
    requires
        none_reaches_beyond(specials, a, rest),
        rest.len() == 0 || longest_special(specials, rest) > 0,
    ensures
        split_spec(specials, a + rest) == split_spec(specials, a) + split_spec(specials, rest),
    decreases a.len(),
{
    let t = a + rest;
    if a.len() == 0 {
        assert(t =~= rest);
        assert(split_spec(specials, a) + split_spec(specials, rest) =~= split_spec(
            specials,
            rest,
        ));
    } else {
        assert(t.skip(0) =~= t);
        lemma_longest_special(specials, a);
        lemma_literal_run(specials, a);
        assert(t.take(a.len() as int) =~= a.take(a.len() as int));
        lemma_longest_special_agrees(specials, t, a, a.len() as int);
        lemma_literal_run_append(specials, a, rest);
        let n = longest_special(specials, a) as int;
        let m = if n > 0 {
            n
        } else {
            literal_run(specials, a) as int
        };
        let a1 = a.skip(m);
        assert(t.skip(m) =~= a1 + rest);
        assert(t.take(m) =~= a.take(m));
        assert forall|k: int| 0 <= k < a1.len() implies longest_special(
            specials,
            #[trigger] (a1 + rest).skip(k),
        ) <= a1.len() - k by {
            assert((a1 + rest).skip(k) =~= t.skip(k + m));
        }
        lemma_split_append(specials, a1, rest);
        let first = Piece { text: a.take(m), special: n > 0 };
        assert(split_spec(specials, t) =~= seq![first] + (split_spec(specials, a1) + split_spec(
            specials,
            rest,
        )));
        assert(split_spec(specials, a) =~= seq![first] + split_spec(specials, a1));
    }
}

/// The fragments of a text around an occurrence of a special symbol: those of
/// what stands before it, the symbol, and those of what stands after it. This
/// holds where no special symbol reaches from the text before into the
/// occurrence and none that begins with it is longer.
pub proof fn lemma_split_around_special(
    specials: Seq<Seq<char>>,
    a: Seq<char>,
    symbol: Seq<char>,
    b: Seq<char>,
)
    requires
        symbol.len() > 0,
        longest_special(specials, symbol + b) == symbol.len(),
        none_reaches_beyond(specials, a, symbol + b),
    ensures
        split_spec(specials, a + symbol + b) == split_spec(specials, a) + seq![
            Piece { text: symbol, special: true },
        ] + split_spec(specials, b),
{
    let rest = symbol + b;
    lemma_split_append(specials, a, rest);
    assert(a + symbol + b =~= a + rest);
    let n = symbol.len() as int;
    assert(rest.take(n) =~= symbol);
    assert(rest.skip(n) =~= b);
    assert(split_spec(specials, rest) =~= seq![Piece { text: symbol, special: true }]
        + split_spec(specials, b));
}

} // verus!

//! Encoding for a model: the ids of one text or of a pair of texts, cut to a
//! greatest length, with what was cut off kept aside.

use vstd::prelude::*;
use crate::text::same_text;

verus! {

/// How a sequence that is too long is shortened.
#[derive(Debug, Clone, Copy, PartialEq, Eq, Structural)]
pub enum TruncationStrategy {
    /// Ids are taken, one by one, from the end of the longer sequence; from
    /// the first where both are of one length.
    LongestFirst,
    /// Ids are taken from the end of the first sequence only.
    OnlyFirst,
    /// Ids are taken from the end of the second sequence only.
    OnlySecond,
    /// Nothing may be taken away.
    DoNotTruncate,
}

/// Why an encoding could not be made.
#[derive(Debug, Clone, Copy, PartialEq, Eq, Structural)]
pub enum EncodingError {
    /// The sequence to be shortened holds fewer ids than have to go.
    SequenceTooShort,
    /// Ids have to go, and the strategy allows none to be taken away.
    TruncationNotAllowed,
    /// Ids have to go from a second sequence, and there is none.
    NoSecondSequence,
    /// The two sequences together hold more ids than can be counted.
    TooLong,
}

/// An encoded text or pair of texts.
#[derive(Debug, Clone, PartialEq, Eq)]
pub struct TokenizedInput {
    /// The ids that are kept: those of the first text, then those of the
    /// second.
    pub token_ids: Vec<i64>,
    /// For each id that is kept, 0 where it belongs to the first text and 1
    /// where it belongs to the second.
    pub segment_ids: Vec<i8>,
    /// For each id that is kept, 1 where it was added as a mark; this family
    /// adds none.
    pub special_tokens_mask: Vec<i8>,
    /// The ids that were taken away, after the last kept ids that the stride
    /// asks to repeat.
    pub overflowing_tokens: Vec<i64>,
    /// How many ids had to go.
    pub num_truncated_tokens: usize,
}

/// Two sequences after shortening, as plain values.
pub struct Truncation {
    /// What is kept of the first sequence.
    pub first: Seq<i64>,
    /// What is kept of the second sequence, where there is one.
    pub second: Option<Seq<i64>>,
    /// What was taken away and is kept aside.
    pub overflow: Seq<i64>,
}

/// An encoding as plain values.
pub struct Encoding {
    /// The ids that are kept.
    pub token_ids: Seq<i64>,
    /// For each id that is kept, the number of the text it belongs to.
    pub segment_ids: Seq<i8>,
    /// For each id that is kept, whether it was added as a mark.
    pub special_tokens_mask: Seq<i8>,
    /// The ids that were taken away and are kept aside.
    pub overflowing_tokens: Seq<i64>,
    /// How many ids had to go.
    pub num_truncated_tokens: int,
}

impl View for TokenizedInput {
    type V = Encoding;

    open spec fn view(&self) -> Encoding {
        Encoding {
            token_ids: self.token_ids@,
            segment_ids: self.segment_ids@,
            special_tokens_mask: self.special_tokens_mask@,
            overflowing_tokens: self.overflowing_tokens@,
            num_truncated_tokens: self.num_truncated_tokens as int,
        }
    }
}

/// The strategy of the given name.
pub open spec fn strategy_named(name: Seq<char>) -> Option<TruncationStrategy> {
    if name == "longest_first"@ {
        Some(TruncationStrategy::LongestFirst)
    } else if name == "only_first"@ {
        Some(TruncationStrategy::OnlyFirst)
    } else if name == "only_second"@ {
        Some(TruncationStrategy::OnlySecond)
    } else if name == "do_not_truncate"@ {
        Some(TruncationStrategy::DoNotTruncate)
    } else {
        None
    }
}

/// What is kept aside when `removed` is taken from the end of a sequence of
/// which `kept` stays: the last ids of `kept`, as many as the stride asks for
/// and `kept` has, and then `removed`.
pub open spec fn overflow_of(kept: Seq<i64>, removed: Seq<i64>, stride: int) -> Seq<i64> {
    let window = if kept.len() < stride {
        kept.len() as int
    } else {
        stride
    };
    kept.skip(kept.len() - window) + removed
}

/// How many of `n` ids go from the first of two sequences of the given lengths
/// when each id goes from the end of the longer sequence, and from the first
/// where both are of one length.
pub open spec fn taken_from_first(len_1: int, len_2: int, n: int) -> int
    decreases n,
{
    if n <= 0 {
        0
    } else if len_1 >= len_2 {
        1 + taken_from_first(len_1 - 1, len_2, n - 1)
    } else {
        taken_from_first(len_1, len_2 - 1, n - 1)
    }
}

/// The sequences shortened by `n` ids, `from_1` of them from the first and the
/// others from the second. Only what goes from the first is kept aside, unless
/// nothing goes from it: then what goes from the second is.
pub open spec fn shortened(
    tokens_1: Seq<i64>,
    tokens_2: Option<Seq<i64>>,
    from_1: int,
    from_2: int,
    aside_second: bool,
    stride: int,
) -> Truncation {
    let first = tokens_1.take(tokens_1.len() - from_1);
    match tokens_2 {
        Some(second) => {
            let kept = second.take(second.len() - from_2);
            Truncation {
                first: first,
                second: Some(kept),
                overflow: if aside_second {
                    overflow_of(kept, second.skip(second.len() - from_2), stride)
                } else {
                    overflow_of(first, tokens_1.skip(tokens_1.len() - from_1), stride)
                },
            }
        },
        None => Truncation {
            first: first,
            second: None,
            overflow: overflow_of(first, tokens_1.skip(tokens_1.len() - from_1), stride),
        },
    }
}

/// The sequences after `n` ids have gone by the given strategy, or why they
/// cannot go.
pub open spec fn truncated(
    tokens_1: Seq<i64>,
    tokens_2: Option<Seq<i64>>,
    n: int,
    strategy: TruncationStrategy,
    stride: int,
) -> Result<Truncation, EncodingError> {
    if n <= 0 {
        Ok(Truncation { first: tokens_1, second: tokens_2, overflow: Seq::empty() })
    } else {
        match tokens_2 {
            Some(second) => match strategy {
                TruncationStrategy::LongestFirst => if tokens_1.len() + second.len() >= n {
                    let from_1 = taken_from_first(tokens_1.len() as int, second.len() as int, n);
                    Ok(shortened(tokens_1, tokens_2, from_1, n - from_1, false, stride))
                } else {
                    Err(EncodingError::SequenceTooShort)
                },
                TruncationStrategy::OnlyFirst => if tokens_1.len() >= n {
                    Ok(shortened(tokens_1, tokens_2, n, 0, false, stride))
                } else {
                    Err(EncodingError::SequenceTooShort)
                },
                TruncationStrategy::OnlySecond => if second.len() >= n {
                    Ok(shortened(tokens_1, tokens_2, 0, n, true, stride))
                } else {
                    Err(EncodingError::SequenceTooShort)
                },
                TruncationStrategy::DoNotTruncate => Err(EncodingError::TruncationNotAllowed),
            },
            None => if tokens_1.len() < n {
                Err(EncodingError::SequenceTooShort)
            } else {
                match strategy {
                    TruncationStrategy::LongestFirst | TruncationStrategy::OnlyFirst => Ok(
                        shortened(tokens_1, tokens_2, n, 0, false, stride),
                    ),
                    TruncationStrategy::OnlySecond => Err(EncodingError::NoSecondSequence),
                    TruncationStrategy::DoNotTruncate => Err(EncodingError::TruncationNotAllowed),
                }
            },
        }
    }
}

/// The number of ids of a second sequence; 0 where there is none.
pub open spec fn len_of(tokens_2: Option<Seq<i64>>) -> nat {
    match tokens_2 {
        Some(second) => second.len(),
        None => 0,
    }
}

/// The encoding of one or two sequences of ids under a greatest length.
pub open spec fn encoded(
    tokens_1: Seq<i64>,
    tokens_2: Option<Seq<i64>>,
    max_len: int,
    strategy: TruncationStrategy,
    stride: int,
) -> Result<Encoding, EncodingError> {
    let total = tokens_1.len() + len_of(tokens_2);
    if total > usize::MAX {
        Err(EncodingError::TooLong)
    } else {
        let n = if total > max_len {
            total - max_len
        } else {
            0
        };
        match truncated(tokens_1, tokens_2, n, strategy, stride) {
            Err(e) => Err(e),
            Ok(t) => {
                let second = match t.second {
                    Some(s) => s,
                    None => Seq::empty(),
                };
                Ok(
                    Encoding {
                        token_ids: t.first + second,
                        segment_ids: Seq::new(t.first.len(), |i: int| 0i8) + Seq::new(
                            second.len(),
                            |i: int| 1i8,
                        ),
                        special_tokens_mask: Seq::new(t.first.len() + second.len(), |i: int| 0i8),
                        overflowing_tokens: t.overflow,
                        num_truncated_tokens: n,
                    },
                )
            },
        }
    }
}

impl TruncationStrategy {
    /// The strategy of the given name; `None` for a name that names none.
    pub fn from_name(name: &str) -> (r: Option<TruncationStrategy>)
        ensures
            r == strategy_named(name@),
    {
        if same_text(name, "longest_first") {
            Some(TruncationStrategy::LongestFirst)
        } else if same_text(name, "only_first") {
            Some(TruncationStrategy::OnlyFirst)
        } else if same_text(name, "only_second") {
            Some(TruncationStrategy::OnlySecond)
        } else if same_text(name, "do_not_truncate") {
            Some(TruncationStrategy::DoNotTruncate)
        } else {
            None
        }
    }
}

/// The ids from index `from` up to index `to`.
fn copy_range(ids: &Vec<i64>, from: usize, to: usize) -> (r: Vec<i64>)
    requires
        from <= to <= ids@.len(),
    ensures
        r@ == ids@.subrange(from as int, to as int),
{
    let mut out: Vec<i64> = Vec::new();
    let mut i: usize = from;
    while i < to
        invariant
            from <= i <= to <= ids@.len(),
            out@ == ids@.subrange(from as int, i as int),
        decreases to - i,
    {
        out.push(ids[i]);
        i += 1;
        assert(out@ =~= ids@.subrange(from as int, i as int));
    }
    out
}

/// Takes `n` ids from the end of a sequence: what is kept, and what is kept
/// aside.
fn truncate_with_overflow(sequence: &Vec<i64>, n: usize, stride: usize) -> (r: (
    Vec<i64>,
    Vec<i64>,
))
    requires
        n <= sequence@.len(),
    ensures
        r.0@ == sequence@.take(sequence@.len() - n),
        r.1@ == overflow_of(
            sequence@.take(sequence@.len() - n),
            sequence@.skip(sequence@.len() - n),
            stride as int,
        ),
{
    let len = sequence.len();
    let cutoff = len - n;
    let window = if cutoff < stride {
        cutoff
    } else {
        stride
    };
    let kept = copy_range(sequence, 0, cutoff);
    let overflow = copy_range(sequence, cutoff - window, len);
    proof {
        let k = sequence@.take(cutoff as int);
        assert(kept@ =~= k);
        assert(overflow@ =~= k.skip(k.len() - window) + sequence@.skip(cutoff as int));
    }
    (kept, overflow)
}

/// How many of `n` ids go from the first of two sequences of the given
/// lengths.
fn count_taken_from_first(len_1: usize, len_2: usize, n: usize) -> (r: usize)
    requires
        n <= len_1 + len_2,
    ensures
        r == taken_from_first(len_1 as int, len_2 as int, n as int),
        r <= len_1,
        r <= n,
        n - r <= len_2,
{
    let mut keep_1: usize = len_1;
    let mut keep_2: usize = len_2;
    let mut left: usize = n;
    while left > 0
        invariant
            keep_1 <= len_1,
            keep_2 <= len_2,
            left <= keep_1 + keep_2,
            (len_1 - keep_1) + (len_2 - keep_2) + left == n,
            taken_from_first(len_1 as int, len_2 as int, n as int) == (len_1 - keep_1)
                + taken_from_first(keep_1 as int, keep_2 as int, left as int),
        decreases left,
    {
        if keep_1 >= keep_2 {
            keep_1 -= 1;
        } else {
            keep_2 -= 1;
        }
        left -= 1;
    }
    len_1 - keep_1
}

/// Shortens one or two sequences of ids by `num_tokens_to_remove` ids.
pub fn truncate_sequences(
    tokens_1: Vec<i64>,
    tokens_2: Option<Vec<i64>>,
    num_tokens_to_remove: usize,
    truncation_strategy: &TruncationStrategy,
    stride: usize,
) -> (r: Result<(Vec<i64>, Option<Vec<i64>>, Vec<i64>), EncodingError>)
    ensures
        match r {
            Ok((first, second, overflow)) => truncated(
                tokens_1@,
                sequence_view(tokens_2),
                num_tokens_to_remove as int,
                *truncation_strategy,
                stride as int,
            ) == Ok::<Truncation, EncodingError>(
                Truncation { first: first@, second: sequence_view(second), overflow: overflow@ },
            ),
            Err(e) => truncated(
                tokens_1@,
                sequence_view(tokens_2),
                num_tokens_to_remove as int,
                *truncation_strategy,
                stride as int,
            ) == Err::<Truncation, EncodingError>(e),
        },
{
    let n = num_tokens_to_remove;
    if n == 0 {
        return Ok((tokens_1, tokens_2, Vec::new()));
    }
    let len_1 = tokens_1.len();
    match tokens_2 {
        Some(second) => {
            let len_2 = second.len();
            match truncation_strategy {
                TruncationStrategy::LongestFirst => {
                    if n > len_1 && n - len_1 > len_2 {
                        return Err(EncodingError::SequenceTooShort);
                    }
                    let from_1 = count_taken_from_first(len_1, len_2, n);
                    let (first, overflow) = truncate_with_overflow(&tokens_1, from_1, stride);
                    let kept = copy_range(&second, 0, len_2 - (n - from_1));
                    assert(kept@ =~= second@.take(len_2 - (n - from_1)));
                    Ok((first, Some(kept), overflow))
                },
                TruncationStrategy::OnlyFirst => {
                    if len_1 < n {
                        return Err(EncodingError::SequenceTooShort);
                    }
                    let (first, overflow) = truncate_with_overflow(&tokens_1, n, stride);
                    assert(second@.take(second@.len() - 0) =~= second@);
                    Ok((first, Some(second), overflow))
                },
                TruncationStrategy::OnlySecond => {
                    if len_2 < n {
                        return Err(EncodingError::SequenceTooShort);
                    }
                    let (kept, overflow) = truncate_with_overflow(&second, n, stride);
                    assert(tokens_1@.take(tokens_1@.len() - 0) =~= tokens_1@);
                    Ok((tokens_1, Some(kept), overflow))
                },
                TruncationStrategy::DoNotTruncate => Err(EncodingError::TruncationNotAllowed),
            }
        },
        None => {
            if len_1 < n {
                return Err(EncodingError::SequenceTooShort);
            }
            match truncation_strategy {
                TruncationStrategy::LongestFirst | TruncationStrategy::OnlyFirst => {
                    let (first, overflow) = truncate_with_overflow(&tokens_1, n, stride);
                    Ok((first, None, overflow))
                },
                TruncationStrategy::OnlySecond => Err(EncodingError::NoSecondSequence),
                TruncationStrategy::DoNotTruncate => Err(EncodingError::TruncationNotAllowed),
            }
        },
    }
}

/// The ids of a second sequence as plain values.
pub open spec fn sequence_view(tokens: Option<Vec<i64>>) -> Option<Seq<i64>> {
    match tokens {
        Some(v) => Some(v@),
        None => None,
    }
}

/// `n` times the same value.
fn repeated(value: i8, n: usize) -> (r: Vec<i8>)
    ensures
        r@ == Seq::new(n as nat, |i: int| value),
{
    let mut out: Vec<i8> = Vec::new();
    let mut i: usize = 0;
    while i < n
        invariant
            i <= n,
            out@ == Seq::new(i as nat, |k: int| value),
        decreases n - i,
    {
        out.push(value);
        i += 1;
        assert(out@ =~= Seq::new(i as nat, |k: int| value));
    }
    out
}

/// Encodes one or two sequences of ids: they are shortened to `max_len` ids in
/// all, put one after the other, and marked by the sequence they come from.
pub fn encode_ids(
    tokens_1: Vec<i64>,
    tokens_2: Option<Vec<i64>>,
    max_len: usize,
    truncation_strategy: &TruncationStrategy,
    stride: usize,
) -> (r: Result<TokenizedInput, EncodingError>)
    ensures
        match r {
            Ok(input) => encoded(
                tokens_1@,
                sequence_view(tokens_2),
                max_len as int,
                *truncation_strategy,
                stride as int,
            ) == Ok::<Encoding, EncodingError>(input@),
            Err(e) => encoded(
                tokens_1@,
                sequence_view(tokens_2),
                max_len as int,
                *truncation_strategy,
                stride as int,
            ) == Err::<Encoding, EncodingError>(e),
        },
{
    let len_1 = tokens_1.len();
    let len_2 = match &tokens_2 {
        Some(second) => second.len(),
        None => 0,
    };
    if len_2 > usize::MAX - len_1 {
        return Err(EncodingError::TooLong);
    }
    let total = len_1 + len_2;
    let num_truncated_tokens = if total > max_len {
        total - max_len
    } else {
        0
    };
    match truncate_sequences(tokens_1, tokens_2, num_truncated_tokens, truncation_strategy, stride) {
        Err(e) => Err(e),
        Ok((first, second, overflowing_tokens)) => {
            let mut token_ids = first;
            let kept_1 = token_ids.len();
            let mut segment_ids = repeated(0, kept_1);
            let kept_2 = match second {
                Some(mut tokens) => {
                    let kept_2 = tokens.len();
                    token_ids.append(&mut tokens);
                    kept_2
                },
                None => {
                    assert(token_ids@ + Seq::<i64>::empty() =~= token_ids@);
                    0
                },
            };
            let mut ones = repeated(1, kept_2);
            segment_ids.append(&mut ones);
            let special_tokens_mask = repeated(0, token_ids.len());
            Ok(
                TokenizedInput {
                    token_ids,
                    segment_ids,
                    special_tokens_mask,
                    overflowing_tokens,
                    num_truncated_tokens,
                },
            )
        },
    }
}

} // verus!

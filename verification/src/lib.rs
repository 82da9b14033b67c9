//! Byte-level byte-pair-encoding tokenizer of the GPT-2 family, with its
//! behaviour stated in contracts and proved.
//!
//! A text is cut into tokens in these steps: special symbols are carved out
//! (`special`), the text between them is cut into chunks by two regular
//! expressions and written in a visible alphabet of 256 code points
//! (`pretokenize`, `alphabet`), and each chunk is split into sub-symbols by
//! merging pairs of symbols in the order of their rank (`bpe`, `merges`).
//! `tokenizer` puts the steps together and remembers the sub-symbols of the
//! chunks it has seen (`cache`); `detokenize` is the way back, `vocab` turns
//! symbols into ids and ids into symbols, and `encoding` shortens sequences of
//! ids to a greatest length. `laws` holds what is proved of the whole:
//! tokens keep the order and the content of the text.

pub mod alphabet;
pub mod text;
pub mod places;
pub mod merges;
pub mod bpe;
pub mod cache;
pub mod vocab;
pub mod special;
pub mod pretokenize;
pub mod tokenizer;
pub mod detokenize;
pub mod encoding;
pub mod laws;

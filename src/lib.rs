//! Morphological analysis: a dictionary of known words indexed by a double-array
//! trie, a connection-cost model, unknown-word synthesis from character
//! categories, and a minimum-cost lattice search that segments text into tokens.

use vstd::prelude::*;

pub mod trie;
pub mod dictionary;
pub mod tokenizer;
pub mod token_filter;
pub mod error;
pub mod format;
pub mod builder;
pub mod render;

verus! {

} // verus!

//! Greedy pair-merge compression of text: the most frequent adjacent pair of
//! word symbols is replaced by a fresh synthetic symbol, merge after merge,
//! and the replacement table decodes every merged text back to its source.

pub mod symbols;
pub mod counting;
pub mod tally;
pub mod merge;
pub mod decode;
pub mod strategy;
pub mod preprocess;

pub use decode::{decode, expand_symbol, has_reserved_symbols, pair_fragments};
pub use merge::{find_common_byte_pair, merge_step, replace_pair, Merge};
pub use preprocess::{collapse_whitespace, preprocess_text, preprocess_text_with_options};
pub use strategy::{best_prefix_len, iterate, opti_search, GreedySearch, MergeRun, Proposal};
pub use symbols::{synthetic_symbol, SYNTHETIC_BASE};
pub use tally::most_common_pair;

//! Building a pruned, offset-indexed backoff language model from n-gram counts.

pub mod bigrams;
pub mod blocks;
pub mod model;
pub mod pipeline;
pub mod symbols;
pub mod table;
pub mod text;
pub mod trigrams;
pub mod unigrams;
pub mod utilities;

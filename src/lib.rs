//! A variable-order Markov chain over tokens of any type that can be compared, with a word
//! adapter for text. The transition table, the training and the sampling are all verified.

mod chain;
mod distribution;
mod text;
mod token;

pub use chain::{
    ctx_view, observations, padded, rc_views, repeated_context, start_context, token_views,
    window_context, window_successor, Chain, InfiniteChainIterator, SizedChainIterator,
};
pub use distribution::Distribution;
pub use text::{
    fields_of, join_words, lemma_words_round_trip, split_fields, split_words, white_space, words_of,
    InfiniteChainStringIterator, SizedChainStringIterator,
};
pub use token::{slot_view, Chainable, Slot};

//! Lorem ipsum placeholder text, generated by an order-two Markov chain.
//!
//! The chain learns word-transition statistics from seed texts — by
//! default the traditional lorem ipsum paragraph and a longer passage of
//! the Latin it came from — and produces plausible-looking filler by
//! randomly walking the learned transition table, formatting the words
//! into capitalized, punctuated sentences.

pub mod chain;
pub mod corpus;
pub mod facade;
pub mod format;
pub mod rng;
pub mod text;

pub use chain::Bigram;
pub use chain::MarkovChain;
pub use corpus::LIBER_PRIMUS;
pub use corpus::LOREM_IPSUM;
pub use facade::lipsum;
pub use facade::lipsum_title;
pub use facade::lipsum_with_rng;
pub use facade::lipsum_words;
pub use facade::lipsum_words_with_rng;
pub use format::capitalize;
pub use format::is_ascii_punctuation;
pub use format::join_words;

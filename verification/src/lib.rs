//! Unigram and bigram frequencies of a large corpus of text.
//!
//! A corpus is split into shards, one article on each line. The shards are
//! counted one by one, each against the same vocabulary: words that the
//! vocabulary lacks are counted under one token. The counts of the shards
//! are merged into the counts of the corpus, which are written as a table of
//! the tokens that stand in enough articles. Merging is a sum, key by key,
//! so that neither the number of shards nor the order in which their counts
//! arrive changes a character of the table.
//!
//! `ngrams` says what is counted, and states the laws of merging;
//! `create_frequencies` counts and merges; `frequency_table` writes the
//! table; `topkwords` reads the most frequent words back from it; `split`
//! deals a corpus out to shards; `util` reads lines and dictionaries;
//! `validate` judges the arguments of the command line. `table`, `order`,
//! `accumulator`, `vocabulary` and `chars` are what these are built on, and
//! `outside` holds every contract that is believed and not proved.

pub mod accumulator;
pub mod chars;
pub mod create_frequencies;
pub mod frequency_table;
pub mod ngrams;
pub mod order;
pub mod outside;
pub mod split;
pub mod table;
pub mod topkwords;
pub mod util;
pub mod validate;
pub mod vocabulary;

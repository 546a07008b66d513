//! A word-frequency counter built around a fork/merge pipeline: the input
//! text is split into whitespace-delimited tokens, the token list is
//! partitioned into one contiguous chunk per worker, each chunk is normalized
//! and counted into a local frequency table, and the local tables are merged
//! into a single master table by summing the counts per word.
//!
//! Everything that decides or computes lives here; running the workers in
//! parallel and printing the result are left to the surrounding program.

mod freq;
mod norm;
mod pipeline;
mod tokenizer;

pub use freq::FreqTable;
pub use norm::is_alnum;
pub use norm::is_normal_word;
pub use norm::keep_alnum;
pub use norm::lemma_normalize_idempotent;
pub use norm::lower_of;
pub use norm::normalize;
pub use norm::normalize_spec;
pub use pipeline::chunk_len;
pub use pipeline::concat_chunks;
pub use pipeline::count_in;
pub use pipeline::count_tokens;
pub use pipeline::count_words;
pub use pipeline::covered_tokens;
pub use pipeline::lemma_count_in_concat;
pub use pipeline::lemma_count_in_le_len;
pub use pipeline::lemma_merge_correct;
pub use pipeline::lemma_partition_complete;
pub use pipeline::lemma_worker_count_irrelevant;
pub use pipeline::sum_chunk_counts;
pub use pipeline::worker_chunk;
pub use tokenizer::is_space;
pub use tokenizer::tokenize;
pub use tokenizer::tokens_spec;

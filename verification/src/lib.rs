//! Integer magnitude compression.
//!
//! A single deterministic transform that maps an unsigned integer onto a
//! representative sharing its most-significant bits, while the discarded low
//! bits alternate between two fixed patterns so that the rounding bias of
//! plain truncation cancels out across buckets.

mod compress;
mod model;
mod props;

pub use compress::{
    compress_int, compress_u16, compress_u32, compress_u8, try_compress_int, CompressError,
};
pub use model::{
    compress_spec, compresses, discard_count, high_bit_index, prefix_of, selector_of, suffix_of,
};
pub use props::{lemma_bucket_collapse, lemma_prefix_preserved, lemma_two_valued_range};

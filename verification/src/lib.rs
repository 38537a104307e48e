//! Merging of two sorted slices into one sorted sequence, in a single pass or
//! in blocks that several workers merge side by side.
//!
//! - [`seq_merge`], [`seq_merge_by`] and [`seq_merge_by_key`] merge in one
//!   pass into any [`Sink`].
//! - [`par_merge`], [`par_merge_by`] and [`par_merge_by_key`] cut the inputs
//!   into blocks that can be merged apart from each other, let rayon's
//!   workers merge them into the blocks of one buffer, and give the same
//!   result.
//!
//! What a merge is, and what holds of it, is stated in [`model`]; where a
//! merge can be cut, in [`cuts`]. The blocks are planned in [`plan`]. The
//! utilities that divide lengths and cut slices are in [`utils`], the sinks
//! in [`writer`].

pub mod cuts;
pub mod model;
pub mod par;
pub mod plan;
pub mod seq;
pub mod utils;
pub mod writer;

pub use par::{par_merge, par_merge_by, par_merge_by_key, par_merge_in_parts};
pub use seq::{merge_into, seq_merge, seq_merge_by, seq_merge_by_key};
pub use utils::{
    even_division_lens, partition_by_indices, partition_by_indices_mut, partition_by_lens,
    partition_by_lens_mut,
};
pub use writer::{MutSliceWriter, Sink};

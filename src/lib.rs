//! Morphological analysis core: a surface-form dictionary, a part-of-speech
//! adjacency validator, a substring pattern matcher, a minimum-cost
//! segmentation engine and a binary encoding of the dictionary.
use vstd::prelude::*;

pub mod analyzer;
pub mod dictionary;
pub mod laws;
pub mod patterns;
pub mod persist;
pub mod tags;
pub mod text;

pub use dictionary::RustTrie;
pub use persist::{from_stored, StoreError, Stored};
pub use tags::is_valid_transition;

verus! {

} // verus!

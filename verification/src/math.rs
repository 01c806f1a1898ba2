pub use crate::signal::{held_index, lemma_held_index_clamps, HoldSampler, ZeroSampler};

//! Preparation of a labelled image dataset for a small dense classifier:
//! decoding of IDX containers, the example-wise view of a dataset, a
//! pair-preserving Fisher-Yates shuffle and the shape of a dense layer.

pub mod dataset;
pub mod idx;
pub mod layer;
pub mod shuffle;

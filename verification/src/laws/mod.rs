//! What holds of the library as a whole.

pub mod answers;
pub mod attribute_order;
pub mod decoding;
pub mod documents;
pub mod equivalence;
pub mod fixed_point;
pub mod labelling;
pub mod merging;
pub mod models;
pub mod names;
pub mod promotion;
pub mod references;
pub mod reordering;
pub mod semantic_tree;
pub mod shapes;
pub mod tags;
pub mod trees;
pub mod words;

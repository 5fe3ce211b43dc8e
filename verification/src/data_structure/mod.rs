pub mod dsu;
pub mod monoid;
pub mod segment_tree;
pub mod bit_set;
pub mod sparse_table;
pub mod fenwick_tree;
pub mod wavelet_matrix;
pub mod splay_tree;
pub mod lazy_seg_tree;
pub mod sqrtvec;

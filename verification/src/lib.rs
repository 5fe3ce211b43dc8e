pub mod data_structure;
pub mod num_lemmas;
pub mod vec_util;
pub mod mod_int;
pub mod slice;
pub mod graph;
pub mod number_theory;
pub mod random;
pub mod other;
pub mod legacy;
pub mod io;
pub mod number;
pub mod iterext;
pub mod graph2;
pub mod geometory;

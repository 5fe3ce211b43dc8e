pub mod bit;
pub mod array_vec;
pub mod rect_array;
pub mod matrix;
pub mod mat_algebra;
pub mod zeta;
pub mod merge;
pub mod square_mat;

pub mod hash;
pub mod number;
pub mod dft;
pub mod matrix;
pub mod f2;

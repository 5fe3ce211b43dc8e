pub mod bm;
pub mod number_theory;
pub mod lucy;
pub mod totient;

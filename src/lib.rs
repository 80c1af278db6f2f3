//! Reversible bit-permutation circuits: two gate encodings, their forward
//! simulation, structural mutation operators and a compressibility score.

pub mod bits;
pub mod wiring;
pub mod table;
pub mod arbitrairy_program;
pub mod fredkins_program;
pub mod scoring;

pub use scoring::{eval, eval_many};

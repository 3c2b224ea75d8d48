//! The oblivious-transfer engine and its supporting arithmetic.

pub mod apricot;
pub mod bitmatrix;
pub mod chou_orlandi;
pub mod common;
pub mod polynomial;
pub mod primitives;

//! Two-party oblivious transfer: a base protocol over an elliptic curve, an
//! extension protocol that amplifies it, and the bit-matrix and polynomial
//! arithmetic both rest on. Beside it stand two small garbling schemes,
//! one for arithmetic and one for boolean circuits.

pub mod arith;
pub mod ot;
pub mod util;
pub mod yao;

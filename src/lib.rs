//! A growable sequence container built from a fixed-size buffer (`Array`)
//! and a list (`List`) that grows and shrinks it by powers of two.
pub mod array;
pub mod error;
pub mod list;
pub mod pow2;

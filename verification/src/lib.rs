//! Fixed-size 128-bit sets of small indices, stored in two 64-bit words.
//!
//! `BitSet128` holds any set of indices in `0..128`. Its contracts describe it as a
//! `Set<int>` (its view `@`): every operation states what it does to that set.

pub mod word;
pub mod bitset128;
pub mod text;
pub mod laws;

pub use bitset128::{BitSet128, BitSet128Iter};

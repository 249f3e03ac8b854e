//! A map from `usize` keys to `usize` values that keeps its entries in a
//! linear store while it is small and moves them, once, to a hash table when
//! an insertion finds it grown to its switch size.

mod hashed;
pub mod laws;
pub mod linear;
pub mod model;
pub mod optimap;
pub mod support;

pub use crate::optimap::{OptiMap, DEFAULT_SWITCH_SIZE};
pub use crate::support::MapSupport;

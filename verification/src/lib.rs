//! A puncturable pseudorandom function over a binary tree of keyed hashes.

pub mod bits;
pub mod frontier;
pub mod ggm;
pub mod guarantees;
pub mod key;
pub mod prg;
pub mod server;

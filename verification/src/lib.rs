//! NVMe-native single-machine vector search.
//!
//! Floating-point values travel through this crate as their IEEE 754 bit
//! patterns; see [`bits`].

pub mod beam;
pub mod bench;
pub mod bits;
pub mod brute;
pub mod bytes;
pub mod dataset;
pub mod disk;
pub mod distance;
pub mod eval;
pub mod graph;
pub mod io;
pub mod layout;
pub mod parity;
pub mod pipeline;
pub mod quant;
pub mod reach;
pub mod ring;
pub mod schedule;
pub mod scorer;
pub mod search;
pub mod select;
pub mod server;
pub mod topk;
pub mod vamana;

//! File synchronization by content-addressed block matching.
//!
//! A *basis* file is summarized by a [`signature`]: one rolling hash and one
//! strong hash per fixed-size chunk. A [`delta`] is computed against that
//! signature from an *updated* file: a stream of tokens that either reuse a
//! basis chunk by index or carry a single literal byte. A [`patch`] applies
//! a delta to the basis bytes and reconstructs the updated file. The
//! [`wire`] module gives both artifacts a stable binary encoding, and
//! [`laws`] states and proves the properties that tie the pieces together.

pub mod commands;
pub mod delta;
pub mod laws;
pub mod patch;
pub mod rolling;
pub mod signature;
pub mod wire;

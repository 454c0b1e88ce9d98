//! A data-driven binary image builder.
//!
//! From a declarative block layout and a version-stacked data source the
//! library encodes typed fields into padded byte blocks, applies a
//! parameterized CRC-32, and serializes the result as Intel HEX or
//! Motorola S-records.

pub mod data;
pub mod layout;
pub mod output;

//! The layout engine: value model, field encoding, block building, CRC,
//! and the used-value report.

pub mod block;
pub mod convert;
pub mod crc;
pub mod error;
pub mod field;
pub mod report;
pub mod settings;
pub mod used_values;
pub mod encode;
pub mod floatbits;
pub mod value;

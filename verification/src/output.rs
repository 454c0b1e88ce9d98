//! Output formats: Intel HEX and Motorola S-record serialization.

pub mod records;

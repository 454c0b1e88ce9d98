//! Build settings shared across blocks.

use vstd::prelude::*;
use crate::layout::crc::CrcParams;
use crate::layout::encode::Endianness;

verus! {

/// The byte range a configured CRC covers.
#[derive(Clone, Copy, Debug, PartialEq, Eq, Structural)]
pub enum CrcArea {
    /// This block's bytes, with the CRC slot zeroed.
    Data,
    /// The cumulative stream; applied here per block, cross-block checks
    /// are a caller-driven post-pass.
    All,
}

/// The CRC configuration of the `[settings]` table.
#[derive(Clone, Copy, Debug, PartialEq, Eq, Structural)]
pub struct CrcSettings {
    pub params: CrcParams,
    pub area: CrcArea,
}

/// Global settings: byte order, the physical-to-virtual offset, and the
/// optional CRC parameters.
#[derive(Clone, Debug)]
pub struct Settings {
    pub endianness: Endianness,
    pub virtual_offset: u32,
    pub crc: Option<CrcSettings>,
}

} // verus!

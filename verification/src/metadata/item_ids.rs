//! Well-known metadata item GUIDs in on-disk (mixed-endian) byte form.
use vstd::prelude::*;

verus! {

/// File Parameters: CAA16737-FA36-4D43-B3B6-33F0AA44E76B
pub const FILE_PARAMETERS: [u8; 16] = [
    0x37,
    0x67,
    0xA1,
    0xCA,
    0x36,
    0xFA,
    0x43,
    0x4D,
    0xB3,
    0xB6,
    0x33,
    0xF0,
    0xAA,
    0x44,
    0xE7,
    0x6B,
];

/// Virtual Disk Size: 2FA54224-CD1B-4876-B211-5DBED83BF4B8
pub const VIRTUAL_DISK_SIZE: [u8; 16] = [
    0x24,
    0x42,
    0xA5,
    0x2F,
    0x1B,
    0xCD,
    0x76,
    0x48,
    0xB2,
    0x11,
    0x5D,
    0xBE,
    0xD8,
    0x3B,
    0xF4,
    0xB8,
];

/// Logical Sector Size: 8141BF1D-A96F-4709-BA47-F233A8FAAB5F
pub const LOGICAL_SECTOR_SIZE: [u8; 16] = [
    0x1D,
    0xBF,
    0x41,
    0x81,
    0x6F,
    0xA9,
    0x09,
    0x47,
    0xBA,
    0x47,
    0xF2,
    0x33,
    0xA8,
    0xFA,
    0xAB,
    0x5F,
];

/// Physical Sector Size: CDA348C7-445D-4471-9CC9-E9885251C556
pub const PHYSICAL_SECTOR_SIZE: [u8; 16] = [
    0xC7,
    0x48,
    0xA3,
    0xCD,
    0x5D,
    0x44,
    0x71,
    0x44,
    0x9C,
    0xC9,
    0xE9,
    0x88,
    0x52,
    0x51,
    0xC5,
    0x56,
];

/// Page 83 Data: BECA12AB-B2E6-4523-93EF-C309E000C746
pub const PAGE_83_DATA: [u8; 16] = [
    0xAB,
    0x12,
    0xCA,
    0xBE,
    0xE6,
    0xB2,
    0x23,
    0x45,
    0x93,
    0xEF,
    0xC3,
    0x09,
    0xE0,
    0x00,
    0xC7,
    0x46,
];

} // verus!

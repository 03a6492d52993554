//! Little-endian fields.
use vhdx::endian::{read_u16_le, read_u32_le, read_u64_le};

/// Byte order, against literal bytes.
///
/// Asserting it against `from_le_bytes` would restate the
/// implementation. These are the numbers a hex dump shows.
#[test]
fn the_low_byte_comes_first() {
    let b = [0x01u8, 0x02, 0x03, 0x04, 0x05, 0x06, 0x07, 0x08];
    assert_eq!(read_u16_le(&b, 0), 0x0201);
    assert_eq!(read_u32_le(&b, 0), 0x0403_0201);
    assert_eq!(read_u64_le(&b, 0), 0x0807_0605_0403_0201);
}

/// The offset is a byte offset, not an index into units of the
/// width being read.
#[test]
fn the_offset_counts_bytes() {
    let b = [0x00u8, 0xAA, 0xBB, 0x00];
    assert_eq!(read_u16_le(&b, 1), 0xBBAA);
}

#[test]
fn the_widest_values_survive_the_round_trip() {
    let b = [0xFFu8; 8];
    assert_eq!(read_u16_le(&b, 0), u16::MAX);
    assert_eq!(read_u32_le(&b, 0), u32::MAX);
    assert_eq!(read_u64_le(&b, 0), u64::MAX);
}

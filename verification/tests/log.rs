//! Parsing, choosing, replaying and encoding log entries.
use vhdx::checksum::checksum;
use vhdx::device::{DeviceOp, ZeroSpan};
use vhdx::log::{apply_chain, collect_replay_chain, encode_entry};
use vhdx::log::{Descriptor, LogEntry, PendingWrite};
use vhdx::log::{
    LOG_ENTRY_HEADER_SIZE, LOG_ENTRY_SIGNATURE, LOG_SECTOR_SIZE, ZERO_DESC_SIGNATURE,
};

#[test]
fn encode_then_parse_roundtrip() {
    let log_guid = [0x42u8; 16];
    let mut sector = vec![0xABu8; LOG_SECTOR_SIZE];
    // Distinguish leading/trailing bytes so the decoder has work to do.
    sector[0..8].copy_from_slice(&0x1122_3344_5566_7788u64.to_le_bytes());
    sector[LOG_SECTOR_SIZE - 4..].copy_from_slice(&0xDEAD_BEEFu32.to_le_bytes());

    let entry = encode_entry(
        7,
        0,
        &log_guid,
        64 * 1024 * 1024,
        64 * 1024 * 1024,
        &[PendingWrite {
            file_offset: 4 * 1024 * 1024,
            sector: sector.clone(),
        }],
    );

    // Pad to a 1 MiB log region for parse_log_entry's bounds.
    let mut log_bytes = vec![0u8; 1024 * 1024];
    log_bytes[..entry.len()].copy_from_slice(&entry);

    let chain = collect_replay_chain(&log_bytes, &log_guid);
    assert_eq!(chain.len(), 1);
    match &chain[0].descriptors[0] {
        Descriptor::Data {
            file_offset,
            sector: reconstructed,
            ..
        } => {
            assert_eq!(*file_offset, 4 * 1024 * 1024);
            assert_eq!(reconstructed, &sector);
        }
        _ => panic!("expected data descriptor"),
    }
}

#[test]
fn a_collected_entry_keeps_every_field_of_its_header() {
    let log_guid = [0x42u8; 16];
    let writes: Vec<PendingWrite> = (0..3u64)
        .map(|i| PendingWrite {
            file_offset: (4 + i) * 1024 * 1024,
            sector: vec![i as u8; LOG_SECTOR_SIZE],
        })
        .collect();
    let entry = encode_entry(9, 0, &log_guid, 5 << 20, 64 << 20, &writes);
    let mut log_bytes = vec![0u8; 1024 * 1024];
    log_bytes[..entry.len()].copy_from_slice(&entry);

    let chain = collect_replay_chain(&log_bytes, &log_guid);
    assert_eq!(chain.len(), 1);
    let header = &chain[0].header;
    assert_eq!(header.entry_length as usize, entry.len());
    assert_eq!(header.tail, 0);
    assert_eq!(header.sequence_number, 9);
    assert_eq!(header.descriptor_count, 3);
    assert_eq!(chain[0].descriptors.len(), 3);
    assert_eq!(header.log_guid, log_guid);
    assert_eq!(header.flushed_file_offset, 5 << 20);
    assert_eq!(header.last_file_offset, 64 << 20);
}

#[test]
fn empty_log_guid_skips_replay() {
    let log_bytes = vec![0u8; 1024 * 1024];
    let chain = collect_replay_chain(&log_bytes, &[0u8; 16]);
    assert!(chain.is_empty());
}

// -----------------------------------------------------------------
// Chain-shape fixtures.
//
// Every entry below is a one-descriptor entry, so each occupies
// exactly two 4 KiB sectors: one for the header + descriptor table,
// one for the paired data sector. Laying them back to back at
// multiples of that length is the shape the format calls a
// contiguous chain, and it is what the replay walk has to follow.
// -----------------------------------------------------------------

const TEST_REGION_LEN: usize = 1024 * 1024;
const ONE_WRITE_ENTRY_LEN: usize = 2 * LOG_SECTOR_SIZE;
const LIVE_GUID: [u8; 16] = [0x42u8; 16];
const FOREIGN_GUID: [u8; 16] = [0x99u8; 16];

/// Device offset that entry `seq` in a fixture chain writes to.
/// Distinct per sequence number so a replayed entry is identifiable
/// by where it landed.
fn target_of(seq: u64) -> u64 {
    4 * 1024 * 1024 + seq * LOG_SECTOR_SIZE as u64
}

/// A one-descriptor entry that writes a `seq`-derived fill pattern
/// at `target_of(seq)`.
fn one_write_entry(seq: u64, tail: u32, guid: &[u8; 16]) -> Vec<u8> {
    encode_entry(
        seq,
        tail,
        guid,
        0,
        0,
        &[PendingWrite {
            file_offset: target_of(seq),
            sector: vec![0x10u8.wrapping_add(seq as u8); LOG_SECTOR_SIZE],
        }],
    )
}

fn splice(region: &mut [u8], off: usize, entry: &[u8]) {
    region[off..off + entry.len()].copy_from_slice(entry);
}

/// Region holding sequences `1..=count` back to back from offset 0,
/// all in the live chain, all advertising `tail = 0`.
fn contiguous_chain(count: u64) -> Vec<u8> {
    let mut region = vec![0u8; TEST_REGION_LEN];
    for seq in 1..=count {
        let off = (seq as usize - 1) * ONE_WRITE_ENTRY_LEN;
        splice(&mut region, off, &one_write_entry(seq, 0, &LIVE_GUID));
    }
    region
}

fn sequences(chain: &[LogEntry]) -> Vec<u64> {
    chain.iter().map(|e| e.header.sequence_number).collect()
}

fn replayed_offsets(chain: &[LogEntry]) -> Vec<u64> {
    chain
        .iter()
        .flat_map(|e| e.descriptors.iter())
        .map(|d| match d {
            Descriptor::Data { file_offset, .. } => *file_offset,
            Descriptor::Zero { file_offset, .. } => *file_offset,
        })
        .collect()
}

/// In-memory device so a chain can be applied and the resulting bytes
/// inspected: the only way to state "the successors were not written" as
/// an assertion about the device rather than about the chain.
struct MemDevice(Vec<u8>);

impl MemDevice {
    fn filled(len: usize, fill: u8) -> MemDevice {
        MemDevice(vec![fill; len])
    }

    fn byte_at(&self, off: u64) -> u8 {
        self.0[off as usize]
    }

    fn write_at(&mut self, off: u64, data: &[u8]) {
        let start = off as usize;
        self.0[start..start + data.len()].copy_from_slice(data);
    }

    fn perform(&mut self, ops: &[DeviceOp]) {
        for op in ops {
            match op {
                DeviceOp::Write { offset, data } => self.write_at(*offset, data),
                DeviceOp::Zeros { offset, len } => {
                    let mut span = ZeroSpan { offset: *offset, remaining: *len };
                    while let Some((at, n)) = span.next_piece() {
                        self.write_at(at, &vec![0u8; n]);
                    }
                }
                DeviceOp::Flush => {}
            }
        }
    }
}

// -----------------------------------------------------------------
// What replay must do.
// -----------------------------------------------------------------

#[test]
fn contiguous_multi_entry_chain_replays_in_full() {
    let region = contiguous_chain(4);
    let chain = collect_replay_chain(&region, &LIVE_GUID);
    assert_eq!(sequences(&chain), vec![1, 2, 3, 4]);
    assert_eq!(
        replayed_offsets(&chain),
        (1..=4).map(target_of).collect::<Vec<_>>()
    );
}

#[test]
fn torn_entry_ends_the_chain_and_its_successors_are_dropped() {
    let mut region = contiguous_chain(4);
    // Tear entry 3: flip a byte inside its data sector. The entry
    // header still says "loge" and still claims its length, but the
    // CRC no longer covers what is there — exactly what a crash
    // partway through writing an entry leaves behind.
    region[2 * ONE_WRITE_ENTRY_LEN + LOG_SECTOR_SIZE + 100] ^= 0xFF;

    let chain = collect_replay_chain(&region, &LIVE_GUID);
    assert_eq!(
        sequences(&chain),
        vec![1, 2],
        "replay must stop at the torn entry, not step over it"
    );
    assert!(
        !replayed_offsets(&chain).contains(&target_of(4)),
        "entry 4 follows the tear and must not be applied"
    );
}

#[test]
fn successors_of_a_torn_entry_never_reach_the_device() {
    let mut region = contiguous_chain(4);
    region[2 * ONE_WRITE_ENTRY_LEN + LOG_SECTOR_SIZE + 100] ^= 0xFF;

    let mut dev = MemDevice::filled(8 * 1024 * 1024, 0xCC);
    dev.perform(&apply_chain(&collect_replay_chain(&region, &LIVE_GUID)));

    assert_eq!(dev.byte_at(target_of(1)), 0x11);
    assert_eq!(dev.byte_at(target_of(2)), 0x12);
    assert_eq!(
        dev.byte_at(target_of(3)),
        0xCC,
        "the torn entry itself must not be applied"
    );
    assert_eq!(
        dev.byte_at(target_of(4)),
        0xCC,
        "applying entry 4 without entry 3 is the state the log exists to prevent"
    );
}

#[test]
fn a_sequence_gap_ends_the_chain() {
    let mut region = contiguous_chain(4);
    // Re-stamp the third slot with sequence 9 instead of 3.
    splice(
        &mut region,
        2 * ONE_WRITE_ENTRY_LEN,
        &one_write_entry(9, 0, &LIVE_GUID),
    );
    let chain = collect_replay_chain(&region, &LIVE_GUID);
    assert_eq!(sequences(&chain), vec![1, 2]);
}

#[test]
fn a_foreign_chain_entry_ends_the_chain() {
    let mut region = contiguous_chain(4);
    // Third slot holds a perfectly valid entry belonging to some
    // other log_guid. It is not ours to replay, and it breaks the
    // run, so nothing after it is ours to replay either.
    splice(
        &mut region,
        2 * ONE_WRITE_ENTRY_LEN,
        &one_write_entry(3, 0, &FOREIGN_GUID),
    );
    let chain = collect_replay_chain(&region, &LIVE_GUID);
    assert_eq!(sequences(&chain), vec![1, 2]);
}

#[test]
fn tail_anchors_the_chain_past_an_older_one_in_the_same_region() {
    // Live chain (5, 6) at the start of the region, announcing
    // tail = 0. Sequences 1 and 2 are left over from an earlier
    // chain that used the same log_guid and were never overwritten.
    let mut region = vec![0u8; TEST_REGION_LEN];
    splice(&mut region, 0, &one_write_entry(5, 0, &LIVE_GUID));
    splice(
        &mut region,
        ONE_WRITE_ENTRY_LEN,
        &one_write_entry(6, 0, &LIVE_GUID),
    );
    splice(
        &mut region,
        4 * ONE_WRITE_ENTRY_LEN,
        &one_write_entry(1, 4 * ONE_WRITE_ENTRY_LEN as u32, &LIVE_GUID),
    );
    splice(
        &mut region,
        5 * ONE_WRITE_ENTRY_LEN,
        &one_write_entry(2, 4 * ONE_WRITE_ENTRY_LEN as u32, &LIVE_GUID),
    );

    let chain = collect_replay_chain(&region, &LIVE_GUID);
    assert_eq!(sequences(&chain), vec![5, 6]);
    let applied = replayed_offsets(&chain);
    assert!(!applied.contains(&target_of(1)));
    assert!(!applied.contains(&target_of(2)));
}

#[test]
fn a_chain_starting_away_from_offset_zero_is_found_via_tail() {
    // Nothing at the head of the region; the chain begins three
    // entries in and says so in `tail`.
    let start = 3 * ONE_WRITE_ENTRY_LEN;
    let mut region = vec![0u8; TEST_REGION_LEN];
    splice(
        &mut region,
        start,
        &one_write_entry(1, start as u32, &LIVE_GUID),
    );
    splice(
        &mut region,
        start + ONE_WRITE_ENTRY_LEN,
        &one_write_entry(2, start as u32, &LIVE_GUID),
    );

    let chain = collect_replay_chain(&region, &LIVE_GUID);
    assert_eq!(sequences(&chain), vec![1, 2]);
    assert_eq!(chain[0].log_offset_in_region, start as u64);
}

/// Hand-built entry carrying a single "zero" descriptor. The
/// encoder only emits "desc" descriptors, so the only way to cover
/// the zeroing half of replay is to lay the bytes down here.
fn zero_descriptor_entry(seq: u64, guid: &[u8; 16], file_offset: u64, len: u64) -> Vec<u8> {
    let mut buf = vec![0u8; LOG_SECTOR_SIZE];
    buf[0..4].copy_from_slice(&LOG_ENTRY_SIGNATURE);
    buf[8..12].copy_from_slice(&(LOG_SECTOR_SIZE as u32).to_le_bytes());
    buf[12..16].copy_from_slice(&0u32.to_le_bytes());
    buf[16..24].copy_from_slice(&seq.to_le_bytes());
    buf[24..28].copy_from_slice(&1u32.to_le_bytes());
    buf[32..48].copy_from_slice(guid);
    let d = LOG_ENTRY_HEADER_SIZE;
    buf[d..d + 4].copy_from_slice(&ZERO_DESC_SIGNATURE);
    buf[d + 8..d + 16].copy_from_slice(&len.to_le_bytes());
    buf[d + 16..d + 24].copy_from_slice(&file_offset.to_le_bytes());
    buf[d + 24..d + 32].copy_from_slice(&seq.to_le_bytes());
    let crc = checksum(&buf);
    buf[4..8].copy_from_slice(&crc.to_le_bytes());
    buf
}

#[test]
fn zero_descriptor_parses_and_zeroes_its_span() {
    let mut region = vec![0u8; TEST_REGION_LEN];
    splice(
        &mut region,
        0,
        &zero_descriptor_entry(1, &LIVE_GUID, 2 * 1024 * 1024, 8192),
    );

    let chain = collect_replay_chain(&region, &LIVE_GUID);
    assert_eq!(chain.len(), 1);
    match &chain[0].descriptors[0] {
        Descriptor::Zero {
            zero_length,
            file_offset,
            ..
        } => {
            assert_eq!(*zero_length, 8192);
            assert_eq!(*file_offset, 2 * 1024 * 1024);
        }
        _ => panic!("expected a zero descriptor"),
    }

    let mut dev = MemDevice::filled(4 * 1024 * 1024, 0xCC);
    dev.perform(&apply_chain(&chain));
    assert_eq!(dev.byte_at(2 * 1024 * 1024), 0);
    assert_eq!(dev.byte_at(2 * 1024 * 1024 + 8191), 0);
    assert_eq!(dev.byte_at(2 * 1024 * 1024 + 8192), 0xCC);
}

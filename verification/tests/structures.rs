//! The structures of an image on their own: decoding, encoding, refusals.
use vhdx::bat::{chunk_ratio, data_bat_index, BatEntry, PayloadState};
use vhdx::bytes::{is_zero_guid, same_guid};
use vhdx::checksum::{checksum, seal};
use vhdx::device::{DeviceOp, ZeroSpan, ZERO_CHUNK};
use vhdx::header::{encode_header, pick_header, Header, HeaderSlot};
use vhdx::layout::{check_bat_length, check_geometry, check_layout, check_log_region};
use vhdx::layout::{check_log_version, decode_bat, in_file, power_of_two, read_geometry, Geometry};
use vhdx::log::chain::{discover_entries, entry_starting_at, select_chain};
use vhdx::log::replay::{extent_of, stays_within};
use vhdx::log::{apply_chain, collect_replay_chain, encode_entry, parse_log_entry};
use vhdx::log::{parse_log_entry_given, EntryReject, PendingWrite, LOG_SECTOR_SIZE};
use vhdx::metadata::{item_ids, read_sector_size, read_virtual_disk_size};
use vhdx::metadata::{FileParameters, MetadataTable};
use vhdx::reader::reserved_state_message;
use vhdx::region_table::{guids, RegionEntry, RegionTable};
use vhdx::Error;

const MIB: u64 = 1024 * 1024;

fn header(seq: u64) -> Header {
    Header {
        sequence_number: seq,
        file_write_guid: [0xA1; 16],
        data_write_guid: [0xB2; 16],
        log_guid: [0xC3; 16],
        log_version: 0,
        version: 1,
        log_length: 1 << 20,
        log_offset: 4 << 20,
    }
}

// ---------------------------------------------------------------------------
// Checksums
// ---------------------------------------------------------------------------

#[test]
fn the_checksum_of_zeros_is_the_published_value() {
    // CRC-32C of 32 zero bytes.
    assert_eq!(checksum(&[0u8; 32]), 0x8A91_36AA);
}

#[test]
fn the_checksum_of_a_short_structure_has_its_exact_value() {
    // The CRC-32C of the same bytes with zeros where the field is.
    assert_eq!(checksum(b"head\xAA\xBB\xCC\xDD123456789"), 0xD00E_069A);
}

#[test]
fn the_checksum_leaves_out_its_own_field_and_nothing_else() {
    let mut bytes: Vec<u8> = (0..64u8).collect();
    let crc = checksum(&bytes);
    for i in 4..8 {
        bytes[i] ^= 0x5A;
        assert_eq!(checksum(&bytes), crc, "byte {i} is part of the field");
    }
    bytes[8] ^= 1;
    assert_ne!(checksum(&bytes), crc);
}

#[test]
fn sealing_stores_the_checksum() {
    let mut bytes = vec![7u8; 48];
    let crc = checksum(&bytes);
    seal(&mut bytes);
    assert_eq!(bytes[4..8], crc.to_le_bytes());
    assert_eq!(bytes[0..4], [7u8; 4]);
    assert_eq!(bytes[8..48], [7u8; 40]);
}

// ---------------------------------------------------------------------------
// Headers
// ---------------------------------------------------------------------------

#[test]
fn an_encoded_header_parses_back() {
    let bytes = encode_header(&header(0x0102_0304_0506_0708));
    assert_eq!(bytes.len(), 4096);
    assert_eq!(bytes[0..4], *b"head");
    assert_eq!(bytes[8..16], [8, 7, 6, 5, 4, 3, 2, 1]);
    let h = Header::parse(&bytes).unwrap();
    assert_eq!(h.sequence_number, 0x0102_0304_0506_0708);
    assert_eq!(h.file_write_guid, [0xA1; 16]);
    assert_eq!(h.data_write_guid, [0xB2; 16]);
    assert_eq!(h.log_guid, [0xC3; 16]);
    assert_eq!(h.log_version, 0);
    assert_eq!(h.version, 1);
    assert_eq!(h.log_length, 1 << 20);
    assert_eq!(h.log_offset, 4 << 20);
}

#[test]
fn an_encoded_header_keeps_the_log_version() {
    let mut h = header(1);
    h.log_version = 9;
    let parsed = Header::parse(&encode_header(&h)).unwrap();
    assert_eq!(parsed.log_version, 9);
}

#[test]
fn a_header_is_judged_by_the_checksum_it_is_given() {
    let bytes = encode_header(&header(3));
    let stored = u32::from_le_bytes(bytes[4..8].try_into().unwrap());
    assert_eq!(
        Header::parse_given(&bytes, stored).unwrap().sequence_number,
        3
    );
    let err = Header::parse_given(&bytes, stored ^ 1).unwrap_err();
    assert!(
        matches!(err, Error::BadChecksum { expected, found, what: "header" }
            if expected == stored && found == stored ^ 1),
        "got {err:?}"
    );
}

#[test]
fn the_header_with_the_higher_sequence_number_counts() {
    let (h, slot) = pick_header(Some(header(4)), Some(header(5))).unwrap();
    assert_eq!((h.sequence_number, slot), (5, HeaderSlot::Two));
    let (h, slot) = pick_header(Some(header(5)), Some(header(4))).unwrap();
    assert_eq!((h.sequence_number, slot), (5, HeaderSlot::One));
    // Of two equal ones, the first.
    let (_, slot) = pick_header(Some(header(5)), Some(header(5))).unwrap();
    assert_eq!(slot, HeaderSlot::One);
    let (_, slot) = pick_header(None, Some(header(0))).unwrap();
    assert_eq!(slot, HeaderSlot::Two);
    assert!(matches!(
        pick_header(None, None).unwrap_err(),
        Error::NoValidHeader
    ));
}

#[test]
fn header_slots_alternate() {
    assert_eq!(HeaderSlot::One.other(), HeaderSlot::Two);
    assert_eq!(HeaderSlot::Two.other(), HeaderSlot::One);
    assert_eq!(HeaderSlot::One.offset(), 64 * 1024);
    assert_eq!(HeaderSlot::Two.offset(), 128 * 1024);
}

// ---------------------------------------------------------------------------
// Region tables, and where regions may lie
// ---------------------------------------------------------------------------

fn region(guid: [u8; 16], file_offset: u64, length: u32, required: bool) -> RegionEntry {
    RegionEntry {
        guid,
        file_offset,
        length,
        required,
    }
}

#[test]
fn a_required_region_that_is_not_known_is_found() {
    let table = RegionTable {
        entries: vec![
            region(guids::BAT, 2 * MIB, 8, true),
            region([0xDE; 16], 0, 0, false),
            region([0xDF; 16], 7 * MIB, 16, true),
            region(guids::METADATA, MIB, 64, true),
        ],
    };
    assert_eq!(table.unknown_required().unwrap().guid, [0xDF; 16]);
    assert_eq!(table.find(&guids::METADATA).unwrap().file_offset, MIB);
    assert!(table.find(&[0u8; 16]).is_none());
}

#[test]
fn a_region_may_touch_the_log_but_not_overlap_it() {
    // The log lies from 4 MiB to 5 MiB.
    let mut table = RegionTable {
        entries: vec![
            region(guids::BAT, 4 * MIB - 8, 8, true),
            region(guids::METADATA, 5 * MIB, 64, true),
            // An empty region overlaps nothing.
            region([1; 16], 4 * MIB + 4096, 0, false),
        ],
    };
    assert!(check_layout(&header(1), &table).is_ok());
    table.entries[0].length = 9;
    assert!(matches!(
        check_layout(&header(1), &table).unwrap_err(),
        Error::Corrupt("log region overlaps a declared region")
    ));
    // A required region that is not known comes first.
    table.entries[2].required = true;
    assert!(matches!(
        check_layout(&header(1), &table).unwrap_err(),
        Error::Unsupported("a required region is not recognised")
    ));
}

#[test]
fn every_misplaced_log_region_is_refused_by_name() {
    let mut h = header(1);
    assert!(check_log_region(&h, 5 * MIB).is_ok());
    assert!(matches!(
        check_log_region(&h, 5 * MIB - 1).unwrap_err(),
        Error::Corrupt("log region reaches past the end of the file")
    ));
    h.log_length = (1 << 20) + 1;
    assert!(matches!(
        check_log_region(&h, 64 * MIB).unwrap_err(),
        Error::Corrupt("log region is not a whole number of megabytes long")
    ));
    h.log_offset = MIB + 1;
    assert!(matches!(
        check_log_region(&h, 64 * MIB).unwrap_err(),
        Error::Corrupt("log region is not aligned to a megabyte")
    ));
    h.log_offset = MIB - 1;
    assert!(matches!(
        check_log_region(&h, 64 * MIB).unwrap_err(),
        Error::Corrupt("log region lies inside the header section")
    ));
    // Without a length there is no log, wherever it is said to lie.
    h.log_length = 0;
    assert!(check_log_region(&h, 0).is_ok());
    // An offset near the top of the range does not wrap.
    let mut far = header(1);
    far.log_offset = u64::MAX - MIB + 1;
    assert!(check_log_region(&far, u64::MAX).is_err());
}

#[test]
fn another_log_format_is_unsupported() {
    let mut h = header(1);
    assert!(check_log_version(&h).is_ok());
    h.log_version = 1;
    assert!(matches!(
        check_log_version(&h).unwrap_err(),
        Error::Unsupported(_)
    ));
}

#[test]
fn a_region_in_the_file_ends_no_later_than_the_file() {
    assert!(in_file(&region(guids::BAT, 4088, 8, true), 4096));
    assert!(!in_file(&region(guids::BAT, 4089, 8, true), 4096));
    assert!(!in_file(&region(guids::BAT, u64::MAX, 8, true), 4096));
}

// ---------------------------------------------------------------------------
// Metadata and geometry
// ---------------------------------------------------------------------------

/// A metadata region with these items, each with its ID, flags and data.
fn metadata(items: &[([u8; 16], u32, Vec<u8>)]) -> Vec<u8> {
    let mut meta = vec![0u8; 4096];
    meta[0..8].copy_from_slice(b"metadata");
    meta[10..12].copy_from_slice(&(items.len() as u16).to_le_bytes());
    let mut item = 2048;
    for (i, (id, flags, data)) in items.iter().enumerate() {
        let entry = 32 + 32 * i;
        meta[entry..entry + 16].copy_from_slice(id);
        meta[entry + 16..entry + 20].copy_from_slice(&(item as u32).to_le_bytes());
        meta[entry + 20..entry + 24].copy_from_slice(&(data.len() as u32).to_le_bytes());
        meta[entry + 24..entry + 28].copy_from_slice(&flags.to_le_bytes());
        meta[item..item + data.len()].copy_from_slice(data);
        item += data.len();
    }
    meta
}

fn file_parameters(block_size: u32, flags: u32) -> Vec<u8> {
    [block_size.to_le_bytes(), flags.to_le_bytes()].concat()
}

/// The three items of an ordinary disk of 8 GiB.
fn ordinary_items() -> Vec<([u8; 16], u32, Vec<u8>)> {
    vec![
        (
            item_ids::FILE_PARAMETERS,
            4,
            file_parameters(2 * MIB as u32, 0),
        ),
        (
            item_ids::VIRTUAL_DISK_SIZE,
            6,
            (8192 * MIB).to_le_bytes().to_vec(),
        ),
        (
            item_ids::LOGICAL_SECTOR_SIZE,
            6,
            512u32.to_le_bytes().to_vec(),
        ),
    ]
}

#[test]
fn the_geometry_is_read_out_of_the_metadata() {
    let g = read_geometry(metadata(&ordinary_items())).unwrap();
    assert_eq!(g.virtual_size, 8192 * MIB);
    assert_eq!(g.block_size, 2 * MIB as u32);
    assert_eq!(g.sector_size, 512);
}

#[test]
fn items_are_found_by_their_id() {
    let mut items = ordinary_items();
    items.push((item_ids::LOGICAL_SECTOR_SIZE, 0, vec![1, 2, 3, 4]));
    items.push((item_ids::PAGE_83_DATA, 6, vec![9; 16]));
    let mut table = MetadataTable::parse(metadata(&items)).unwrap();
    assert_eq!(table.entries.len(), 5);
    // The first of two.
    assert_eq!(
        table.item_data(&item_ids::LOGICAL_SECTOR_SIZE).unwrap(),
        512u32.to_le_bytes()
    );
    assert_eq!(
        table.item_data(&item_ids::PAGE_83_DATA).unwrap(),
        [9u8; 16]
    );
    assert!(table.item_data(&item_ids::PHYSICAL_SECTOR_SIZE).is_none());
    // Data that reach past the region are not there.
    table.entries[4].length = 4096;
    assert!(table.item_data(&item_ids::PAGE_83_DATA).is_none());
}

#[test]
fn a_required_item_that_is_not_known_bars_loading() {
    let mut items = ordinary_items();
    items.push(([0xEE; 16], 2, vec![0; 4]));
    assert!(read_geometry(metadata(&items)).is_ok());
    items[3].1 = 4;
    let table = MetadataTable::parse(metadata(&items)).unwrap();
    assert_eq!(table.unknown_required().unwrap().item_id, [0xEE; 16]);
    assert!(matches!(
        read_geometry(metadata(&items)).unwrap_err(),
        Error::Unsupported("a required metadata item is not recognised")
    ));
    // A differencing image is refused as such first.
    items[0].2 = file_parameters(2 * MIB as u32, 2);
    assert!(matches!(
        read_geometry(metadata(&items)).unwrap_err(),
        Error::Unsupported(why) if why.contains("differencing")
    ));
}

#[test]
fn every_unusable_metadata_region_is_refused_by_name() {
    let why = |region: Vec<u8>| match read_geometry(region) {
        Err(Error::BadMetadata(why)) => why,
        other => panic!("expected BadMetadata, got {other:?}"),
    };
    assert_eq!(why(vec![0u8; 31]), "region shorter than 32 bytes");
    assert_eq!(why(vec![0u8; 32]), "signature mismatch");

    let mut crowded = metadata(&ordinary_items());
    crowded[10..12].copy_from_slice(&2048u16.to_le_bytes());
    assert_eq!(why(crowded), "entry_count > 2047");

    let mut cut = metadata(&ordinary_items());
    cut.truncate(127);
    assert_eq!(why(cut), "region truncated mid-entry");

    assert_eq!(why(metadata(&[])), "FileParameters item missing");
    let mut items = ordinary_items();
    items.truncate(1);
    assert_eq!(why(metadata(&items)), "VirtualDiskSize item missing");
    let mut items = ordinary_items();
    items.truncate(2);
    assert_eq!(why(metadata(&items)), "LogicalSectorSize item missing");

    let mut items = ordinary_items();
    items[2].2.truncate(3);
    assert_eq!(why(metadata(&items)), "sector size shorter than 4 bytes");
    items[1].2.truncate(7);
    assert_eq!(why(metadata(&items)), "VirtualDiskSize shorter than 8 bytes");
    items[0].2.truncate(7);
    assert_eq!(why(metadata(&items)), "FileParameters shorter than 8 bytes");
}

#[test]
fn metadata_items_decode() {
    let p = FileParameters::parse(&file_parameters(MIB as u32, 3)).unwrap();
    assert_eq!((p.block_size, p.flags), (MIB as u32, 3));
    assert!(p.has_parent());
    assert!(!FileParameters::parse(&file_parameters(1, 5)).unwrap().has_parent());
    assert_eq!(
        read_virtual_disk_size(&[1, 0, 0, 0, 0, 0, 0, 1]).unwrap(),
        0x0100_0000_0000_0001
    );
    assert!(read_virtual_disk_size(&[0; 7]).is_err());
    assert_eq!(read_sector_size(&[0, 16, 0, 0]).unwrap(), 4096);
    assert!(read_sector_size(&[0; 3]).is_err());
}

#[test]
fn only_permitted_block_and_sector_sizes_pass() {
    assert!(check_geometry(1 << 20, 512).is_ok());
    assert!(check_geometry(1 << 28, 4096).is_ok());
    let why = |block: u32, sector: u32| match check_geometry(block, sector) {
        Err(Error::Corrupt(why)) => why,
        other => panic!("expected Corrupt, got {other:?}"),
    };
    assert_eq!(why(3 << 20, 512), "block_size not a power of two");
    assert_eq!(why(0, 512), "block_size not a power of two");
    assert_eq!(why(1 << 19, 512), "block_size outside [1 MiB, 256 MiB]");
    assert_eq!(why(1 << 29, 512), "block_size outside [1 MiB, 256 MiB]");
    assert_eq!(why(1 << 20, 513), "sector_size not a power of two");
    assert_eq!(why(1 << 20, 2048), "sector_size must be 512 or 4096");
    assert!(power_of_two(1) && power_of_two(1 << 31));
    assert!(!power_of_two(0) && !power_of_two(6));
}

#[test]
fn the_bat_region_has_to_reach_the_last_block() {
    // Chunks of 4096 entries; 4097 blocks reach past the first bitmap entry.
    let g = Geometry {
        virtual_size: 4097 * MIB,
        block_size: MIB as u32,
        sector_size: 512,
    };
    assert!(check_bat_length(4098 * 8, &g).is_ok());
    assert!(matches!(
        check_bat_length(4097 * 8, &g).unwrap_err(),
        Error::Corrupt(why) if why.contains("too short")
    ));
    assert!(matches!(
        check_bat_length(4098 * 8 + 1, &g).unwrap_err(),
        Error::Corrupt(why) if why.contains("whole number")
    ));
    // A disk without a byte needs no entry.
    let empty = Geometry {
        virtual_size: 0,
        ..g
    };
    assert!(check_bat_length(0, &empty).is_ok());
}

// ---------------------------------------------------------------------------
// The BAT
// ---------------------------------------------------------------------------

#[test]
fn a_present_entry_decodes_back() {
    let raw = BatEntry::encode_present(7 * MIB);
    assert_eq!(raw, (7 << 20) | 6);
    let bat = decode_bat(&raw.to_le_bytes());
    assert_eq!(bat.len(), 1);
    assert_eq!(bat[0].state, PayloadState::FullyPresent);
    assert_eq!(bat[0].file_offset, 7 * MIB);
}

#[test]
fn data_entries_never_land_on_a_bitmap_entry() {
    let ratio = chunk_ratio(256 * MIB as u32, 512);
    assert_eq!(ratio, 16);
    let mut last = None;
    for block in 0..100 {
        let index = data_bat_index(block, ratio);
        assert_ne!(index % (ratio + 1), ratio);
        assert!(last < Some(index));
        last = Some(index);
    }
    assert_eq!(data_bat_index(16, ratio), 17);
}

#[test]
fn reserved_states_have_a_message_each() {
    assert_eq!(reserved_state_message(4), "BAT entry reserved state 4");
    assert_eq!(reserved_state_message(5), "BAT entry reserved state 5");
    assert_eq!(
        reserved_state_message(9),
        "BAT entry in a reserved payload state"
    );
}

// ---------------------------------------------------------------------------
// The log
// ---------------------------------------------------------------------------

const GUID: [u8; 16] = [0x42; 16];

fn one_write(seq: u64, file_offset: u64, fill: u8) -> Vec<u8> {
    encode_entry(
        seq,
        0,
        &GUID,
        0,
        8 * MIB,
        &[PendingWrite {
            file_offset,
            sector: vec![fill; LOG_SECTOR_SIZE],
        }],
    )
}

#[test]
fn every_reason_to_refuse_a_slot_is_given() {
    let entry = one_write(1, MIB, 0xAA);
    assert_eq!(entry.len(), 8192);
    assert!(parse_log_entry(&entry, 0, &GUID).is_ok());

    let reject = |bytes: &[u8], pos: usize, guid: &[u8; 16]| {
        parse_log_entry(bytes, pos, guid).unwrap_err()
    };
    assert_eq!(reject(&entry, 4096, &GUID), EntryReject::Empty);
    assert_eq!(reject(&entry, 8192, &GUID), EntryReject::Empty);
    assert_eq!(reject(&entry, 0, &[1; 16]), EntryReject::ForeignChain);

    let mut torn = entry.clone();
    torn[5000] ^= 1;
    assert_eq!(reject(&torn, 0, &GUID), EntryReject::Corrupt);

    // A length that the region does not hold.
    assert_eq!(reject(&entry[..4096], 0, &GUID), EntryReject::Corrupt);

    // A sound checksum over a descriptor of no known kind.
    let mut odd = entry.clone();
    odd[64..68].copy_from_slice(b"what");
    seal(&mut odd);
    assert_eq!(reject(&odd, 0, &GUID), EntryReject::Malformed);

    // A sound checksum over a data sector of another entry.
    let mut stale = entry.clone();
    stale[8188] ^= 1;
    seal(&mut stale);
    assert_eq!(reject(&stale, 0, &GUID), EntryReject::Malformed);
}

#[test]
fn an_entry_is_judged_by_the_checksum_it_is_given() {
    let entry = one_write(1, MIB, 0xAA);
    let stored = u32::from_le_bytes(entry[4..8].try_into().unwrap());
    let parsed = parse_log_entry_given(&entry, 0, &GUID, stored).unwrap();
    assert_eq!(parsed.header.sequence_number, 1);
    assert_eq!(parsed.header.last_file_offset, 8 * MIB);
    assert_eq!(
        parse_log_entry_given(&entry, 0, &GUID, stored ^ 1).unwrap_err(),
        EntryReject::Corrupt
    );
}

#[test]
fn a_lone_entry_anywhere_in_the_log_is_the_chain() {
    let mut log = vec![0u8; MIB as usize];
    log[40960..49152].copy_from_slice(&one_write(9, MIB, 0xAA));
    let found = discover_entries(&log, &GUID);
    assert_eq!(found.len(), 1);
    assert_eq!(found[0].log_offset_in_region, 40960);
    assert_eq!(entry_starting_at(&found, 40960), Some(0));
    assert_eq!(entry_starting_at(&found, 0), None);
    let chain = select_chain(found);
    assert_eq!(chain.len(), 1);
    // Of another chain there is nothing to replay.
    assert!(collect_replay_chain(&log, &[7; 16]).is_empty());
}

#[test]
fn a_chain_may_reach_as_far_as_its_entries_announce() {
    let mut log = vec![0u8; MIB as usize];
    log[0..8192].copy_from_slice(&one_write(1, 8 * MIB - 4096, 0xAA));
    let chain = collect_replay_chain(&log, &GUID);
    assert_eq!(extent_of(&chain, 16 * MIB), 16 * MIB);
    assert_eq!(extent_of(&chain, MIB), 8 * MIB);
    assert!(stays_within(&chain, 8 * MIB));
    assert!(!stays_within(&chain, 8 * MIB - 1));
    assert!(stays_within(&[], 0));
}

#[test]
fn a_replay_that_was_interrupted_can_be_repeated() {
    let mut log = vec![0u8; MIB as usize];
    // Three entries, of which the last rewrites what the first wrote.
    for (i, (at, fill)) in [(0, 1u8), (4096, 2), (0, 3)].iter().enumerate() {
        let entry = one_write(1 + i as u64, *at, *fill);
        log[8192 * i..8192 * (i + 1)].copy_from_slice(&entry);
    }
    let ops = apply_chain(&collect_replay_chain(&log, &GUID));
    let perform = |dev: &mut Vec<u8>, ops: &[DeviceOp]| {
        for op in ops {
            if let DeviceOp::Write { offset, data } = op {
                let at = *offset as usize;
                dev[at..at + data.len()].copy_from_slice(data);
            }
        }
    };
    let mut whole = vec![0xCC; 16384];
    perform(&mut whole, &ops);
    assert_eq!((whole[0], whole[4096], whole[8192]), (3, 2, 0xCC));
    for k in 0..=ops.len() {
        let mut torn = vec![0xCC; 16384];
        perform(&mut torn, &ops[..k]);
        perform(&mut torn, &ops);
        assert!(torn == whole, "after {k} operations");
    }
}

// ---------------------------------------------------------------------------
// Small things
// ---------------------------------------------------------------------------

#[test]
fn a_zero_span_is_cut_into_pieces() {
    let mut span = ZeroSpan {
        offset: 5,
        remaining: 2 * ZERO_CHUNK + 7,
    };
    assert_eq!(span.next_piece(), Some((5, ZERO_CHUNK as usize)));
    assert_eq!(
        span.next_piece(),
        Some((5 + ZERO_CHUNK, ZERO_CHUNK as usize))
    );
    assert_eq!(span.next_piece(), Some((5 + 2 * ZERO_CHUNK, 7)));
    assert_eq!(span.next_piece(), None);
}

#[test]
fn guids_compare_byte_by_byte() {
    let mut guid = [0u8; 16];
    assert!(is_zero_guid(&guid));
    guid[15] = 1;
    assert!(!is_zero_guid(&guid));
    assert!(same_guid(&guid, &guid));
    assert!(!same_guid(&guid, &[0u8; 16]));
}

#[test]
fn every_refusal_has_its_words() {
    let cases: Vec<(Error, &str)> = vec![
        (
            Error::NotVhdx,
            "not a VHDX image (file-identifier mismatch)",
        ),
        (
            Error::NoValidHeader,
            "no valid VHDX header found in either slot",
        ),
        (
            Error::NoValidRegionTable,
            "no valid VHDX region table found",
        ),
        (
            Error::BadMetadata("signature mismatch"),
            "bad metadata region: signature mismatch",
        ),
        (
            Error::BadChecksum {
                expected: 0xDEAD_BEEF,
                found: 0,
                what: "header",
            },
            "header CRC-32C mismatch: expected 0xdeadbeef, found 0x0",
        ),
        (Error::Corrupt("why"), "corrupt VHDX: why"),
        (
            Error::Unsupported("what"),
            "unsupported VHDX feature: what",
        ),
        (
            Error::OutOfBounds {
                offset: 1048568,
                len: 16,
                size: 1048576,
            },
            "read [1048568, 1048568+16) past virtual size 1048576",
        ),
        (Error::ReadOnly, "image is read-only"),
    ];
    for (error, words) in cases {
        assert_eq!(error.message(), words);
    }
}

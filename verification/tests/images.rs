//! Whole images, laid down byte by byte and opened, read and written in memory.
//!
//! The builders write the on-disk layout by hand, so the library has no part in making the
//! images that it is held against. The small image is one 1 MiB block; the big one adds an
//! empty log region, a BAT of four entries, and slack at the tail.
use crc32c::crc32c;
use vhdx::device::{DeviceOp, ZeroSpan};
use vhdx::log::{encode_entry, PendingWrite};
use vhdx::open::{start, OpenMode, OpenStep};
use vhdx::reader::Source;
use vhdx::write::WriteStep;
use vhdx::{Error, VhdxReader};

const ONE_MIB: u64 = 1024 * 1024;
const HEADER_SIZE: usize = 4096;
const REGION_TABLE_SIZE: usize = 64 * 1024;
const METADATA_REGION_SIZE: usize = 64 * 1024;
const TOTAL_FILE_SIZE: u64 = 4 * ONE_MIB;

const HEADER1_OFFSET: u64 = 64 * 1024;
const HEADER2_OFFSET: u64 = 128 * 1024;
const REGION_TABLE1_OFFSET: u64 = 192 * 1024;
const REGION_TABLE2_OFFSET: u64 = 256 * 1024;
const METADATA_REGION_OFFSET: u64 = ONE_MIB;
const BAT_REGION_OFFSET: u64 = 2 * ONE_MIB;
const DATA_BLOCK_OFFSET: u64 = 3 * ONE_MIB;

/// Where the metadata items start in the region, and where two of them lie on the device.
const ITEMS_START: usize = 32 + 3 * 32;
const FILE_PARAMS_FLAGS_OFFSET: u64 = METADATA_REGION_OFFSET + ITEMS_START as u64 + 4;
const LOGICAL_SECTOR_SIZE_OFFSET: u64 = METADATA_REGION_OFFSET + ITEMS_START as u64 + 16;

const BAT_REGION_LEN: u32 = 8; // one entry
const BLOCK_SIZE: u32 = ONE_MIB as u32;
const SECTOR_SIZE: u32 = 512;
const VIRTUAL_DISK_SIZE: u64 = ONE_MIB;

const BAT_GUID: [u8; 16] = [
    0x66, 0x77, 0xC2, 0x2D, 0x23, 0xF6, 0x00, 0x42, 0x9D, 0x64, 0x11, 0x5E, 0x9B, 0xFD, 0x4A, 0x08,
];
const METADATA_GUID: [u8; 16] = [
    0x06, 0xA2, 0x7C, 0x8B, 0x90, 0x47, 0x9A, 0x4B, 0xB8, 0xFE, 0x57, 0x5F, 0x05, 0x0F, 0x88, 0x6E,
];
const FILE_PARAMS_ID: [u8; 16] = [
    0x37, 0x67, 0xA1, 0xCA, 0x36, 0xFA, 0x43, 0x4D, 0xB3, 0xB6, 0x33, 0xF0, 0xAA, 0x44, 0xE7, 0x6B,
];
const VIRT_SIZE_ID: [u8; 16] = [
    0x24, 0x42, 0xA5, 0x2F, 0x1B, 0xCD, 0x76, 0x48, 0xB2, 0x11, 0x5D, 0xBE, 0xD8, 0x3B, 0xF4, 0xB8,
];
const LOGICAL_SECTOR_ID: [u8; 16] = [
    0x1D, 0xBF, 0x41, 0x81, 0x6F, 0xA9, 0x09, 0x47, 0xBA, 0x47, 0xF2, 0x33, 0xA8, 0xFA, 0xAB, 0x5F,
];

// ---------------------------------------------------------------------------
// The device, and the loops that carry out what the library plans
// ---------------------------------------------------------------------------

/// An image in memory.
#[derive(Clone)]
struct Image(Vec<u8>);

impl Image {
    fn of_size(len: u64) -> Image {
        Image(vec![0u8; len as usize])
    }

    fn read(&self, offset: u64, len: usize) -> Vec<u8> {
        let start = offset as usize;
        self.0[start..start + len].to_vec()
    }

    fn put(&mut self, offset: u64, data: &[u8]) {
        let start = offset as usize;
        let end = start + data.len();
        if end > self.0.len() {
            self.0.resize(end, 0);
        }
        self.0[start..end].copy_from_slice(data);
    }

    fn perform(&mut self, op: &DeviceOp) {
        match op {
            DeviceOp::Write { offset, data } => self.put(*offset, data),
            DeviceOp::Zeros { offset, len } => {
                let mut span = ZeroSpan {
                    offset: *offset,
                    remaining: *len,
                };
                while let Some((at, n)) = span.next_piece() {
                    self.put(at, &vec![0u8; n]);
                }
            }
            DeviceOp::Flush => {}
        }
    }

    fn drive(&mut self, first: OpenStep) -> Result<VhdxReader, Error> {
        let mut step = first;
        loop {
            step = match step {
                OpenStep::Read(request) => {
                    let data = self.read(request.offset(), request.len());
                    request.supply(data)
                }
                OpenStep::Apply(request) => {
                    for op in request.ops() {
                        self.perform(op);
                    }
                    request.applied(self.0.len() as u64)
                }
                OpenStep::Opened(reader) => return Ok(reader),
                OpenStep::Refused(why) => return Err(why),
            };
        }
    }

    /// Open read-only, on a device that takes writes.
    fn open(&mut self) -> Result<VhdxReader, Error> {
        let size = self.0.len() as u64;
        self.drive(VhdxReader::open_on_device(size, true))
    }

    /// Open read-write.
    fn open_rw(&mut self) -> Result<VhdxReader, Error> {
        let size = self.0.len() as u64;
        self.drive(VhdxReader::open_rw_on_device(size, true))
    }

    /// Open read-only, on a device that takes no writes.
    fn open_on_read_only_device(&mut self) -> Result<VhdxReader, Error> {
        let size = self.0.len() as u64;
        self.drive(VhdxReader::open_on_device(size, false))
    }

    fn read_at(&self, r: &VhdxReader, offset: u64, buf: &mut [u8]) -> Result<(), Error> {
        let plan = r.read_at(offset, buf.len());
        for piece in &plan.pieces {
            let part = &mut buf[piece.at..piece.at + piece.len];
            match piece.source {
                Source::Zeros => part.fill(0),
                Source::Host(host) => part.copy_from_slice(&self.read(host, piece.len)),
            }
        }
        plan.outcome
    }

    fn write_at(&mut self, r: &mut VhdxReader, offset: u64, data: &[u8]) -> Result<(), Error> {
        assert!(r.has_room_for(offset, data.len()));
        let mut step = r.write_at(offset, data);
        loop {
            step = match step {
                WriteStep::Read(request) => {
                    let bytes = self.read(request.offset(), request.len());
                    request.supply(r, bytes)
                }
                WriteStep::Apply(request) => {
                    for op in request.ops() {
                        self.perform(op);
                    }
                    request.applied(r)
                }
                WriteStep::Done(outcome) => return outcome,
            };
        }
    }

    fn flush(&mut self, r: &VhdxReader) {
        for op in &r.flush() {
            self.perform(op);
        }
    }
}

// ---------------------------------------------------------------------------
// The builders
// ---------------------------------------------------------------------------

/// Store the CRC-32C of a structure in its checksum field.
fn seal(buf: &mut [u8]) {
    buf[4..8].fill(0);
    let crc = crc32c(buf);
    buf[4..8].copy_from_slice(&crc.to_le_bytes());
}

/// A 4 KiB header with a valid CRC-32C. `seq` is the sequence number: of two valid headers the
/// higher one counts.
fn encode_header(seq: u64, log_guid: [u8; 16], log_length: u32, log_offset: u64) -> Vec<u8> {
    let mut hdr = vec![0u8; HEADER_SIZE];
    hdr[0..4].copy_from_slice(b"head");
    hdr[8..16].copy_from_slice(&seq.to_le_bytes());
    hdr[48..64].copy_from_slice(&log_guid);
    hdr[64..66].copy_from_slice(&0u16.to_le_bytes()); // log_version
    hdr[66..68].copy_from_slice(&1u16.to_le_bytes()); // version = 1.0
    hdr[68..72].copy_from_slice(&log_length.to_le_bytes());
    hdr[72..80].copy_from_slice(&log_offset.to_le_bytes());
    seal(&mut hdr);
    hdr
}

/// A region table with a BAT entry and a metadata entry.
fn encode_region_table(bat_offset: u64, bat_len: u32, meta_offset: u64) -> Vec<u8> {
    let mut rt = vec![0u8; REGION_TABLE_SIZE];
    rt[0..4].copy_from_slice(b"regi");
    rt[8..12].copy_from_slice(&2u32.to_le_bytes()); // entry_count = 2

    let off = 16;
    rt[off..off + 16].copy_from_slice(&BAT_GUID);
    rt[off + 16..off + 24].copy_from_slice(&bat_offset.to_le_bytes());
    rt[off + 24..off + 28].copy_from_slice(&bat_len.to_le_bytes());
    rt[off + 28..off + 32].copy_from_slice(&1u32.to_le_bytes()); // required

    let off = 16 + 32;
    rt[off..off + 16].copy_from_slice(&METADATA_GUID);
    rt[off + 16..off + 24].copy_from_slice(&meta_offset.to_le_bytes());
    rt[off + 24..off + 28].copy_from_slice(&(METADATA_REGION_SIZE as u32).to_le_bytes());
    rt[off + 28..off + 32].copy_from_slice(&1u32.to_le_bytes()); // required

    seal(&mut rt);
    rt
}

/// A metadata region with FileParameters, VirtualDiskSize and LogicalSectorSize.
fn encode_metadata(block_size: u32, virtual_disk_size: u64, sector_size: u32) -> Vec<u8> {
    let mut meta = vec![0u8; METADATA_REGION_SIZE];
    meta[0..8].copy_from_slice(b"metadata");
    meta[10..12].copy_from_slice(&3u16.to_le_bytes()); // entry_count = 3

    let mut entry = 32;
    let mut item = ITEMS_START;
    let items: [([u8; 16], Vec<u8>); 3] = [
        // Flags = 0: no parent.
        (
            FILE_PARAMS_ID,
            [block_size.to_le_bytes(), 0u32.to_le_bytes()].concat(),
        ),
        (VIRT_SIZE_ID, virtual_disk_size.to_le_bytes().to_vec()),
        (LOGICAL_SECTOR_ID, sector_size.to_le_bytes().to_vec()),
    ];
    for (id, payload) in items {
        meta[entry..entry + 16].copy_from_slice(&id);
        meta[entry + 16..entry + 20].copy_from_slice(&(item as u32).to_le_bytes());
        meta[entry + 20..entry + 24].copy_from_slice(&(payload.len() as u32).to_le_bytes());
        meta[entry + 24..entry + 28].copy_from_slice(&0x6u32.to_le_bytes());
        meta[item..item + payload.len()].copy_from_slice(&payload);
        entry += 32;
        item += payload.len();
    }
    meta
}

/// A minimal image of one block. Header 1 is valid (sequence 1), header 2 is zero and so is
/// not, and header 1 counts.
fn build_vhdx(data: &[u8]) -> Image {
    let mut f = Image::of_size(TOTAL_FILE_SIZE);
    f.put(0, b"vhdxfile");
    f.put(HEADER1_OFFSET, &encode_header(1, [0u8; 16], 0, 0));
    f.put(
        REGION_TABLE1_OFFSET,
        &encode_region_table(BAT_REGION_OFFSET, BAT_REGION_LEN, METADATA_REGION_OFFSET),
    );
    f.put(
        METADATA_REGION_OFFSET,
        &encode_metadata(BLOCK_SIZE, VIRTUAL_DISK_SIZE, SECTOR_SIZE),
    );

    // BAT: a single entry, FullyPresent (state 6), file_offset = 3 MiB.
    let bat_entry: u64 = (3u64 << 20) | 6;
    f.put(BAT_REGION_OFFSET, &bat_entry.to_le_bytes());

    f.put(DATA_BLOCK_OFFSET, data);
    f
}

/// The minimal image with other flags in FileParameters.
fn build_vhdx_with_file_params_flags(data: &[u8], flags: u32) -> Image {
    let mut f = build_vhdx(data);
    f.put(FILE_PARAMS_FLAGS_OFFSET, &flags.to_le_bytes());
    f
}

const BIG_BLOCK_SIZE: u32 = ONE_MIB as u32;
const BIG_BAT_ENTRIES: u64 = 4;
const BIG_VIRTUAL_DISK_SIZE: u64 = BIG_BLOCK_SIZE as u64 * BIG_BAT_ENTRIES;
const BIG_LOG_OFFSET: u64 = 4 * ONE_MIB;
const BIG_LOG_LENGTH: u32 = ONE_MIB as u32;
const BIG_METADATA_OFFSET: u64 = 5 * ONE_MIB;
const BIG_BAT_OFFSET: u64 = 6 * ONE_MIB;
const BIG_DATA_BLOCK0_OFFSET: u64 = 7 * ONE_MIB;
const BIG_TOTAL_FILE_SIZE: u64 = 64 * ONE_MIB;

/// An image with a real (empty) log region and a BAT of four entries, of which only the first
/// names a block on the device.
fn build_big_vhdx(block0: &[u8]) -> Image {
    let mut f = Image::of_size(BIG_TOTAL_FILE_SIZE);
    f.put(0, b"vhdxfile");

    // Header 1: sequence 1, a log region declared but empty (log_guid all-zero, so nothing is
    // replayed).
    f.put(
        HEADER1_OFFSET,
        &encode_header(1, [0u8; 16], BIG_LOG_LENGTH, BIG_LOG_OFFSET),
    );
    f.put(
        REGION_TABLE1_OFFSET,
        &encode_region_table(
            BIG_BAT_OFFSET,
            (BIG_BAT_ENTRIES * 8) as u32,
            BIG_METADATA_OFFSET,
        ),
    );
    f.put(
        BIG_METADATA_OFFSET,
        &encode_metadata(BIG_BLOCK_SIZE, BIG_VIRTUAL_DISK_SIZE, SECTOR_SIZE),
    );

    let entry0: u64 = ((BIG_DATA_BLOCK0_OFFSET >> 20) << 20) | 6;
    f.put(BIG_BAT_OFFSET, &entry0.to_le_bytes());

    f.put(BIG_DATA_BLOCK0_OFFSET, block0);
    f
}

fn pattern_block(seed: u8) -> Vec<u8> {
    (0..BIG_BLOCK_SIZE)
        .map(|i| (i.wrapping_mul(seed as u32 + 1) & 0xFF) as u8)
        .collect()
}

/// A 1 MiB block whose bytes are `i & 0xFF`, so reads are verifiable.
fn ramp_block() -> Vec<u8> {
    (0..BLOCK_SIZE).map(|i| (i & 0xFF) as u8).collect()
}

// ---------------------------------------------------------------------------
// Reads and writes end to end
// ---------------------------------------------------------------------------

#[test]
fn fully_present_block_round_trips() {
    let mut image = build_vhdx(&ramp_block());

    let r = image.open().unwrap();
    assert_eq!(r.virtual_size(), VIRTUAL_DISK_SIZE);
    assert_eq!(r.block_size(), BLOCK_SIZE);
    assert_eq!(r.sector_size(), SECTOR_SIZE);
    assert!(!r.has_parent());

    // Read first 4 KiB.
    let mut buf = vec![0u8; 4096];
    image.read_at(&r, 0, &mut buf).unwrap();
    for (i, b) in buf.iter().enumerate() {
        assert_eq!(*b, (i & 0xFF) as u8, "byte {i} mismatch");
    }

    // Read at offset 1000 KiB (still inside the single 1 MiB block).
    let mut tail = vec![0u8; 1024];
    image.read_at(&r, 1000 * 1024, &mut tail).unwrap();
    for (i, b) in tail.iter().enumerate() {
        let expected = ((1000 * 1024 + i) & 0xFF) as u8;
        assert_eq!(*b, expected);
    }
}

#[test]
fn out_of_bounds_read_errors() {
    let mut image = build_vhdx(&[0u8; ONE_MIB as usize]);

    let r = image.open().unwrap();
    let mut buf = [0u8; 16];
    let err = image
        .read_at(&r, VIRTUAL_DISK_SIZE - 8, &mut buf)
        .unwrap_err();
    assert!(matches!(
        err,
        Error::OutOfBounds {
            offset: 1048568,
            len: 16,
            size: VIRTUAL_DISK_SIZE
        }
    ));
}

#[test]
fn rw_open_writes_into_allocated_block() {
    let mut image = build_big_vhdx(&pattern_block(1));

    let mut r = image.open_rw().unwrap();
    assert!(r.is_writable());

    // Single-sector write into allocated block 0.
    let payload = [0xC3u8; 512];
    image.write_at(&mut r, 2048, &payload).unwrap();

    // Read it back through the same handle.
    let mut readback = [0u8; 512];
    image.read_at(&r, 2048, &mut readback).unwrap();
    assert_eq!(readback, payload);

    // Untouched bytes inside block 0 still match the original pattern.
    let mut around = [0u8; 32];
    image.read_at(&r, 0, &mut around).unwrap();
    for (i, b) in around.iter().enumerate() {
        assert_eq!(*b, ((i as u32).wrapping_mul(2) & 0xFF) as u8);
    }
    drop(r);

    // Reopen: the change must be durable.
    let r2 = image.open().unwrap();
    let mut readback = [0u8; 512];
    image.read_at(&r2, 2048, &mut readback).unwrap();
    assert_eq!(readback, payload);
}

#[test]
fn rw_open_writes_into_unallocated_block_allocates() {
    let mut image = build_big_vhdx(&pattern_block(2));

    let mut r = image.open_rw().unwrap();

    // Block 1 (virtual offset 1 MiB) is unallocated. Writing into it
    // should trigger allocation, BAT update, and the read-back should
    // see the payload + zeros for the rest of the block.
    let payload = [0x99u8; 4096];
    let virt_off = BIG_BLOCK_SIZE as u64; // start of block 1
    image.write_at(&mut r, virt_off + 8192, &payload).unwrap();

    // Bytes the caller wrote.
    let mut got = [0u8; 4096];
    image.read_at(&r, virt_off + 8192, &mut got).unwrap();
    assert_eq!(got, payload);

    // Untouched bytes inside the freshly-allocated block read as zero.
    let mut zero = [0u8; 4096];
    image.read_at(&r, virt_off, &mut zero).unwrap();
    assert!(zero.iter().all(|b| *b == 0), "leading bytes not zero");

    drop(r);

    // Reopen and confirm allocation persisted.
    let r2 = image.open().unwrap();
    let mut got = [0u8; 4096];
    image.read_at(&r2, virt_off + 8192, &mut got).unwrap();
    assert_eq!(got, payload);
}

#[test]
fn rw_open_multi_block_write_spans_allocated_and_unallocated() {
    let mut image = build_big_vhdx(&pattern_block(3));

    let mut r = image.open_rw().unwrap();

    // Write 1.5 MiB starting 256 KiB inside block 0 (allocated) so it
    // straddles into block 1 (unallocated, must allocate).
    let len: usize = (3 * BIG_BLOCK_SIZE as usize) / 2;
    let payload: Vec<u8> = (0..len).map(|i| (i & 0xFF) as u8).collect();
    let start = 256 * 1024u64;
    image.write_at(&mut r, start, &payload).unwrap();

    let mut readback = vec![0u8; len];
    image.read_at(&r, start, &mut readback).unwrap();
    assert_eq!(readback, payload);

    drop(r);
    let r2 = image.open().unwrap();
    let mut readback = vec![0u8; len];
    image.read_at(&r2, start, &mut readback).unwrap();
    assert_eq!(readback, payload);
}

#[test]
fn ro_open_against_writable_file_replays_dirty_log() {
    // 1. Build a clean image.
    let mut image = build_big_vhdx(&pattern_block(4));

    // 2. Inject a dirty log: forge a single-entry log that overwrites
    //    a 4 KiB sector inside block 0 with 0xEE, and bump the
    //    header's log_guid so the reader thinks the log is active.
    let log_guid = [0x77u8; 16];
    let entry = encode_entry(
        2,
        0,
        &log_guid,
        BIG_TOTAL_FILE_SIZE,
        BIG_TOTAL_FILE_SIZE,
        &[PendingWrite {
            file_offset: BIG_DATA_BLOCK0_OFFSET + 8192,
            sector: vec![0xEEu8; 4096],
        }],
    );
    arm_the_log(&mut image, &entry, &log_guid);

    // 3. Open RO. The device takes writes, so replay can run in place.
    let r = image.open().unwrap();

    // 4. Block 0 sector at +8 KiB now reads as 0xEE: replay applied.
    let mut got = [0u8; 4096];
    image.read_at(&r, 8192, &mut got).unwrap();
    assert!(got.iter().all(|b| *b == 0xEE), "first byte: {:#x}", got[0]);

    // 5. Reopening must NOT replay again: log_guid was cleared.
    drop(r);
    let before = image.clone();
    let _ = image.open().unwrap();
    assert!(image.0 == before.0);
    let _ = image.open_on_read_only_device().unwrap();
}

#[test]
fn open_on_device_round_trips_through_file_device() {
    let mut image = build_big_vhdx(&pattern_block(5));

    let r = image.open_on_read_only_device().unwrap();
    assert_eq!(r.virtual_size(), BIG_VIRTUAL_DISK_SIZE);

    let mut buf = [0u8; 4096];
    image.read_at(&r, 0, &mut buf).unwrap();
    for (i, b) in buf.iter().enumerate() {
        let expected = ((i as u32).wrapping_mul(6) & 0xFF) as u8;
        assert_eq!(*b, expected, "byte {i} mismatch");
    }
}

#[test]
fn open_rw_on_device_writes_persist() {
    let mut image = build_big_vhdx(&pattern_block(6));

    let mut r = image.open_rw().unwrap();
    assert!(r.is_writable());

    let payload = [0x55u8; 1024];
    image.write_at(&mut r, 4096, &payload).unwrap();
    image.flush(&r);

    let mut readback = [0u8; 1024];
    image.read_at(&r, 4096, &mut readback).unwrap();
    assert_eq!(readback, payload);
    drop(r);

    let r2 = image.open().unwrap();
    let mut readback = [0u8; 1024];
    image.read_at(&r2, 4096, &mut readback).unwrap();
    assert_eq!(readback, payload);
}

#[test]
fn open_rw_on_device_rejects_readonly_inner() {
    let mut image = build_big_vhdx(&pattern_block(7));

    let size = image.0.len() as u64;
    match image.drive(VhdxReader::open_rw_on_device(size, false)) {
        Err(Error::ReadOnly) => {}
        Err(e) => panic!("expected ReadOnly, got: {e:?}"),
        Ok(_) => panic!("expected ReadOnly, got Ok"),
    }
}

#[test]
fn ro_open_rejects_write() {
    let mut image = build_big_vhdx(&pattern_block(8));

    let mut r = image.open().unwrap();
    let err = image.write_at(&mut r, 0, b"x").unwrap_err();
    assert!(matches!(err, Error::ReadOnly));
}

/// Writing into a PartiallyPresent block is refused, not silently
/// serviced by allocating a fresh one over it.
///
/// The block's payload is on the device and its valid sectors are described
/// by a bitmap that is not walked, which is why a read refuses the state
/// outright. Publishing a zeroed block over it would discard every sector
/// the bitmap calls valid, and do so while reporting success.
///
/// Refusing is the only consistent answer: a reader that admits it
/// cannot interpret the block must not have a writer that overwrites it.
#[test]
fn write_to_a_partially_present_block_is_refused() {
    let mut image = build_big_vhdx(&pattern_block(2));

    // Re-stamp BAT entry 1 as PartiallyPresent (state 7) pointing at a
    // real, block-aligned offset, so it is well-formed rather than
    // merely corrupt.
    let entry: u64 = ((BIG_DATA_BLOCK0_OFFSET >> 20) << 20) | 7;
    image.put(BIG_BAT_OFFSET + 8, &entry.to_le_bytes());

    let mut r = image.open_rw().unwrap();
    let virt_off = BIG_BLOCK_SIZE as u64; // start of block 1

    let err = image
        .write_at(&mut r, virt_off, &[0xAAu8; 4096])
        .expect_err("a PartiallyPresent block must not be overwritten by a fresh allocation");
    let msg = err.message();
    assert!(
        msg.contains("PartiallyPresent"),
        "the refusal should name the state, got: {msg}"
    );

    // And the reader still refuses it too, so the two paths agree.
    let mut buf = [0u8; 4096];
    assert!(image.read_at(&r, virt_off, &mut buf).is_err());
}

/// The in-block offset reaches the device, and is not silently
/// collapsed to the start of the block.
///
/// The other write tests here read back through the same reader, so
/// an error in the virtual-to-host offset arithmetic that applies equally
/// to reads and writes cancels out and the round trip still passes. So
/// this asserts against the raw bytes instead, an oracle the reader
/// has no hand in.
#[test]
fn a_write_lands_at_its_in_block_offset_in_the_host_file() {
    let block0 = pattern_block(1);
    let mut image = build_big_vhdx(&block0);

    // Deliberately not sector 0, and not sector-table-aligned either.
    const IN_BLOCK: u64 = 3 * 4096 + 512;
    let payload = [0x5Au8; 512];

    let mut r = image.open_rw().unwrap();
    image.write_at(&mut r, IN_BLOCK, &payload).unwrap();
    drop(r);

    assert_eq!(
        image.read(BIG_DATA_BLOCK0_OFFSET + IN_BLOCK, payload.len()),
        payload,
        "payload must be written at the block's host offset plus the in-block offset"
    );
    assert_eq!(
        image.read(BIG_DATA_BLOCK0_OFFSET, payload.len()),
        &block0[..payload.len()],
        "the start of the block must be untouched: an in-block offset \
         collapsed to zero would have overwritten exactly this"
    );
}

/// A log entry carrying a single "zero" descriptor.
///
/// The encoder only emits "desc" descriptors, so the zeroing half of
/// replay has to be laid down byte by byte. Layout is signature(4) +
/// checksum(4) + entry_length(4) + tail(4) + sequence(8) +
/// descriptor_count(4) + reserved(4) + log_guid(16), then the
/// descriptor: "zero"(4) + reserved(4) + zero_length(8) +
/// file_offset(8) + sequence(8).
fn zero_descriptor_entry(seq: u64, guid: &[u8; 16], file_offset: u64, len: u64) -> Vec<u8> {
    const SECTOR: usize = 4096;
    const ENTRY_HEADER: usize = 64;
    let mut buf = vec![0u8; SECTOR];
    buf[0..4].copy_from_slice(b"loge");
    buf[8..12].copy_from_slice(&(SECTOR as u32).to_le_bytes());
    buf[16..24].copy_from_slice(&seq.to_le_bytes());
    buf[24..28].copy_from_slice(&1u32.to_le_bytes());
    buf[32..48].copy_from_slice(guid);
    let d = ENTRY_HEADER;
    buf[d..d + 4].copy_from_slice(b"zero");
    buf[d + 8..d + 16].copy_from_slice(&len.to_le_bytes());
    buf[d + 16..d + 24].copy_from_slice(&file_offset.to_le_bytes());
    buf[d + 24..d + 32].copy_from_slice(&seq.to_le_bytes());
    seal(&mut buf);
    buf
}

/// Put an entry into the log region and point a header at a live log, so the next open
/// replays it. Slot 2 is not in use, and its sequence number is the higher one.
fn arm_the_log(image: &mut Image, entry: &[u8], log_guid: &[u8; 16]) {
    image.put(BIG_LOG_OFFSET, entry);
    image.put(
        HEADER2_OFFSET,
        &encode_header(5, *log_guid, BIG_LOG_LENGTH, BIG_LOG_OFFSET),
    );
}

/// Opening an image must not damage it.
///
/// A dirty image has to be replayed before its region table, metadata and BAT
/// mean anything. That makes every log descriptor in the file a write request,
/// and the two numbers a "zero" descriptor carries, where to start and how much
/// to erase, come out of the same file.
#[test]
fn a_read_only_open_does_not_let_the_log_erase_the_file() {
    let mut image = build_big_vhdx(&pattern_block(9));

    let log_guid = [0x99u8; 16];
    // From the very start of the file, for eight times its length.
    arm_the_log(
        &mut image,
        &zero_descriptor_entry(2, &log_guid, 0, BIG_TOTAL_FILE_SIZE * 8),
        &log_guid,
    );
    let size_before = image.0.len();
    let before = image.read(BIG_DATA_BLOCK0_OFFSET, 4096);

    let outcome = image.open();
    assert!(
        outcome.is_err(),
        "a log naming a span eight times the length of the file was accepted"
    );

    let size_after = image.0.len();
    assert_eq!(
        size_before, size_after,
        "the file grew from {size_before} to {size_after} bytes: the \
         replay wrote past the end of it"
    );
    let after = image.read(BIG_DATA_BLOCK0_OFFSET, 4096);
    assert_eq!(before, after, "the image's first data block was erased");
}

/// The log, the metadata table and the BAT are each located by an
/// offset and a `u32` length that come out of the image, and each is
/// read whole. A file of a few kilobytes could ask for 4 GiB three
/// times over.
#[test]
fn a_region_claiming_more_than_the_file_is_refused() {
    for (which, entry_offset) in [("BAT", 16u64), ("metadata", 16 + 32)] {
        let mut image = build_big_vhdx(&pattern_block(11));

        let mut rt = image.read(REGION_TABLE1_OFFSET, REGION_TABLE_SIZE);
        let len_at = (entry_offset + 24) as usize;
        rt[len_at..len_at + 4].copy_from_slice(&u32::MAX.to_le_bytes());
        seal(&mut rt);
        for at in [REGION_TABLE1_OFFSET, REGION_TABLE2_OFFSET] {
            image.put(at, &rt);
        }

        // What is being asserted is that it is refused by name, before a
        // read is asked for, rather than by the read running out of file.
        let outcome = image.open();
        let why = format!("{:?}", outcome.as_ref().err());
        assert!(
            why.contains("past the end of the file"),
            "a {which} region of 4 GiB in a 64 MiB file was refused as {why}, \
             which means the read was asked for first"
        );
    }
}

/// A BAT entry is one 64-bit word off the disk. It keeps its top 44 bits
/// as a megabyte count, so the largest host offset it can name is just
/// under 2^64. Past the end of the file a read there would come up short;
/// above `2^64 - block_size` the offset within the block would wrap it.
#[test]
fn a_bat_entry_pointing_past_the_file_is_refused_by_name() {
    let mut image = build_big_vhdx(&pattern_block(12));

    // FullyPresent (state 6) at the highest megabyte-aligned offset
    // the encoding can express.
    let entry: u64 = 0xFFFF_FFFF_FFF0_0000 | 6;
    image.put(BIG_BAT_OFFSET, &entry.to_le_bytes());

    let r = image.open().unwrap();
    let mut buf = vec![0u8; 4096];
    let why = format!("{:?}", image.read_at(&r, 0, &mut buf).err());
    assert!(
        why.contains("past the file"),
        "a BAT entry at offset 2^64 - 1 MiB was refused as {why}, which means \
         the read was issued at that offset rather than refused"
    );
}

// ---------------------------------------------------------------------------
// Corruption and recovery: a valid image with one structure changed
// ---------------------------------------------------------------------------

/// Patch a field inside a header slot and repair that slot's CRC-32C.
///
/// Most tests here want a structure that should be rejected, and a
/// deliberately broken checksum is enough. Some want the opposite: a
/// header that is entirely well-formed and simply says something that
/// is not known how to honour.
fn patch_header_field(image: &mut Image, slot: u64, field_offset: usize, bytes: &[u8]) {
    let mut header = image.read(slot, HEADER_SIZE);
    header[field_offset..field_offset + bytes.len()].copy_from_slice(bytes);
    let crc = vhdx::header::compute_crc(&header);
    header[4..8].copy_from_slice(&crc.to_le_bytes());
    image.put(slot, &header);
}

/// The header's `version` field, at offset 66, patched in the first
/// header slot with that slot's CRC repaired.
fn patch_header_version(image: &mut Image, version: u16) {
    patch_header_field(image, HEADER1_OFFSET, 66, &version.to_le_bytes());
}

#[test]
fn valid_image_opens_as_baseline() {
    // Guards the corruption tests below: if this fails the image is
    // built wrong, not the error handling.
    let mut image = build_vhdx(&ramp_block());
    let r = image.open().unwrap();
    let mut buf = [0u8; 16];
    image.read_at(&r, 0, &mut buf).unwrap();
    assert_eq!(buf[1], 1);
}

/// `log_version` says which log format the file uses. Version 0 is the
/// only one defined, and a reader that meets another value has to stop:
/// the log region is then not one it can reason about, and replaying it
/// is a write.
///
/// The header CRC covers the field, so this is not a corrupt image.
#[test]
fn an_unknown_log_version_is_unsupported_not_replayed() {
    let mut image = build_vhdx(&ramp_block());
    image.open().expect("the image opens before the patch");

    patch_header_field(&mut image, HEADER1_OFFSET, 64, &1u16.to_le_bytes());

    match image.open() {
        Err(Error::Unsupported(msg)) => assert!(
            msg.contains("log version"),
            "the refusal must name the log version, got {msg:?}"
        ),
        Err(other) => panic!("expected Unsupported, got {other:?}"),
        Ok(_) => panic!("opened an image whose log format we cannot parse"),
    }
}

/// The refusal is not gated on the log being dirty. This image's
/// `log_guid` is zero, so nothing would be replayed, and it is
/// still refused, because a later write would append to a log region
/// whose format is not known.
#[test]
fn an_unknown_log_version_is_refused_even_with_an_empty_log() {
    let mut image = build_vhdx(&ramp_block());
    patch_header_field(&mut image, HEADER1_OFFSET, 64, &0xFFFFu16.to_le_bytes());

    let err = image.open().err().expect("expected Unsupported, got Ok");
    assert!(matches!(err, Error::Unsupported(_)), "got {err:?}");
}

#[test]
fn not_a_vhdx_when_file_identifier_is_wrong() {
    let mut image = build_vhdx(&ramp_block());
    image.put(0, b"NOTvhdxf");
    let err = image.open().err().expect("expected NotVhdx, got Ok");
    assert!(matches!(err, Error::NotVhdx), "got {err:?}");
}

#[test]
fn both_header_slots_invalid_yields_no_valid_header() {
    let mut image = build_vhdx(&ramp_block());
    // Header 1 is valid, header 2 is zero (invalid). Corrupt header 1's
    // signature so neither slot parses.
    image.put(HEADER1_OFFSET, b"junk");
    let err = image.open().err().expect("expected NoValidHeader, got Ok");
    assert!(matches!(err, Error::NoValidHeader), "got {err:?}");
}

#[test]
fn falls_back_to_header2_when_header1_crc_is_invalid() {
    let mut image = build_vhdx(&ramp_block());

    // Write a *valid* header 2 (sequence 2) matching the no-log layout,
    // then corrupt header 1's CRC by flipping a payload byte without
    // fixing its checksum. The reader must fall back to header 2.
    image.put(HEADER2_OFFSET, &encode_header(2, [0u8; 16], 0, 0));
    // Flip one byte of header 1's sequence_number field (offset +8).
    image.put(HEADER1_OFFSET + 8, &[0xFF]);

    let r = image.open().expect("should recover via header 2");
    let mut buf = [0u8; 4];
    image.read_at(&r, 0, &mut buf).unwrap();
    assert_eq!(buf, [0, 1, 2, 3]);
}

#[test]
fn opens_with_two_valid_header_slots() {
    let mut image = build_vhdx(&ramp_block());
    // Header 1 has sequence 1. Add a second valid header with a much
    // higher sequence so both slots parse. The image must still open and
    // read correctly.
    image.put(HEADER2_OFFSET, &encode_header(999, [0u8; 16], 0, 0));
    let r = image.open().unwrap();
    let mut buf = [0u8; 8];
    image.read_at(&r, 0, &mut buf).unwrap();
    assert_eq!(buf, [0, 1, 2, 3, 4, 5, 6, 7]);
}

#[test]
fn both_region_tables_invalid_yields_no_valid_region_table() {
    let mut image = build_vhdx(&ramp_block());
    // Only region table 1 was written; table 2 is zero (invalid).
    // Corrupt table 1's signature so neither parses.
    image.put(REGION_TABLE1_OFFSET, b"xxxx");
    let err = image
        .open()
        .err()
        .expect("expected NoValidRegionTable, got Ok");
    assert!(matches!(err, Error::NoValidRegionTable), "got {err:?}");
}

#[test]
fn bad_metadata_signature_is_rejected() {
    let mut image = build_vhdx(&ramp_block());
    image.put(METADATA_REGION_OFFSET, b"NOTmeta!");
    let err = image.open().err().expect("expected BadMetadata, got Ok");
    assert!(matches!(err, Error::BadMetadata(_)), "got {err:?}");
}

/// A region entry's `Required` flag is a hard gate: a region whose GUID
/// is not known, with the flag set, means the file must not be loaded.
/// It is how the format reserves room for a region that *transforms* the
/// payload without an older reader quietly handing back the
/// untransformed bytes.
#[test]
fn an_unknown_required_region_is_unsupported() {
    let mut image = build_vhdx(&ramp_block());
    image.open().expect("the image opens before the patch");

    append_region_entry(&mut image, REGION_TABLE1_OFFSET, [0xDE; 16], true);

    match image.open() {
        Err(Error::Unsupported(msg)) => assert!(
            msg.contains("region"),
            "the refusal must name the region, got {msg:?}"
        ),
        Err(other) => panic!("expected Unsupported, got {other:?}"),
        Ok(_) => panic!("opened an image carrying a region we cannot honour"),
    }
}

/// The same region with the flag clear is the format saying "ignore me
/// if you do not know me".
#[test]
fn corruption_an_unknown_optional_region_is_ignored() {
    let mut image = build_vhdx(&ramp_block());
    append_region_entry(&mut image, REGION_TABLE1_OFFSET, [0xDE; 16], false);

    let r = image
        .open()
        .expect("an unknown optional region must be ignored");
    let mut buf = [0u8; 16];
    image.read_at(&r, 0, &mut buf).unwrap();
    assert_eq!(buf[1], 1);
}

/// Add a region entry to the table at `table_offset` and repair its
/// CRC-32C, so the image fails for the reason the test is about rather
/// than for a checksum.
fn append_region_entry(image: &mut Image, table_offset: u64, guid: [u8; 16], required: bool) {
    let mut table = image.read(table_offset, REGION_TABLE_SIZE);
    let count = u32::from_le_bytes(table[8..12].try_into().unwrap()) as usize;
    let off = 16 + count * 32;
    table[off..off + 16].copy_from_slice(&guid);
    table[off + 16..off + 24].copy_from_slice(&0u64.to_le_bytes());
    table[off + 24..off + 28].copy_from_slice(&0u32.to_le_bytes());
    table[off + 28..off + 32].copy_from_slice(&u32::from(required).to_le_bytes());
    table[8..12].copy_from_slice(&((count + 1) as u32).to_le_bytes());
    table[4..8].fill(0);
    let crc = vhdx::region_table::compute_crc(&table);
    table[4..8].copy_from_slice(&crc.to_le_bytes());
    image.put(table_offset, &table);
}

#[test]
fn falls_back_to_header2_when_header1_version_is_unsupported() {
    let mut image = build_vhdx(&ramp_block());

    // Give header 2 a lower sequence number but an active log. This makes
    // the selected slot observable: header 2 must be selected after header 1
    // is rejected, otherwise the log replay below never happens.
    let log_guid = [0x77u8; 16];
    let log_offset = 4 * ONE_MIB;
    let log_length = ONE_MIB as u32;
    let entry = encode_entry(
        2,
        0,
        &log_guid,
        8 * ONE_MIB,
        8 * ONE_MIB,
        &[PendingWrite {
            file_offset: DATA_BLOCK_OFFSET,
            sector: vec![0xEE; 4096],
        }],
    );
    image.0.resize(8 * ONE_MIB as usize, 0);
    image.put(log_offset, &entry);
    image.put(
        HEADER2_OFFSET,
        &encode_header(0, log_guid, log_length, log_offset),
    );
    patch_header_version(&mut image, 2);

    let reader = image.open().expect("should recover via header 2");
    let mut buf = [0u8; 4096];
    image.read_at(&reader, 0, &mut buf).unwrap();
    assert!(buf.iter().all(|byte| *byte == 0xEE));
}

#[test]
fn unsupported_logical_sector_size_is_rejected() {
    let mut image = build_vhdx(&ramp_block());
    image.put(LOGICAL_SECTOR_SIZE_OFFSET, &1024u32.to_le_bytes());

    let err = image
        .open()
        .err()
        .expect("expected unsupported sector size to be rejected");
    assert!(matches!(
        err,
        Error::Corrupt("sector_size must be 512 or 4096")
    ));
}

#[test]
fn accepts_4096_logical_sector_size() {
    let mut image = build_vhdx(&ramp_block());
    image.put(LOGICAL_SECTOR_SIZE_OFFSET, &4096u32.to_le_bytes());

    let reader = image.open().expect("4096-byte sectors are valid VHDX");
    assert_eq!(reader.sector_size(), 4096);
}

// ---------------------------------------------------------------------------
// The log region has to be somewhere a region may go
//
// A clean image never has its log read, and the first write to it erases
// whatever the two fields name, so they are checked when it is opened.
// ---------------------------------------------------------------------------

/// The image of four blocks with `log_offset` and `log_length` replaced,
/// leaving `log_guid` at zero so the image looks clean.
fn big_vhdx_with_log_region(log_offset: u64, log_length: u32) -> Image {
    let mut image = build_big_vhdx(&pattern_block(3));
    image.put(
        HEADER1_OFFSET,
        &encode_header(1, [0u8; 16], log_length, log_offset),
    );
    image
}

#[test]
fn a_log_region_over_the_metadata_region_is_refused_at_open() {
    let mut image = big_vhdx_with_log_region(BIG_METADATA_OFFSET, BIG_LOG_LENGTH);

    let before = image.clone();
    let err = image
        .open_rw()
        .err()
        .expect("a log region on top of the metadata region must be refused");
    assert!(matches!(err, Error::Corrupt(_)), "got {err:?}");

    // And nothing was written on the way to the refusal.
    assert!(
        image.0 == before.0,
        "the refusal must not have touched the file"
    );
}

#[test]
fn a_log_region_over_the_bat_region_is_refused_at_open() {
    let mut image = big_vhdx_with_log_region(BIG_BAT_OFFSET, BIG_LOG_LENGTH);
    let err = image
        .open_rw()
        .err()
        .expect("a log region on top of the BAT must be refused");
    assert!(matches!(err, Error::Corrupt(_)), "got {err:?}");
}

#[test]
fn a_log_region_inside_the_header_section_is_refused_at_open() {
    // The first megabyte holds the file identifier, both headers and
    // both region tables. A log there would erase the reader's own way
    // back in.
    let mut image = big_vhdx_with_log_region(0, BIG_LOG_LENGTH);
    let err = image
        .open()
        .err()
        .expect("a log region inside the header section must be refused");
    assert!(matches!(err, Error::Corrupt(_)), "got {err:?}");
}

#[test]
fn a_log_region_that_is_not_megabyte_aligned_is_refused_at_open() {
    // 10 MiB + 4 KiB, in a 64 MiB file whose declared regions are at 5
    // and 6 MiB. The offset overlaps nothing and is inside the file, so
    // the alignment rule is the only thing that can refuse it.
    let mut image = big_vhdx_with_log_region(10 * ONE_MIB + 4096, BIG_LOG_LENGTH);
    let err = image
        .open()
        .err()
        .expect("a log region off the megabyte grid must be refused");
    assert!(matches!(err, Error::Corrupt(_)), "got {err:?}");
}

#[test]
fn a_log_region_whose_length_is_not_a_whole_megabyte_is_refused_at_open() {
    // Same reasoning: aligned start, no overlap, inside the file. Only
    // the length rule can refuse this.
    let mut image = big_vhdx_with_log_region(10 * ONE_MIB, BIG_LOG_LENGTH + 4096);
    let err = image
        .open()
        .err()
        .expect("a log length that is not a whole number of megabytes must be refused");
    assert!(matches!(err, Error::Corrupt(_)), "got {err:?}");
}

#[test]
fn a_sound_log_region_somewhere_else_in_the_file_still_opens() {
    // The positive control for the two above: the same 10 MiB address,
    // aligned and a whole megabyte long, is legal.
    let mut image = big_vhdx_with_log_region(10 * ONE_MIB, BIG_LOG_LENGTH);
    image
        .open()
        .expect("an aligned log region that overlaps nothing is legal");
}

#[test]
fn a_log_region_reaching_past_the_end_of_the_file_is_refused_at_open() {
    let mut image = big_vhdx_with_log_region(BIG_TOTAL_FILE_SIZE, BIG_LOG_LENGTH);
    let err = image
        .open()
        .err()
        .expect("a log region past the end of the file must be refused");
    assert!(matches!(err, Error::Corrupt(_)), "got {err:?}");
}

/// The positive control: the image's own log region is legal, and an
/// image that declares no log at all is legal too.
#[test]
fn a_sound_log_region_still_opens_and_writes() {
    let mut image = big_vhdx_with_log_region(BIG_LOG_OFFSET, BIG_LOG_LENGTH);
    {
        let mut r = image
            .open_rw()
            .expect("the image's own log region is legal");
        image
            .write_at(&mut r, BIG_BLOCK_SIZE as u64, &[0xABu8; 4096])
            .expect("and a write into an unallocated block still allocates");
        image.flush(&r);
    }
    let r = image
        .open()
        .expect("and the image is still readable afterwards");
    let mut buf = vec![0u8; 4096];
    image
        .read_at(&r, BIG_BLOCK_SIZE as u64, &mut buf)
        .unwrap();
    assert_eq!(buf, vec![0xABu8; 4096]);
}

#[test]
fn an_image_declaring_no_log_at_all_still_opens() {
    let mut image = big_vhdx_with_log_region(0, 0);
    image
        .open()
        .expect("log_length = 0 means there is no log, which is legal");
}

/// A *dirty* image whose log region names a declared region is refused
/// with that region intact.
#[test]
fn a_dirty_log_over_the_metadata_region_is_refused_with_the_region_intact() {
    let mut image = build_big_vhdx(&pattern_block(3));
    // A non-zero log_guid says a writer left something pending.
    image.put(
        HEADER1_OFFSET,
        &encode_header(1, [0x11u8; 16], BIG_LOG_LENGTH, BIG_METADATA_OFFSET),
    );
    let before = image.clone();

    let err = image
        .open_rw()
        .err()
        .expect("a dirty log on top of the metadata region must be refused");
    assert!(matches!(err, Error::Corrupt(_)), "got {err:?}");

    assert_eq!(
        image.read(BIG_METADATA_OFFSET, 16),
        before.read(BIG_METADATA_OFFSET, 16),
        "the metadata region must be untouched"
    );
    assert!(
        image.0 == before.0,
        "nothing at all should have been written"
    );
}

/// The log is erased only once the region table has said that it may be.
///
/// This one forges a genuine single-entry chain at the hostile offset,
/// and asserts on a marker 512 KiB into the log region: far past the
/// 8 KiB the entry occupies, and inside the megabyte that would be
/// erased. The entry cannot touch it and the erase cannot miss it.
#[test]
fn a_replayable_chain_at_a_hostile_log_offset_does_not_erase_the_region() {
    let mut image = build_big_vhdx(&pattern_block(4));

    const MARKER_AT: u64 = BIG_METADATA_OFFSET + 512 * 1024;
    let log_guid = [0x77u8; 16];
    let entry = encode_entry(
        2,
        0,
        &log_guid,
        BIG_TOTAL_FILE_SIZE,
        BIG_TOTAL_FILE_SIZE,
        &[PendingWrite {
            file_offset: BIG_DATA_BLOCK0_OFFSET + 8192,
            sector: vec![0xEEu8; 4096],
        }],
    );

    // The log region is declared over the metadata region, and the
    // chain really is there.
    image.put(BIG_METADATA_OFFSET, &entry);
    image.put(MARKER_AT, &[0xC5u8; 4096]);
    // Header 2 wins on sequence number and declares the hostile log.
    image.put(
        HEADER2_OFFSET,
        &encode_header(5, log_guid, BIG_LOG_LENGTH, BIG_METADATA_OFFSET),
    );
    assert_eq!(
        image.read(BIG_METADATA_OFFSET, 4),
        b"loge",
        "the image must actually contain a log entry"
    );

    let err = image
        .open_rw()
        .err()
        .expect("a log region over a declared region must be refused");
    assert!(matches!(err, Error::Corrupt(_)), "got {err:?}");

    assert_eq!(
        image.read(MARKER_AT, 16),
        [0xC5u8; 16],
        "the log region was erased before anything said it could be"
    );
}

/// A refused image is an unmodified image, including the descriptor's
/// own target.
///
/// A descriptor's target is checked against an extent that is at least
/// the file's current size, so one forged descriptor naming offset 0 with
/// a length covering the whole file passes it. This asserts whole-file
/// bytes, before and after.
#[test]
fn a_refused_image_is_not_written_to_by_the_replay_that_precedes_the_refusal() {
    let mut image = build_big_vhdx(&pattern_block(6));

    const TARGET: u64 = BIG_DATA_BLOCK0_OFFSET + 8192;
    let log_guid = [0x77u8; 16];
    let entry = encode_entry(
        2,
        0,
        &log_guid,
        BIG_TOTAL_FILE_SIZE,
        BIG_TOTAL_FILE_SIZE,
        &[PendingWrite {
            file_offset: TARGET,
            sector: vec![0xEEu8; 4096],
        }],
    );

    // The log is declared over the metadata region, where it may not be,
    // and the chain really is there.
    image.put(BIG_METADATA_OFFSET, &entry);
    image.put(
        HEADER2_OFFSET,
        &encode_header(5, log_guid, BIG_LOG_LENGTH, BIG_METADATA_OFFSET),
    );

    let before = image.clone();
    assert_eq!(
        before.read(BIG_METADATA_OFFSET, 4),
        b"loge",
        "the image must actually contain a log entry"
    );
    assert_ne!(
        before.read(TARGET, 8),
        [0xEEu8; 8],
        "the target already holds what replay would write, so this test could not tell"
    );

    let err = image
        .open_rw()
        .err()
        .expect("a log region over a declared region must be refused");
    match &err {
        Error::Corrupt(m) => assert!(
            m.contains("log region overlaps"),
            "refused, but not for the overlap: {m}"
        ),
        other => panic!("got {other:?}"),
    }

    assert_eq!(
        image.read(TARGET, 8),
        before.read(TARGET, 8),
        "the chain was applied before the refusal, so a caller told the file is bad \
         is holding a file that has just been modified"
    );
    assert_eq!(
        image.0.len(),
        before.0.len(),
        "the file changed size on an open that failed"
    );
    assert!(
        image.0 == before.0,
        "the refused open modified the image somewhere"
    );
}

/// The same refusal, with the descriptors that erase everything: the
/// refusal has to come first or there is nothing left to refuse.
#[test]
fn a_forged_chain_that_would_erase_the_image_is_refused_before_it_runs() {
    let mut image = build_big_vhdx(&pattern_block(7));

    let log_guid = [0x77u8; 16];
    // Eight sectors of zeros starting at offset 0: the file identifier,
    // both headers, and the region tables.
    let zeros: Vec<PendingWrite> = (0..8u64)
        .map(|i| PendingWrite {
            file_offset: i * 4096,
            sector: vec![0u8; 4096],
        })
        .collect();
    let entry = encode_entry(
        2,
        0,
        &log_guid,
        BIG_TOTAL_FILE_SIZE,
        BIG_TOTAL_FILE_SIZE,
        &zeros,
    );

    image.put(BIG_METADATA_OFFSET, &entry);
    image.put(
        HEADER2_OFFSET,
        &encode_header(5, log_guid, BIG_LOG_LENGTH, BIG_METADATA_OFFSET),
    );

    let before = image.clone();
    let err = image
        .open_rw()
        .err()
        .expect("a log region over a declared region must be refused");
    match &err {
        Error::Corrupt(m) => assert!(
            m.contains("log region overlaps"),
            "refused, but not for the overlap: {m}"
        ),
        other => panic!("got {other:?}"),
    }

    assert_eq!(
        image.read(0, 8),
        b"vhdxfile",
        "the file identifier was erased by a replay that was then refused"
    );
    assert!(
        image.0 == before.0,
        "the refused open modified the image"
    );
}

/// The check after replay is not a duplicate of the one before it.
///
/// A replayed chain may rewrite the region table itself. So a file can
/// pass the check before replay and fail it after: the table on disk
/// beforehand declares regions clear of the log, and the chain replaces
/// it with one that does not.
#[test]
fn a_replay_that_moves_a_region_onto_the_log_is_refused_after_it_runs() {
    let mut image = build_big_vhdx(&pattern_block(8));

    // A region table declaring the BAT exactly where the log lives.
    // Innocuous on disk beforehand: it is not there yet.
    let hostile_table = encode_region_table(BIG_LOG_OFFSET, 4096, BIG_METADATA_OFFSET);
    let log_guid = [0x77u8; 16];
    let writes: Vec<PendingWrite> = hostile_table
        .chunks(4096)
        .enumerate()
        .map(|(i, chunk)| PendingWrite {
            file_offset: REGION_TABLE1_OFFSET + (i as u64) * 4096,
            sector: chunk.to_vec(),
        })
        .collect();
    let entry = encode_entry(
        2,
        0,
        &log_guid,
        BIG_TOTAL_FILE_SIZE,
        BIG_TOTAL_FILE_SIZE,
        &writes,
    );
    // The log is where the header says it is, and where the table
    // as it stands says nothing lives.
    arm_the_log(&mut image, &entry, &log_guid);

    let err = image
        .open_rw()
        .err()
        .expect("after replay the BAT sits on the log region, which must be refused");
    match &err {
        Error::Corrupt(m) => assert!(
            m.contains("log region overlaps"),
            "refused, but not for the overlap: {m}"
        ),
        other => panic!("got {other:?}"),
    }

    // And the replay really did happen: otherwise this would be the
    // check before it.
    assert_eq!(
        image.read(REGION_TABLE1_OFFSET, 4096),
        &hostile_table[..4096],
        "the chain was not applied, so this test did not reach the check it is about"
    );
}

// ---------------------------------------------------------------------------
// The BAT region against the disk it describes
// ---------------------------------------------------------------------------

/// Rewrite both region-table copies with a BAT region of `bat_len`
/// bytes, leaving everything else as it was built.
fn declare_bat_region_length(image: &mut Image, bat_len: u32) {
    let table = encode_region_table(BIG_BAT_OFFSET, bat_len, BIG_METADATA_OFFSET);
    for off in [REGION_TABLE1_OFFSET, REGION_TABLE2_OFFSET] {
        image.put(off, &table);
    }
}

/// A BAT region too short for the disk is refused at open, naming the
/// region.
///
/// The image's disk needs four entries and this declares two, so
/// blocks 0 and 1 would still read correctly: an image can be
/// half-addressable and look healthy from the front.
#[test]
fn a_bat_region_too_short_for_the_disk_is_refused_at_open() {
    let mut image = build_big_vhdx(&pattern_block(3));
    declare_bat_region_length(&mut image, 2 * 8);

    match image.open() {
        Err(Error::Corrupt(m)) => assert!(
            m.contains("BAT region is too short"),
            "refused, but not for the region's length: {m}"
        ),
        Ok(_) => panic!("a BAT region half the size the disk needs was accepted"),
        Err(e) => panic!("a short BAT region gave {e:?}"),
    }
}

/// Exactly enough is enough.
#[test]
fn a_bat_region_of_exactly_the_required_length_is_accepted() {
    let mut image = build_big_vhdx(&pattern_block(3));
    declare_bat_region_length(&mut image, (BIG_BAT_ENTRIES * 8) as u32);

    let r = image
        .open()
        .expect("the region holds exactly what the disk needs");
    let mut buf = [0u8; 16];
    image.read_at(&r, 0, &mut buf).unwrap();
    assert_eq!(buf[0], 0, "block 0 did not read back");
}

/// A length that is not a whole number of entries is refused rather
/// than rounded down.
#[test]
fn a_bat_region_length_that_is_not_whole_entries_is_refused() {
    let mut image = build_big_vhdx(&pattern_block(3));
    declare_bat_region_length(&mut image, (BIG_BAT_ENTRIES * 8) as u32 + 4);

    match image.open() {
        Err(Error::Corrupt(m)) => assert!(
            m.contains("whole number of 8-byte entries"),
            "refused, but not for the ragged length: {m}"
        ),
        Ok(_) => panic!("a BAT region length of 8n+4 was accepted"),
        Err(e) => panic!("a ragged BAT region gave {e:?}"),
    }
}

// ---------------------------------------------------------------------------
// Differencing images
// ---------------------------------------------------------------------------

/// A differencing image is refused at open, not at the first read, and
/// the message names differencing rather than the metadata item.
#[test]
fn a_differencing_image_is_refused_at_open() {
    let mut image = build_vhdx_with_file_params_flags(&pattern_block(12), 0x2);

    match image.open() {
        Err(Error::Unsupported(m)) => assert!(
            m.contains("differencing"),
            "refused, but not as a differencing image: {m}"
        ),
        Ok(_) => panic!(
            "a differencing image opened; every read would then fail and the caller \
             would be told about its hardware"
        ),
        Err(e) => panic!("a differencing image gave {e:?}"),
    }
}

/// The flags word is read rather than assumed: bit 0 is a different
/// flag and must not refuse anything.
#[test]
fn the_leave_blocks_allocated_flag_is_not_a_parent() {
    let mut image = build_vhdx_with_file_params_flags(&pattern_block(13), 0x1);

    let r = image.open().expect("bit 0 is not a parent");
    assert!(!r.has_parent());
    let mut buf = [0u8; 16];
    image
        .read_at(&r, 0, &mut buf)
        .expect("and the image still reads");
}

// ---------------------------------------------------------------------------
// Edges of reading and writing
// ---------------------------------------------------------------------------

#[test]
fn a_read_across_blocks_joins_stored_bytes_and_zeros() {
    let mut image = build_big_vhdx(&[0xA5u8; ONE_MIB as usize]);
    let r = image.open().unwrap();
    let mut buf = [0xFFu8; 8];
    image.read_at(&r, ONE_MIB - 4, &mut buf).unwrap();
    assert_eq!(buf, [0xA5, 0xA5, 0xA5, 0xA5, 0, 0, 0, 0]);
    // Nothing is read of nothing.
    image.read_at(&r, BIG_VIRTUAL_DISK_SIZE, &mut []).unwrap();
}

#[test]
fn accesses_past_the_virtual_disk_are_refused() {
    let mut image = build_big_vhdx(&pattern_block(1));
    let mut r = image.open_rw().unwrap();
    let before = image.clone();
    let err = image
        .write_at(&mut r, BIG_VIRTUAL_DISK_SIZE - 1, &[1, 2])
        .unwrap_err();
    assert!(matches!(
        err,
        Error::OutOfBounds {
            offset: 4194303,
            len: 2,
            size: 4194304
        }
    ));
    let err = image.write_at(&mut r, u64::MAX, &[1, 2]).unwrap_err();
    assert!(matches!(err, Error::Corrupt("offset+len overflow")));
    let err = image.read_at(&r, u64::MAX, &mut [0u8; 2]).unwrap_err();
    assert!(matches!(err, Error::Corrupt("offset+len overflow")));
    image
        .write_at(&mut r, BIG_VIRTUAL_DISK_SIZE, &[])
        .unwrap();
    assert!(image.0 == before.0);
}

#[test]
fn a_reserved_state_is_refused_either_way() {
    let mut image = build_big_vhdx(&pattern_block(1));
    image.put(BIG_BAT_OFFSET + 8, &5u64.to_le_bytes());
    let mut r = image.open_rw().unwrap();
    let mut buf = [0u8; 8];
    let err = image.read_at(&r, ONE_MIB, &mut buf).unwrap_err();
    assert!(matches!(
        err,
        Error::Unsupported("BAT entry reserved state 5")
    ));
    let err = image.write_at(&mut r, ONE_MIB, &buf).unwrap_err();
    assert!(matches!(
        err,
        Error::Unsupported("BAT entry reserved state 5")
    ));
}

/// What is written before the block that takes no writes stays written.
#[test]
fn a_write_that_runs_into_a_refused_block_keeps_what_came_before() {
    let mut image = build_big_vhdx(&pattern_block(1));
    image.put(BIG_BAT_OFFSET + 16, &4u64.to_le_bytes());
    let mut r = image.open_rw().unwrap();
    let data = vec![0x3Cu8; 2 * ONE_MIB as usize];
    let err = image.write_at(&mut r, ONE_MIB / 2, &data).unwrap_err();
    assert!(matches!(
        err,
        Error::Unsupported("BAT entry reserved state 4")
    ));
    let mut got = vec![0u8; 3 * ONE_MIB as usize / 2];
    image.read_at(&r, ONE_MIB / 2, &mut got).unwrap();
    assert!(got.iter().all(|b| *b == 0x3C));
}

/// A block that the BAT names past the end of the file cannot be read. A write to it makes the
/// file longer, and is then read back.
#[test]
fn a_write_to_a_block_past_the_file_makes_it_longer() {
    let mut image = build_big_vhdx(&pattern_block(1));
    let host = BIG_TOTAL_FILE_SIZE + 2 * ONE_MIB;
    image.put(BIG_BAT_OFFSET, &(host | 6).to_le_bytes());
    let mut r = image.open_rw().unwrap();
    let err = image.read_at(&r, 512, &mut [0u8; 512]).unwrap_err();
    assert!(matches!(
        err,
        Error::Corrupt("BAT entry points past the file")
    ));

    image.write_at(&mut r, 512, &[7u8; 512]).unwrap();
    assert_eq!(image.0.len() as u64, host + 1024);
    assert_eq!(image.read(host + 512, 512), vec![7u8; 512]);
    let mut got = [1u8; 1024];
    image.read_at(&r, 0, &mut got).unwrap();
    assert_eq!(got[..512], [0u8; 512]);
    assert_eq!(got[512..], [7u8; 512]);
    // What the file still does not reach stays out of reach.
    assert!(image.read_at(&r, 1024, &mut [0u8; 512]).is_err());

    // A new block goes behind what is there now, and the image holds both when it is reopened.
    image.write_at(&mut r, ONE_MIB, &[5u8; 512]).unwrap();
    assert_eq!(
        image.read(BIG_BAT_OFFSET + 8, 8),
        ((host + ONE_MIB) | 6).to_le_bytes()
    );
    let r = image.open().unwrap();
    image.read_at(&r, 0, &mut got).unwrap();
    assert_eq!(got[512..], [7u8; 512]);
    image.read_at(&r, ONE_MIB, &mut got).unwrap();
    assert_eq!(got[..512], [5u8; 512]);
    assert_eq!(got[512..], [0u8; 512]);
}

/// A write that would have to reach past the 64-bit range has no room.
#[test]
fn a_write_past_the_64_bit_range_has_no_room() {
    let mut image = build_big_vhdx(&pattern_block(1));
    image.put(
        BIG_BAT_OFFSET,
        &(0xFFFF_FFFF_FFF0_0000u64 | 6).to_le_bytes(),
    );
    let r = image.open_rw().unwrap();
    assert!(r.has_room_for(0, 512));
    assert!(!r.has_room_for(0, ONE_MIB as usize));
}

/// Of a block that the file ends in, what is there is read; a write past it makes the file longer.
#[test]
fn a_block_that_the_file_ends_in_is_read_up_to_there() {
    let mut image = build_big_vhdx(&pattern_block(1));
    let host = BIG_TOTAL_FILE_SIZE - ONE_MIB;
    image.put(BIG_BAT_OFFSET, &(host | 6).to_le_bytes());
    image.0.truncate((host + ONE_MIB / 2) as usize);
    let mut r = image.open_rw().unwrap();
    let half = ONE_MIB / 2;

    image.write_at(&mut r, half - 512, &[9u8; 512]).unwrap();
    let mut got = [0u8; 512];
    image.read_at(&r, half - 512, &mut got).unwrap();
    assert_eq!(got, [9u8; 512]);
    assert!(image.read_at(&r, half - 256, &mut got).is_err());

    image.write_at(&mut r, half - 256, &[8u8; 512]).unwrap();
    image.read_at(&r, half - 512, &mut got).unwrap();
    assert_eq!(got[..256], [9u8; 256]);
    assert_eq!(got[256..], [8u8; 256]);
    image.read_at(&r, half - 256, &mut got).unwrap();
    assert_eq!(got, [8u8; 512]);

    // A new block goes behind the place of that one, and does not touch it.
    image.write_at(&mut r, ONE_MIB, &[5u8; 512]).unwrap();
    assert_eq!(
        image.read(BIG_BAT_OFFSET + 8, 8),
        (BIG_TOTAL_FILE_SIZE | 6).to_le_bytes()
    );
    image.read_at(&r, half - 256, &mut got).unwrap();
    assert_eq!(got, [8u8; 512]);
    image.read_at(&r, ONE_MIB, &mut got).unwrap();
    assert_eq!(got, [5u8; 512]);
}

/// A block past the end of the file that a write does not touch does not keep it from being read
/// back, even where the new block lands on its place.
#[test]
fn a_block_named_past_the_file_does_not_disturb_other_writes() {
    let mut image = build_big_vhdx(&pattern_block(1));
    image.put(BIG_BAT_OFFSET + 16, &(BIG_TOTAL_FILE_SIZE | 6).to_le_bytes());
    let mut r = image.open_rw().unwrap();
    image.write_at(&mut r, ONE_MIB, &[5u8; 512]).unwrap();
    for _ in 0..2 {
        let mut got = [0u8; 512];
        image.read_at(&r, ONE_MIB, &mut got).unwrap();
        assert_eq!(got, [5u8; 512]);
        let mut block = vec![0u8; ONE_MIB as usize];
        image.read_at(&r, 0, &mut block).unwrap();
        assert!(block == pattern_block(1));
        r = image.open_rw().unwrap();
    }
}

/// The region table is held to its rules once the log was replayed, which may have replaced it.
#[test]
fn a_log_that_replaces_a_region_table_with_an_unknown_region_is_replayed() {
    let mut image = build_big_vhdx(&pattern_block(4));
    let sound = image.read(REGION_TABLE1_OFFSET, 4096);
    append_region_entry(&mut image, REGION_TABLE1_OFFSET, [0xABu8; 16], true);
    let log_guid = [0x77u8; 16];
    let barred = image.clone();

    let mends = encode_entry(
        2,
        0,
        &log_guid,
        BIG_TOTAL_FILE_SIZE,
        BIG_TOTAL_FILE_SIZE,
        &[PendingWrite {
            file_offset: REGION_TABLE1_OFFSET,
            sector: sound,
        }],
    );
    arm_the_log(&mut image, &mends, &log_guid);
    let r = image.open().unwrap();
    let mut got = vec![0u8; ONE_MIB as usize];
    image.read_at(&r, 0, &mut got).unwrap();
    assert!(got == pattern_block(4));

    // A log that leaves the region there is replayed too, and then the image is refused.
    let mut image = barred;
    let leaves = encode_entry(
        2,
        0,
        &log_guid,
        BIG_TOTAL_FILE_SIZE,
        BIG_TOTAL_FILE_SIZE,
        &[PendingWrite {
            file_offset: BIG_DATA_BLOCK0_OFFSET,
            sector: vec![0xEEu8; 4096],
        }],
    );
    arm_the_log(&mut image, &leaves, &log_guid);
    let err = image.open().unwrap_err();
    assert!(matches!(
        err,
        Error::Unsupported("a required region is not recognised")
    ));
    assert!(image.read(BIG_DATA_BLOCK0_OFFSET, 4096) == vec![0xEEu8; 4096]);
}

/// Open the image and stop after `limit` operations, as a crash would. Says whether there were
/// fewer.
fn open_interrupted(image: &mut Image, limit: usize) -> bool {
    let mut left = limit;
    let mut step = VhdxReader::open_on_device(image.0.len() as u64, true);
    loop {
        step = match step {
            OpenStep::Read(request) => {
                let data = image.read(request.offset(), request.len());
                request.supply(data)
            }
            OpenStep::Apply(request) => {
                for op in request.ops() {
                    if left == 0 {
                        return false;
                    }
                    image.perform(op);
                    left -= 1;
                }
                request.applied(image.0.len() as u64)
            }
            OpenStep::Opened(_) => return true,
            OpenStep::Refused(why) => panic!("the image was refused: {why:?}"),
        };
    }
}

#[test]
fn a_crash_at_any_operation_of_an_open_is_survived() {
    let mut armed = build_big_vhdx(&pattern_block(4));
    let log_guid = [0x77u8; 16];
    let writes: Vec<PendingWrite> = (0..3u64)
        .map(|i| PendingWrite {
            file_offset: BIG_DATA_BLOCK0_OFFSET + 8192 * i,
            sector: vec![0xE0 + i as u8; 4096],
        })
        .collect();
    let entry = encode_entry(
        2,
        0,
        &log_guid,
        BIG_TOTAL_FILE_SIZE,
        BIG_TOTAL_FILE_SIZE,
        &writes,
    );
    arm_the_log(&mut armed, &entry, &log_guid);

    let mut whole = armed.clone();
    let r = whole.open().unwrap();
    let mut want = vec![0u8; BIG_VIRTUAL_DISK_SIZE as usize];
    whole.read_at(&r, 0, &mut want).unwrap();

    let mut limit = 0;
    loop {
        let mut torn = armed.clone();
        let done = open_interrupted(&mut torn, limit);
        let r = torn.open_rw().unwrap();
        let mut got = vec![0u8; BIG_VIRTUAL_DISK_SIZE as usize];
        torn.read_at(&r, 0, &mut got).unwrap();
        assert!(got == want, "a crash after {limit} operations");
        if done {
            break;
        }
        limit += 1;
    }
    // Three writes and a flush replay the entry; four operations mark the log as consumed.
    assert_eq!(limit, 8);
}

/// After a replay the log is empty, the header says so, and the next open asks for no operation.
#[test]
fn the_open_after_a_replay_performs_nothing() {
    let mut image = build_big_vhdx(&pattern_block(4));
    let log_guid = [0x77u8; 16];
    let entry = encode_entry(
        2,
        0,
        &log_guid,
        BIG_TOTAL_FILE_SIZE,
        BIG_TOTAL_FILE_SIZE,
        &[PendingWrite {
            file_offset: BIG_DATA_BLOCK0_OFFSET,
            sector: vec![0xEEu8; 4096],
        }],
    );
    arm_the_log(&mut image, &entry, &log_guid);
    let _ = image.open().unwrap();

    let log = image.read(BIG_LOG_OFFSET, BIG_LOG_LENGTH as usize);
    assert!(log.iter().all(|b| *b == 0));
    assert!(image.read(BIG_DATA_BLOCK0_OFFSET, 4096) == vec![0xEEu8; 4096]);
    // The armed header was in slot 2, with sequence number 5.
    assert_eq!(
        image.read(HEADER1_OFFSET, HEADER_SIZE)[8..],
        encode_header(6, [0u8; 16], BIG_LOG_LENGTH, BIG_LOG_OFFSET)[8..]
    );

    let mut step = VhdxReader::open_rw_on_device(image.0.len() as u64, true);
    loop {
        step = match step {
            OpenStep::Read(request) => {
                let data = image.read(request.offset(), request.len());
                request.supply(data)
            }
            OpenStep::Apply(_) => panic!("the second open wants to change the image"),
            OpenStep::Opened(_) => break,
            OpenStep::Refused(why) => panic!("the second open was refused: {why:?}"),
        };
    }
}

#[test]
fn a_write_without_a_log_changes_the_bat_in_place() {
    let mut image = big_vhdx_with_log_region(0, 0);
    let mut r = image.open_rw().unwrap();
    image.write_at(&mut r, ONE_MIB, &[7u8; 16]).unwrap();
    // The block went to the tail of the device, and no header moved.
    assert_eq!(
        image.read(BIG_BAT_OFFSET + 8, 8),
        (BIG_TOTAL_FILE_SIZE | 6).to_le_bytes()
    );
    assert_eq!(image.read(HEADER2_OFFSET, 4), [0u8; 4]);
    let r = image.open_on_read_only_device().unwrap();
    let mut got = [0u8; 16];
    image.read_at(&r, ONE_MIB, &mut got).unwrap();
    assert_eq!(got, [7u8; 16]);
}

#[test]
fn flushing_is_for_writers() {
    let mut image = build_big_vhdx(&pattern_block(1));
    let r = image.open().unwrap();
    assert!(r.flush().is_empty());
    let r = image.open_rw().unwrap();
    assert!(matches!(r.flush()[..], [DeviceOp::Flush]));
}

#[test]
fn a_bat_entry_across_two_sectors_leaves_no_room_to_write() {
    // The BAT starts four bytes before a sector boundary.
    let mut image = build_big_vhdx(&pattern_block(1));
    let bat_offset = BIG_BAT_OFFSET + 4092;
    image.put(
        REGION_TABLE1_OFFSET,
        &encode_region_table(bat_offset, 32, BIG_METADATA_OFFSET),
    );
    let r = image.open_rw().unwrap();
    assert!(!r.has_room_for(0, 1));
    assert!(r.has_room_for(ONE_MIB, 1));
    // A write that is refused outright needs no room.
    assert!(r.has_room_for(BIG_VIRTUAL_DISK_SIZE, 1));
}

// ---------------------------------------------------------------------------
// Journalling, and what a crash leaves
// ---------------------------------------------------------------------------

/// Each journalled write moves the header to the other slot, with the next sequence number
/// and GUIDs of its own.
#[test]
fn headers_take_turns_with_fresh_guids() {
    let mut image = build_big_vhdx(&pattern_block(1));
    let mut r = image.open_rw().unwrap();

    image.write_at(&mut r, ONE_MIB, &[1u8; 8]).unwrap();
    let h = vhdx::header::Header::parse(&image.read(HEADER2_OFFSET, HEADER_SIZE)).unwrap();
    assert_eq!(h.sequence_number, 2);
    let stirred = [0, 0, 0, 0, 0, 0, 0, 0, 2, 0, 0, 0, 0, 0, 0, 0];
    assert_eq!(h.log_guid, stirred);
    assert_eq!(h.file_write_guid, stirred);
    assert_eq!(h.data_write_guid, stirred);

    image.write_at(&mut r, 2 * ONE_MIB, &[1u8; 8]).unwrap();
    let h = vhdx::header::Header::parse(&image.read(HEADER1_OFFSET, HEADER_SIZE)).unwrap();
    assert_eq!(h.sequence_number, 3);
    assert_eq!(
        h.log_guid,
        [0, 0, 0, 0, 0, 0, 0, 0, 1, 0, 0, 0, 0, 0, 0, 0]
    );

    // The log holds one entry: the BAT sector as it now stands.
    let log = image.read(BIG_LOG_OFFSET, BIG_LOG_LENGTH as usize);
    let chain = vhdx::log::collect_replay_chain(&log, &h.log_guid);
    assert_eq!(chain.len(), 1);
    assert_eq!(chain[0].header.sequence_number, 3);
    match &chain[0].descriptors[..] {
        [vhdx::log::Descriptor::Data {
            file_offset,
            sector,
            ..
        }] => {
            assert_eq!(*file_offset, BIG_BAT_OFFSET);
            assert_eq!(*sector, image.read(BIG_BAT_OFFSET, 4096));
        }
        other => panic!("expected one sector, got {} descriptors", other.len()),
    }
}

/// A log GUID that the sequence number would stir to nothing is not left all-zero.
#[test]
fn a_log_guid_is_never_stirred_to_nothing() {
    let mut image = build_big_vhdx(&pattern_block(1));
    // Sequence 1, so the next one is 2, which this GUID cancels out.
    let guid = [0, 0, 0, 0, 0, 0, 0, 0, 2, 0, 0, 0, 0, 0, 0, 0];
    image.put(
        HEADER1_OFFSET,
        &encode_header(1, guid, BIG_LOG_LENGTH, BIG_LOG_OFFSET),
    );
    let mut r = image.open_rw().unwrap();
    image.write_at(&mut r, ONE_MIB, &[1u8; 8]).unwrap();
    let h = vhdx::header::Header::parse(&image.read(HEADER2_OFFSET, HEADER_SIZE)).unwrap();
    assert_eq!(
        h.log_guid,
        [1, 0, 0, 0, 0, 0, 0, 0, 0, 0, 0, 0, 0, 0, 0, 0]
    );
}

/// Carry out a write, but stop after `limit` operations; say how many were performed.
fn write_interrupted(
    image: &mut Image,
    r: &mut VhdxReader,
    offset: u64,
    data: &[u8],
    limit: usize,
) -> usize {
    let mut performed = 0;
    let mut step = r.write_at(offset, data);
    loop {
        step = match step {
            WriteStep::Read(request) => {
                let bytes = image.read(request.offset(), request.len());
                request.supply(r, bytes)
            }
            WriteStep::Apply(request) => {
                for op in request.ops() {
                    if performed == limit {
                        return performed;
                    }
                    image.perform(op);
                    performed += 1;
                }
                request.applied(r)
            }
            WriteStep::Done(_) => return performed,
        };
    }
}

/// Wherever a write is interrupted, the image opens again with every older byte in place,
/// and the block that was being written holds either nothing or the whole of it.
#[test]
fn a_crash_at_any_operation_is_survived() {
    let block0 = pattern_block(9);
    let base = {
        let mut image = build_big_vhdx(&block0);
        // One write that went through, so that the log is not empty.
        let mut r = image.open_rw().unwrap();
        image.write_at(&mut r, 2 * ONE_MIB, &[0x22u8; 64]).unwrap();
        image
    };
    let payload = [0x99u8; 4096];
    let total = {
        let mut image = base.clone();
        let mut r = image.open_rw().unwrap();
        write_interrupted(&mut image, &mut r, ONE_MIB, &payload, usize::MAX)
    };
    assert!(total > 6);

    let mut lost = 0;
    let mut published = 0;
    for limit in 0..=total {
        let mut image = base.clone();
        {
            let mut r = image.open_rw().unwrap();
            write_interrupted(&mut image, &mut r, ONE_MIB, &payload, limit);
        }
        let r = image
            .open()
            .unwrap_or_else(|e| panic!("after {limit} operations: {e:?}"));
        let mut got = vec![0u8; ONE_MIB as usize];
        image.read_at(&r, 0, &mut got).unwrap();
        assert!(got == block0, "after {limit} operations");
        let mut got = [0u8; 64];
        image.read_at(&r, 2 * ONE_MIB, &mut got).unwrap();
        assert_eq!(got, [0x22u8; 64], "after {limit} operations");
        let mut got = [0u8; 4096];
        image.read_at(&r, ONE_MIB, &mut got).unwrap();
        if got == payload {
            published += 1;
        } else {
            assert_eq!(got, [0u8; 4096], "after {limit} operations");
            lost += 1;
        }
    }
    assert!(lost > 0 && published > 0);
}

/// A BAT sector that was torn is made good from the log.
#[test]
fn a_torn_bat_sector_is_rewritten_by_the_next_open() {
    let block0 = pattern_block(9);
    let mut image = build_big_vhdx(&block0);
    let mut r = image.open_rw().unwrap();
    image.write_at(&mut r, ONE_MIB, &[0x99u8; 64]).unwrap();
    drop(r);
    image.put(BIG_BAT_OFFSET, &[0xFFu8; 4096]);

    let r = image.open().unwrap();
    let mut got = vec![0u8; ONE_MIB as usize];
    image.read_at(&r, 0, &mut got).unwrap();
    assert!(got == block0);
    let mut got = [0u8; 64];
    image.read_at(&r, ONE_MIB, &mut got).unwrap();
    assert_eq!(got, [0x99u8; 64]);
}

/// A device that takes no writes is left alone, and its dirty image is refused.
#[test]
fn a_dirty_image_on_a_read_only_device_is_refused() {
    let mut image = build_big_vhdx(&pattern_block(1));
    let mut r = image.open_rw().unwrap();
    image.write_at(&mut r, ONE_MIB, &[1u8; 8]).unwrap();
    drop(r);
    let before = image.clone();
    let err = image.open_on_read_only_device().err().unwrap();
    assert!(matches!(err, Error::ReadOnly), "got {err:?}");
    assert!(image.0 == before.0);
}

/// What an image is opened for makes no difference to what is read of it.
#[test]
fn opening_for_writing_changes_nothing_by_itself() {
    let clean = build_big_vhdx(&pattern_block(4));
    for writable in [false, true] {
        let mut image = clean.clone();
        let size = image.0.len() as u64;
        let r = image
            .drive(start(
                size,
                OpenMode {
                    writable,
                    replay_capable: true,
                },
            ))
            .unwrap();
        assert_eq!(r.is_writable(), writable);
        assert_eq!(r.virtual_size(), BIG_VIRTUAL_DISK_SIZE);
        assert!(image.0 == clean.0);
    }
}

/// A dirty header over a log with nothing in it opens as it is, and stays dirty.
#[test]
fn a_dirty_image_with_an_empty_log_opens_unchanged() {
    let mut image = build_big_vhdx(&pattern_block(4));
    image.put(
        HEADER1_OFFSET,
        &encode_header(1, [0x77; 16], BIG_LOG_LENGTH, BIG_LOG_OFFSET),
    );
    let before = image.clone();
    let r = image.open().unwrap();
    assert!(image.0 == before.0);
    let mut got = [0u8; 16];
    image.read_at(&r, 0, &mut got).unwrap();
    assert_eq!(got[1], 5);
}

/// Every structure that a write changes is durable before the next one is touched.
#[test]
fn the_operations_of_a_write_come_in_order() {
    let mut image = build_big_vhdx(&pattern_block(1));
    let mut r = image.open_rw().unwrap();
    let mut seen: Vec<(&str, u64, usize)> = Vec::new();
    let data = [0x5Au8; 32];
    let mut step = r.write_at(ONE_MIB + 100, &data);
    loop {
        step = match step {
            WriteStep::Read(request) => {
                let bytes = image.read(request.offset(), request.len());
                request.supply(&mut r, bytes)
            }
            WriteStep::Apply(request) => {
                for op in request.ops() {
                    seen.push(match op {
                        DeviceOp::Write { offset, data } => ("write", *offset, data.len()),
                        DeviceOp::Zeros { offset, len } => ("zeros", *offset, *len as usize),
                        DeviceOp::Flush => ("flush", 0, 0),
                    });
                    image.perform(op);
                }
                request.applied(&mut r)
            }
            WriteStep::Done(outcome) => {
                outcome.unwrap();
                break;
            }
        };
    }
    let flush = ("flush", 0, 0);
    assert_eq!(
        seen,
        [
            ("zeros", BIG_TOTAL_FILE_SIZE, ONE_MIB as usize),
            flush,
            ("zeros", BIG_LOG_OFFSET, BIG_LOG_LENGTH as usize),
            flush,
            ("write", BIG_LOG_OFFSET, 8192),
            flush,
            ("write", HEADER2_OFFSET, HEADER_SIZE),
            flush,
            ("write", BIG_BAT_OFFSET, 4096),
            flush,
            ("write", BIG_TOTAL_FILE_SIZE + 100, 32),
            flush,
        ]
    );
}

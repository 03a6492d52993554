//! The VHDX log: parsing its entries, choosing the chain that may be replayed,
//! and encoding new entries.
//!
//! The log lives at `header.log_offset` for `header.log_length` bytes. Inside it
//! is a circular buffer of 4 KiB log entries. Each entry batches one or more
//! 4 KiB writes destined for the data zones (BAT, metadata, payload blocks) and
//! is committed as a unit, so the image can always be rolled forward to a
//! consistent state.
//!
//! Entry layout (all little-endian):
//!
//! ```text
//!   0   4   signature "loge"
//!   4   4   checksum (CRC-32C of the whole entry, this field zeroed)
//!   8   4   entry_length (header + descriptors + data sectors)
//!  12   4   tail (offset of the oldest entry in this active sequence)
//!  16   8   sequence_number
//!  24   4   descriptor_count
//!  28   4   reserved
//!  32  16   log_guid (must match header.log_guid)
//!  48   8   flushed_file_offset
//!  56   8   last_file_offset
//!  64 ...   descriptors (32 bytes each, descriptor_count of them)
//!  ...      data sectors (4 KiB each), one per "desc" descriptor, from the
//!           next 4 KiB boundary on
//! ```
//!
//! Descriptor (32 bytes):
//!
//! - "zero": signature(4) "zero" + reserved(4) + zero_length(8) +
//!   file_offset(8) + sequence_number(8). Replay zeros `zero_length` bytes at
//!   `file_offset`. No paired data sector.
//! - "desc": signature(4) "desc" + trailing_bytes(4) + leading_bytes(8) +
//!   file_offset(8) + sequence_number(8). Paired with one 4 KiB data sector that,
//!   once the leading and trailing bytes are put back, is written at
//!   `file_offset`.
//!
//! Each data sector (4 KiB):
//!
//! - bytes 0..4   "data"
//! - bytes 4..8   sequence_high (top 32 bits of the entry's sequence number)
//! - bytes 8..4092 payload
//! - bytes 4092..4096 sequence_low (low 32 bits of the entry's sequence number)
//!
//! Replay walks the active chain forward from its start and stops at the first
//! break. A slot joins the chain only if it holds a CRC-valid entry stamped with
//! `header.log_guid`, sitting immediately after its predecessor, and carrying
//! exactly the next sequence number. The chain starts where the highest-sequence
//! entry's `tail` says its sequence began. Everything after a break is left
//! unapplied: applying the successors of an entry that did not survive would
//! produce an image that no writer ever committed.
//!
//! A chain that wraps past the end of the region is followed only as far as the
//! wrap. That prefix is still a committed state.
use crate::bytes::{copy_into, matches_at, read_guid, same_guid, slice_of, splice};
use crate::checksum::{checksum, checksum_of, lemma_checksum_ignores_its_field};
use crate::checksum::lemma_one_byte_changes_the_checksum;
use crate::endian::{le32, le32_bytes, le64, le64_bytes, lemma_le32_digits, lemma_le32_held};
use crate::endian::{lemma_le32_of_equal_bytes, lemma_le64_digits, lemma_le64_of_equal_bytes};
use crate::endian::{read_u32_le, read_u64_le};
use vstd::prelude::*;
use vstd::slice::slice_subrange;

pub mod chain;
pub mod encode;
pub mod replay;

pub use self::chain::collect_replay_chain;
pub use self::encode::{encode_entry, PendingWrite};
pub use self::replay::apply_chain;

verus! {

pub const LOG_SECTOR_SIZE: usize = 4096;

pub const LOG_ENTRY_HEADER_SIZE: usize = 64;

pub const LOG_DESCRIPTOR_SIZE: usize = 32;

/// "loge"
pub const LOG_ENTRY_SIGNATURE: [u8; 4] = [0x6C, 0x6F, 0x67, 0x65];

/// "zero"
pub const ZERO_DESC_SIGNATURE: [u8; 4] = [0x7A, 0x65, 0x72, 0x6F];

/// "desc"
pub const DATA_DESC_SIGNATURE: [u8; 4] = [0x64, 0x65, 0x73, 0x63];

/// "data"
pub const DATA_SECTOR_SIGNATURE: [u8; 4] = [0x64, 0x61, 0x74, 0x61];

/// Why a 4 KiB slot did not yield a log entry belonging to the chain being
/// replayed.
///
/// `Empty` says nothing was ever written here; the other three say something was
/// written here and cannot be used.
#[derive(Debug, Clone, Copy, PartialEq, Eq, Structural)]
pub enum EntryReject {
    /// No entry signature. An unused slot, or the interior of an entry whose
    /// header sits earlier in the region. Nothing was lost.
    Empty,
    /// An entry header is present but the bytes under it do not check out: a
    /// failed CRC, or a length the header contradicts. This is what a crash
    /// partway through writing an entry leaves behind.
    Corrupt,
    /// A structurally sound entry stamped with a different `log_guid`. It belongs
    /// to another chain and is not ours to replay.
    ForeignChain,
    /// CRC-clean but internally inconsistent: a descriptor table that overruns
    /// the entry, an unrecognised descriptor signature, or a data sector that is
    /// missing or stamped with the wrong sequence.
    Malformed,
}

/// Either an entry or the reason there isn't one.
pub type ParseOutcome = core::result::Result<LogEntry, EntryReject>;

/// The fixed fields at the front of a log entry.
#[derive(Debug, Clone, Copy)]
pub struct LogEntryHeader {
    pub entry_length: u32,
    pub tail: u32,
    pub sequence_number: u64,
    pub descriptor_count: u32,
    pub log_guid: [u8; 16],
    pub flushed_file_offset: u64,
    pub last_file_offset: u64,
}

/// One write that replaying an entry performs.
#[derive(Debug, Clone)]
pub enum Descriptor {
    Zero { zero_length: u64, file_offset: u64, sequence_number: u64 },
    Data {
        trailing_bytes: u32,
        leading_bytes: u64,
        file_offset: u64,
        sequence_number: u64,
        /// The 4 KiB sector to be written at `file_offset`, with the leading and
        /// trailing bytes put back.
        sector: Vec<u8>,
    },
}

/// A log entry that passed every check.
#[derive(Debug, Clone)]
pub struct LogEntry {
    pub header: LogEntryHeader,
    pub descriptors: Vec<Descriptor>,
    /// Offset (in bytes) inside the log region where this entry started.
    pub log_offset_in_region: u64,
}

/// What a [`Descriptor`] says.
#[verifier::ext_equal]
pub enum DescriptorView {
    Zero { zero_length: int, file_offset: int, sequence_number: int },
    Data {
        trailing_bytes: int,
        leading_bytes: int,
        file_offset: int,
        sequence_number: int,
        sector: Seq<u8>,
    },
}

/// What a [`LogEntry`] says.
#[verifier::ext_equal]
pub struct EntryView {
    pub entry_length: int,
    pub tail: int,
    pub sequence_number: int,
    pub log_guid: Seq<u8>,
    pub flushed_file_offset: int,
    pub last_file_offset: int,
    pub descriptors: Seq<DescriptorView>,
    pub offset: int,
}

impl View for Descriptor {
    type V = DescriptorView;

    open spec fn view(&self) -> DescriptorView {
        match *self {
            Descriptor::Zero { zero_length, file_offset, sequence_number } => DescriptorView::Zero {
                zero_length: zero_length as int,
                file_offset: file_offset as int,
                sequence_number: sequence_number as int,
            },
            Descriptor::Data {
                trailing_bytes,
                leading_bytes,
                file_offset,
                sequence_number,
                sector,
            } => DescriptorView::Data {
                trailing_bytes: trailing_bytes as int,
                leading_bytes: leading_bytes as int,
                file_offset: file_offset as int,
                sequence_number: sequence_number as int,
                sector: sector@,
            },
        }
    }
}

impl View for LogEntry {
    type V = EntryView;

    open spec fn view(&self) -> EntryView {
        EntryView {
            entry_length: self.header.entry_length as int,
            tail: self.header.tail as int,
            sequence_number: self.header.sequence_number as int,
            log_guid: self.header.log_guid@,
            flushed_file_offset: self.header.flushed_file_offset as int,
            last_file_offset: self.header.last_file_offset as int,
            descriptors: Seq::new(self.descriptors@.len(), |i: int| self.descriptors@[i]@),
            offset: self.log_offset_in_region as int,
        }
    }
}

impl LogEntry {
    /// Whether the stored descriptor count is the number of descriptors held.
    pub open spec fn counted(self) -> bool {
        self.header.descriptor_count == self.descriptors@.len()
    }
}

/// What a list of entries says.
pub open spec fn entry_views(entries: Seq<LogEntry>) -> Seq<EntryView> {
    Seq::new(entries.len(), |i: int| entries[i]@)
}

/// Whether each of the entries stores the number of its descriptors.
pub open spec fn all_counted(entries: Seq<LogEntry>) -> bool {
    forall|i: int| 0 <= i < entries.len() ==> (#[trigger] entries[i]).counted()
}

/// The next 4 KiB boundary at or after `n`.
pub open spec fn sector_ceiling(n: int) -> int {
    (n + 4095) / 4096 * 4096
}

/// Where descriptor `i` of an entry starts.
pub open spec fn descriptor_start(i: int) -> int {
    64 + 32 * i
}

/// Whether descriptor `i` of the entry `e` is a "zero" descriptor.
pub open spec fn is_zero_descriptor(e: Seq<u8>, i: int) -> bool {
    e.subrange(descriptor_start(i), descriptor_start(i) + 4) == ZERO_DESC_SIGNATURE@
}

/// Whether descriptor `i` of the entry `e` is a "desc" descriptor.
pub open spec fn is_data_descriptor(e: Seq<u8>, i: int) -> bool {
    e.subrange(descriptor_start(i), descriptor_start(i) + 4) == DATA_DESC_SIGNATURE@
}

/// How many of the first `i` descriptors of the entry `e` own a data sector.
pub open spec fn data_sectors_before(e: Seq<u8>, i: int) -> int
    decreases i,
{
    if i <= 0 {
        0
    } else if is_data_descriptor(e, i - 1) {
        data_sectors_before(e, i - 1) + 1
    } else {
        data_sectors_before(e, i - 1)
    }
}

/// Where the data sector of descriptor `i` starts, in an entry `e` of `count`
/// descriptors.
pub open spec fn data_sector_start(e: Seq<u8>, count: int, i: int) -> int {
    sector_ceiling(descriptor_start(count)) + 4096 * data_sectors_before(e, i)
}

/// Whether the 4 KiB at `at` in the entry `e` are a data sector stamped with the
/// sequence number `seq`.
pub open spec fn is_data_sector(e: Seq<u8>, at: int, seq: int) -> bool {
    &&& at + 4096 <= e.len()
    &&& e.subrange(at, at + 4) == DATA_SECTOR_SIGNATURE@
    &&& le32(e, at + 4092) + 0x1_0000_0000 * le32(e, at + 4) == seq
}

/// Whether descriptor `i` of the entry `e` of `count` descriptors is usable.
pub open spec fn descriptor_sound(e: Seq<u8>, count: int, i: int) -> bool {
    let seq = le64(e, 16);
    &&& le64(e, descriptor_start(i) + 24) == seq
    &&& is_zero_descriptor(e, i) || (is_data_descriptor(e, i) && is_data_sector(
        e,
        data_sector_start(e, count, i),
        seq,
    ))
}

/// The data sector at `at` of the entry `e`, with the bytes that its stamps
/// displaced put back from descriptor `i`.
pub open spec fn restored_sector(e: Seq<u8>, i: int, at: int) -> Seq<u8> {
    let d = descriptor_start(i);
    splice(
        splice(e.subrange(at, at + 4096), 0, e.subrange(d + 8, d + 16)),
        4092,
        e.subrange(d + 4, d + 8),
    )
}

/// What descriptor `i` of the entry `e` of `count` descriptors says.
pub open spec fn descriptor_at(e: Seq<u8>, count: int, i: int) -> DescriptorView {
    let d = descriptor_start(i);
    if is_zero_descriptor(e, i) {
        DescriptorView::Zero {
            zero_length: le64(e, d + 8),
            file_offset: le64(e, d + 16),
            sequence_number: le64(e, d + 24),
        }
    } else {
        DescriptorView::Data {
            trailing_bytes: le32(e, d + 4),
            leading_bytes: le64(e, d + 8),
            file_offset: le64(e, d + 16),
            sequence_number: le64(e, d + 24),
            sector: restored_sector(e, i, data_sector_start(e, count, i)),
        }
    }
}

/// The length that the slot at `pos` claims for its entry, or why the slot holds
/// none.
pub open spec fn slot_length(log: Seq<u8>, pos: int) -> core::result::Result<int, EntryReject> {
    if pos + 4096 > log.len() || log.subrange(pos, pos + 4) != LOG_ENTRY_SIGNATURE@ {
        Err(EntryReject::Empty)
    } else {
        let n = le32(log, pos + 8);
        if n < 4096 || n % 4096 != 0 || pos + n > log.len() {
            Err(EntryReject::Corrupt)
        } else {
            Ok(n)
        }
    }
}

/// What the entry bytes `e` mean to the chain `guid`, given `crc` as the
/// checksum of `e`; `pos` is where they lie in the log.
pub open spec fn entry_meaning(
    e: Seq<u8>,
    pos: int,
    guid: Seq<u8>,
    crc: u32,
) -> core::result::Result<EntryView, EntryReject> {
    let count = le32(e, 24);
    if le32(e, 4) != crc {
        Err(EntryReject::Corrupt)
    } else if e.subrange(32, 48) != guid {
        Err(EntryReject::ForeignChain)
    } else if descriptor_start(count) > e.len() || exists|i: int|
        0 <= i < count && !#[trigger] descriptor_sound(e, count, i) {
        Err(EntryReject::Malformed)
    } else {
        Ok(
            EntryView {
                entry_length: e.len() as int,
                tail: le32(e, 12),
                sequence_number: le64(e, 16),
                log_guid: guid,
                flushed_file_offset: le64(e, 48),
                last_file_offset: le64(e, 56),
                descriptors: Seq::new(count as nat, |i: int| descriptor_at(e, count, i)),
                offset: pos,
            },
        )
    }
}

/// What the slot at `pos` of the log means to the chain `guid`, given `crc` as
/// the checksum of the entry that it claims to hold.
pub open spec fn slot_meaning_given(
    log: Seq<u8>,
    pos: int,
    guid: Seq<u8>,
    crc: u32,
) -> core::result::Result<EntryView, EntryReject> {
    match slot_length(log, pos) {
        Err(why) => Err(why),
        Ok(n) => entry_meaning(log.subrange(pos, pos + n), pos, guid, crc),
    }
}

/// What the slot at `pos` of the log means to the chain `guid`.
pub open spec fn slot_meaning(
    log: Seq<u8>,
    pos: int,
    guid: Seq<u8>,
) -> core::result::Result<EntryView, EntryReject> {
    match slot_length(log, pos) {
        Err(why) => Err(why),
        Ok(n) => entry_meaning(
            log.subrange(pos, pos + n),
            pos,
            guid,
            checksum_of(log.subrange(pos, pos + n)),
        ),
    }
}

/// Whether the outcome of a parse is what `meaning` says.
pub open spec fn outcome_is(
    r: ParseOutcome,
    meaning: core::result::Result<EntryView, EntryReject>,
) -> bool {
    match r {
        Ok(entry) => meaning == Ok::<EntryView, EntryReject>(entry@) && entry.counted(),
        Err(why) => meaning == Err::<EntryView, EntryReject>(why),
    }
}

/// The next 4 KiB boundary at or after `n`.
pub fn round_up_sector(n: usize) -> (r: usize)
    requires
        sector_ceiling(n as int) <= usize::MAX,
    ensures
        r == sector_ceiling(n as int),
{
    if n % LOG_SECTOR_SIZE == 0 {
        n
    } else {
        n - n % LOG_SECTOR_SIZE + LOG_SECTOR_SIZE
    }
}

/// The length of the entry that the slot at `pos` claims to hold.
fn claimed_length(log_bytes: &[u8], pos: usize) -> (r: core::result::Result<usize, EntryReject>)
    ensures
        match r {
            Ok(n) => slot_length(log_bytes@, pos as int) == Ok::<int, EntryReject>(n as int),
            Err(why) => slot_length(log_bytes@, pos as int) == Err::<int, EntryReject>(why),
        },
{
    if pos > log_bytes.len() || log_bytes.len() - pos < LOG_SECTOR_SIZE {
        return Err(EntryReject::Empty);
    }
    let signature: [u8; 4] = LOG_ENTRY_SIGNATURE;
    if !matches_at(log_bytes, pos, signature.as_slice()) {
        return Err(EntryReject::Empty);
    }
    let entry_length: usize = read_u32_le(log_bytes, pos + 8) as usize;
    if entry_length < LOG_SECTOR_SIZE || entry_length % LOG_SECTOR_SIZE != 0 || entry_length
        > log_bytes.len() - pos {
        return Err(EntryReject::Corrupt);
    }
    Ok(entry_length)
}

/// Try to parse one log entry starting at `pos` inside `log_bytes`.
///
/// The error says *why* the slot was refused. `Empty` means keep looking; the
/// other three mean something was written here that cannot be replayed.
pub fn parse_log_entry(log_bytes: &[u8], pos: usize, expected_log_guid: &[u8; 16]) -> (r:
    ParseOutcome)
    ensures
        outcome_is(r, slot_meaning(log_bytes@, pos as int, expected_log_guid@)),
{
    match claimed_length(log_bytes, pos) {
        Err(why) => Err(why),
        Ok(n) => {
            assert(pos + n <= log_bytes.len());
            let crc: u32 = checksum(slice_subrange(log_bytes, pos, pos + n));
            parse_log_entry_given(log_bytes, pos, expected_log_guid, crc)
        },
    }
}

/// Parse the log entry starting at `pos`, whose bytes have the checksum `crc`.
pub fn parse_log_entry_given(
    log_bytes: &[u8],
    pos: usize,
    expected_log_guid: &[u8; 16],
    crc: u32,
) -> (r: ParseOutcome)
    ensures
        outcome_is(r, slot_meaning_given(log_bytes@, pos as int, expected_log_guid@, crc)),
{
    let entry_length: usize = match claimed_length(log_bytes, pos) {
        Err(why) => {
            return Err(why);
        },
        Ok(n) => n,
    };
    assert(pos + entry_length <= log_bytes.len());
    let entry_bytes: &[u8] = slice_subrange(log_bytes, pos, pos + entry_length);
    let ghost e = entry_bytes@;
    if read_u32_le(entry_bytes, 4) != crc {
        return Err(EntryReject::Corrupt);
    }
    let log_guid: [u8; 16] = read_guid(entry_bytes, 32);
    if !same_guid(&log_guid, expected_log_guid) {
        return Err(EntryReject::ForeignChain);
    }
    let sequence_number: u64 = read_u64_le(entry_bytes, 16);
    let descriptor_count: u32 = read_u32_le(entry_bytes, 24);
    // Descriptors live immediately after the 64-byte header.
    if descriptor_count as u64 * 32 + 64 > entry_length as u64 {
        return Err(EntryReject::Malformed);
    }
    match parse_descriptors(entry_bytes, descriptor_count as usize, sequence_number) {
        None => Err(EntryReject::Malformed),
        Some(descriptors) => {
            let entry = LogEntry {
                header: LogEntryHeader {
                    entry_length: entry_length as u32,
                    tail: read_u32_le(entry_bytes, 12),
                    sequence_number,
                    descriptor_count,
                    log_guid,
                    flushed_file_offset: read_u64_le(entry_bytes, 48),
                    last_file_offset: read_u64_le(entry_bytes, 56),
                },
                descriptors,
                log_offset_in_region: pos as u64,
            };
            assert(entry@.descriptors =~= Seq::new(
                le32(e, 24) as nat,
                |i: int| descriptor_at(e, le32(e, 24), i),
            ));
            Ok(entry)
        },
    }
}

/// Parse descriptor `i` of the `count` descriptors of an entry; its data sector,
/// should it own one, lies at `sector_base`. `None` when it is not usable.
fn parse_descriptor(
    entry_bytes: &[u8],
    count: usize,
    i: usize,
    sector_base: usize,
    sequence_number: u64,
) -> (r: Option<Descriptor>)
    requires
        i < count,
        descriptor_start(count as int) <= entry_bytes.len(),
        sequence_number == le64(entry_bytes@, 16),
        sector_base <= entry_bytes.len(),
        sector_base == data_sector_start(entry_bytes@, count as int, i as int),
    ensures
        match r {
            Some(d) => {
                &&& descriptor_sound(entry_bytes@, count as int, i as int)
                &&& d@ == descriptor_at(entry_bytes@, count as int, i as int)
                &&& (d is Data) == is_data_descriptor(entry_bytes@, i as int)
            },
            None => !descriptor_sound(entry_bytes@, count as int, i as int),
        },
{
    let ghost e = entry_bytes@;
    let off: usize = LOG_ENTRY_HEADER_SIZE + i * LOG_DESCRIPTOR_SIZE;
    let desc_seq: u64 = read_u64_le(entry_bytes, off + 24);
    if desc_seq != sequence_number {
        return None;
    }
    let zero_signature: [u8; 4] = ZERO_DESC_SIGNATURE;
    let data_signature: [u8; 4] = DATA_DESC_SIGNATURE;
    let sector_signature: [u8; 4] = DATA_SECTOR_SIGNATURE;
    if matches_at(entry_bytes, off, zero_signature.as_slice()) {
        assert(ZERO_DESC_SIGNATURE@[0] != DATA_DESC_SIGNATURE@[0]);
        return Some(
            Descriptor::Zero {
                zero_length: read_u64_le(entry_bytes, off + 8),
                file_offset: read_u64_le(entry_bytes, off + 16),
                sequence_number: desc_seq,
            },
        );
    }
    if !matches_at(entry_bytes, off, data_signature.as_slice()) {
        return None;
    }
    if entry_bytes.len() - sector_base < LOG_SECTOR_SIZE {
        return None;
    }
    // Validate the data sector's signature and sequence halves.
    if !matches_at(entry_bytes, sector_base, sector_signature.as_slice()) {
        return None;
    }
    let seq_hi: u32 = read_u32_le(entry_bytes, sector_base + 4);
    let seq_lo: u32 = read_u32_le(entry_bytes, sector_base + (LOG_SECTOR_SIZE - 4));
    let assembled: u64 = seq_lo as u64 + 0x1_0000_0000 * (seq_hi as u64);
    if assembled != sequence_number {
        return None;
    }
    // Put back the bytes that the stamps displaced.
    let mut sector: Vec<u8> = slice_of(entry_bytes, sector_base, sector_base + LOG_SECTOR_SIZE);
    copy_into(&mut sector, 0, slice_subrange(entry_bytes, off + 8, off + 16));
    copy_into(&mut sector, LOG_SECTOR_SIZE - 4, slice_subrange(entry_bytes, off + 4, off + 8));
    assert(sector@ == restored_sector(e, i as int, sector_base as int));
    Some(
        Descriptor::Data {
            trailing_bytes: read_u32_le(entry_bytes, off + 4),
            leading_bytes: read_u64_le(entry_bytes, off + 8),
            file_offset: read_u64_le(entry_bytes, off + 16),
            sequence_number: desc_seq,
            sector,
        },
    )
}

/// Parse the `count` descriptors of an entry, with their data sectors. `None`
/// when one of them is not usable.
fn parse_descriptors(entry_bytes: &[u8], count: usize, sequence_number: u64) -> (r: Option<
    Vec<Descriptor>,
>)
    requires
        entry_bytes@.len() % 4096 == 0,
        descriptor_start(count as int) <= entry_bytes.len(),
        sequence_number == le64(entry_bytes@, 16),
    ensures
        match r {
            Some(ds) => {
                &&& ds@.len() == count
                &&& forall|i: int|
                    0 <= i < count ==> #[trigger] ds@[i]@ == descriptor_at(
                        entry_bytes@,
                        count as int,
                        i,
                    )
                &&& forall|i: int|
                    0 <= i < count ==> #[trigger] descriptor_sound(entry_bytes@, count as int, i)
            },
            None => exists|i: int|
                0 <= i < count && !#[trigger] descriptor_sound(entry_bytes@, count as int, i),
        },
{
    let ghost e = entry_bytes@;
    let mut descriptors: Vec<Descriptor> = Vec::with_capacity(count);
    let mut i: usize = 0;
    // The first data sector starts at the next sector boundary after the header
    // and the descriptors; each "desc" descriptor consumes one.
    assert(sector_ceiling(descriptor_start(count as int)) <= entry_bytes.len());
    let mut sector_base: usize = round_up_sector(
        LOG_ENTRY_HEADER_SIZE + count * LOG_DESCRIPTOR_SIZE,
    );
    while i < count
        invariant
            i <= count,
            e == entry_bytes@,
            descriptor_start(count as int) <= entry_bytes.len(),
            sequence_number == le64(e, 16),
            descriptors@.len() == i,
            forall|k: int|
                0 <= k < i ==> #[trigger] descriptors@[k]@ == descriptor_at(e, count as int, k),
            forall|k: int| 0 <= k < i ==> #[trigger] descriptor_sound(e, count as int, k),
            sector_base <= entry_bytes.len(),
            sector_base == data_sector_start(e, count as int, i as int),
        decreases count - i,
    {
        match parse_descriptor(entry_bytes, count, i, sector_base, sequence_number) {
            None => {
                return None;
            },
            Some(d) => {
                let owns_sector: bool = match &d {
                    Descriptor::Data { .. } => true,
                    Descriptor::Zero { .. } => false,
                };
                if owns_sector {
                    sector_base += LOG_SECTOR_SIZE;
                }
                descriptors.push(d);
            },
        }
        i += 1;
    }
    Some(descriptors)
}

/// A boundary is the first multiple of 4 KiB that is not before the number.
pub proof fn a_boundary_is_the_first_multiple(n: usize, r: usize)
    requires
        call_ensures(round_up_sector, (n,), r),
    ensures
        n + 4095 <= usize::MAX ==> call_requires(round_up_sector, (n,)),
        r % 4096 == 0,
        n <= r < n + 4096,
{
}

/// Whether the slot at `pos` of a log claims an entry of `n` bytes that can be there: it starts
/// with "loge", and `n` is a whole number of sectors that ends inside the log.
pub open spec fn claims_entry(log: Seq<u8>, pos: int, n: int) -> bool {
    &&& pos + 4096 <= log.len()
    &&& log[pos] == 0x6C && log[pos + 1] == 0x6F && log[pos + 2] == 0x67 && log[pos + 3] == 0x65
    &&& log.subrange(pos + 8, pos + 12) == le32_bytes(n)
    &&& 4096 <= n < 0x1_0000_0000
    &&& n % 4096 == 0
    &&& pos + n <= log.len()
}

/// A slot that claims an entry has its length.
proof fn lemma_claims_entry(log: Seq<u8>, pos: int, n: int)
    requires
        0 <= pos,
    ensures
        claims_entry(log, pos, n) <==> slot_length(log, pos) == Ok::<int, EntryReject>(n),
{
    if pos + 4096 <= log.len() {
        let sig = log.subrange(pos, pos + 4);
        assert(LOG_ENTRY_SIGNATURE@.len() == 4);
        assert(sig == LOG_ENTRY_SIGNATURE@ <==> log[pos] == 0x6C && log[pos + 1] == 0x6F && log[pos
            + 2] == 0x67 && log[pos + 3] == 0x65) by {
            assert(sig[0] == log[pos] && sig[1] == log[pos + 1] && sig[2] == log[pos + 2] && sig[3]
                == log[pos + 3]);
            if log[pos] == 0x6C && log[pos + 1] == 0x6F && log[pos + 2] == 0x67 && log[pos + 3]
                == 0x65 {
                assert(sig =~= LOG_ENTRY_SIGNATURE@);
            }
        }
        lemma_le32_digits(log, pos + 8);
        if claims_entry(log, pos, n) {
            lemma_le32_held(log, pos + 8, n);
        }
    }
}

/// A slot is empty exactly when it does not start with "loge", or is not all inside the log.
pub proof fn an_empty_slot_has_no_signature(
    log_bytes: &[u8],
    pos: usize,
    guid: &[u8; 16],
    r: ParseOutcome,
)
    requires
        call_ensures(parse_log_entry, (log_bytes, pos, guid), r),
    ensures
        call_requires(parse_log_entry, (log_bytes, pos, guid)),
        r == Err::<LogEntry, EntryReject>(EntryReject::Empty) <==> pos + 4096 > log_bytes@.len()
            || !(log_bytes@[pos as int] == 0x6C && log_bytes@[pos + 1] == 0x6F && log_bytes@[pos
            + 2] == 0x67 && log_bytes@[pos + 3] == 0x65),
{
    let log = log_bytes@;
    if pos + 4096 <= log.len() {
        let sig = log.subrange(pos as int, pos + 4);
        assert(LOG_ENTRY_SIGNATURE@.len() == 4);
        assert(sig[0] == log[pos as int] && sig[1] == log[pos + 1] && sig[2] == log[pos + 2]
            && sig[3] == log[pos + 3]);
        if log[pos as int] == 0x6C && log[pos + 1] == 0x6F && log[pos + 2] == 0x67 && log[pos + 3]
            == 0x65 {
            assert(sig =~= LOG_ENTRY_SIGNATURE@);
        }
    }
}

/// A slot that starts with "loge" but claims no entry that can be there is corrupt.
pub proof fn an_impossible_length_is_corrupt(
    log_bytes: &[u8],
    pos: usize,
    guid: &[u8; 16],
    r: ParseOutcome,
)
    requires
        call_ensures(parse_log_entry, (log_bytes, pos, guid), r),
        forall|n: int| !claims_entry(log_bytes@, pos as int, n),
    ensures
        r == Err::<LogEntry, EntryReject>(EntryReject::Empty) || r == Err::<LogEntry, EntryReject>(
            EntryReject::Corrupt,
        ),
{
    match slot_length(log_bytes@, pos as int) {
        Ok(n) => {
            lemma_claims_entry(log_bytes@, pos as int, n);
        },
        Err(_) => {},
    }
}

/// Whether `starts` says where the data sectors of the `count` descriptors of an entry lie: one
/// behind the other, from the first 4 KiB boundary behind the descriptors on.
pub open spec fn sectors_start(e: Seq<u8>, count: int, starts: Seq<int>) -> bool {
    &&& starts.len() == count + 1
    &&& starts[0] % 4096 == 0
    &&& 64 + 32 * count <= starts[0] < 64 + 32 * count + 4096
    &&& forall|i: int, j: int|
        #![trigger starts[i], starts[j]]
        0 <= i < count && j == i + 1 ==> starts[j] == starts[i] + (if e.subrange(
            64 + 32 * i,
            64 + 32 * i + 4,
        ) == DATA_DESC_SIGNATURE@ {
            4096
        } else {
            0int
        })
}

/// Where the data sector of descriptor `i` starts.
proof fn lemma_sectors_start(e: Seq<u8>, count: int, starts: Seq<int>, i: int)
    requires
        0 <= i <= count,
        sectors_start(e, count, starts),
    ensures
        data_sector_start(e, count, i) == starts[i],
    decreases i,
{
    if i > 0 {
        lemma_sectors_start(e, count, starts, i - 1);
        assert(starts[i] == starts[i - 1] + (if e.subrange(64 + 32 * (i - 1), 64 + 32 * (i - 1) + 4)
            == DATA_DESC_SIGNATURE@ {
            4096
        } else {
            0int
        }));
    }
}

/// Whether descriptor `i` of an entry can be replayed: it has the entry's sequence number, and is
/// a "zero" descriptor, or a "desc" descriptor whose data sector, at `at`, is inside the entry,
/// starts with "data" and has the two halves of the sequence number.
pub open spec fn can_be_replayed(e: Seq<u8>, i: int, at: int) -> bool {
    let d = 64 + 32 * i;
    &&& e.subrange(d + 24, d + 32) == e.subrange(16, 24)
    &&& e.subrange(d, d + 4) == ZERO_DESC_SIGNATURE@ || {
        &&& e.subrange(d, d + 4) == DATA_DESC_SIGNATURE@
        &&& at + 4096 <= e.len()
        &&& e.subrange(at, at + 4) == DATA_SECTOR_SIGNATURE@
        &&& e.subrange(at + 4, at + 8) == e.subrange(20, 24)
        &&& e.subrange(at + 4092, at + 4096) == e.subrange(16, 20)
    }
}

/// Four bytes that hold one number are the same four bytes.
proof fn lemma_same_four_bytes(s: Seq<u8>, i: int, j: int)
    requires
        0 <= i,
        i + 4 <= s.len(),
        0 <= j,
        j + 4 <= s.len(),
    ensures
        s.subrange(i, i + 4) == s.subrange(j, j + 4) <==> le32(s, i) == le32(s, j),
{
    lemma_le32_digits(s, i);
    lemma_le32_digits(s, j);
    if s.subrange(i, i + 4) == s.subrange(j, j + 4) {
        lemma_le32_of_equal_bytes(s, i, s, j);
    }
}

/// Eight bytes that hold one number are the same eight bytes.
proof fn lemma_same_eight_bytes(s: Seq<u8>, i: int, j: int)
    requires
        0 <= i,
        i + 8 <= s.len(),
        0 <= j,
        j + 8 <= s.len(),
    ensures
        s.subrange(i, i + 8) == s.subrange(j, j + 8) <==> le64(s, i) == le64(s, j),
{
    lemma_le64_digits(s, i);
    lemma_le64_digits(s, j);
    if s.subrange(i, i + 8) == s.subrange(j, j + 8) {
        lemma_le64_of_equal_bytes(s, i, s, j);
    }
}

/// A descriptor that can be replayed is sound, and no other is.
proof fn lemma_can_be_replayed(e: Seq<u8>, count: int, starts: Seq<int>, i: int)
    requires
        0 <= i < count,
        e.len() >= 4096,
        64 + 32 * count <= e.len(),
        sectors_start(e, count, starts),
    ensures
        descriptor_sound(e, count, i) <==> can_be_replayed(e, i, starts[i]),
{
    let d = 64 + 32 * i;
    let at = starts[i];
    lemma_sectors_start(e, count, starts, i);
    lemma_same_eight_bytes(e, d + 24, 16);
    assert(data_sectors_before(e, i) >= 0) by {
        lemma_sectors_counted(e, i);
    }
    if at + 4096 <= e.len() {
        lemma_same_four_bytes(e, at + 4, 20);
        lemma_same_four_bytes(e, at + 4092, 16);
        lemma_le32_digits(e, at + 4);
        lemma_le32_digits(e, at + 4092);
        lemma_le32_digits(e, 16);
        lemma_le32_digits(e, 20);
        assert(le64(e, 16) == le32(e, 16) + 0x1_0000_0000 * le32(e, 20));
    }
}

/// A number of sectors is not negative.
proof fn lemma_sectors_counted(e: Seq<u8>, i: int)
    ensures
        data_sectors_before(e, i) >= 0,
    decreases i,
{
    if i > 0 {
        lemma_sectors_counted(e, i - 1);
    }
}

/// What is made of the entry that a slot claims. `entry` is its bytes, `crc` their checksum and
/// `count` its number of descriptors.
///
/// It is corrupt under another checksum; it is foreign under another GUID; it is malformed when
/// its descriptors do not fit or one of them cannot be replayed. There is no other reason to
/// refuse it.
pub proof fn a_claimed_entry_is_taken_unless_it_is_damaged(
    log_bytes: &[u8],
    pos: usize,
    guid: &[u8; 16],
    r: ParseOutcome,
    entry: &[u8],
    crc: u32,
    count: int,
    starts: Seq<int>,
)
    requires
        call_ensures(parse_log_entry, (log_bytes, pos, guid), r),
        claims_entry(log_bytes@, pos as int, entry@.len() as int),
        entry@ == log_bytes@.subrange(pos as int, pos + entry@.len()),
        call_ensures(checksum, (entry,), crc),
        0 <= count < 0x1_0000_0000,
        entry@.subrange(24, 28) == le32_bytes(count),
        sectors_start(entry@, count, starts),
    ensures
        r == Err::<LogEntry, EntryReject>(EntryReject::Corrupt) <==> entry@.subrange(4, 8)
            != le32_bytes(crc as int),
        r == Err::<LogEntry, EntryReject>(EntryReject::ForeignChain) <==> entry@.subrange(4, 8)
            == le32_bytes(crc as int) && entry@.subrange(32, 48) != guid@,
        r is Ok <==> {
            &&& entry@.subrange(4, 8) == le32_bytes(crc as int)
            &&& entry@.subrange(32, 48) == guid@
            &&& 64 + 32 * count <= entry@.len()
            &&& forall|i: int| 0 <= i < count ==> #[trigger] can_be_replayed(entry@, i, starts[i])
        },
{
    let e = entry@;
    lemma_claims_entry(log_bytes@, pos as int, e.len() as int);
    lemma_le32_digits(e, 4);
    lemma_le32_held(e, 24, count);
    if e.subrange(4, 8) == le32_bytes(crc as int) {
        lemma_le32_held(e, 4, crc as int);
    }
    if 64 + 32 * count <= e.len() {
        assert forall|i: int| 0 <= i < count implies #[trigger] descriptor_sound(e, count, i)
            == can_be_replayed(e, i, starts[i]) by {
            lemma_can_be_replayed(e, count, starts, i);
        }
        if exists|i: int| 0 <= i < count && !#[trigger] descriptor_sound(e, count, i) {
            let i = choose|i: int| 0 <= i < count && !#[trigger] descriptor_sound(e, count, i);
            assert(!can_be_replayed(e, i, starts[i]));
        } else {
            assert forall|i: int| 0 <= i < count implies #[trigger] can_be_replayed(
                e,
                i,
                starts[i],
            ) by {
                assert(descriptor_sound(e, count, i));
            }
        }
    }
}

/// The fields of an entry that is taken are the numbers at their places in its bytes.
pub proof fn the_fields_of_an_entry_are_its_bytes(
    log_bytes: &[u8],
    pos: usize,
    guid: &[u8; 16],
    x: LogEntry,
)
    requires
        call_ensures(parse_log_entry, (log_bytes, pos, guid), Ok::<LogEntry, EntryReject>(x)),
    ensures
        claims_entry(log_bytes@, pos as int, x.header.entry_length as int),
        x.log_offset_in_region == pos,
        x.header.log_guid@ == guid@,
        x.header.descriptor_count == x.descriptors@.len(),
        ({
            let e = log_bytes@.subrange(pos as int, pos + x.header.entry_length);
            &&& e.subrange(12, 16) == le32_bytes(x.header.tail as int)
            &&& e.subrange(16, 24) == le64_bytes(x.header.sequence_number as int)
            &&& e.subrange(24, 28) == le32_bytes(x.header.descriptor_count as int)
            &&& e.subrange(48, 56) == le64_bytes(x.header.flushed_file_offset as int)
            &&& e.subrange(56, 64) == le64_bytes(x.header.last_file_offset as int)
        }),
{
    let n = slot_length(log_bytes@, pos as int)->Ok_0;
    let e = log_bytes@.subrange(pos as int, pos + n);
    lemma_claims_entry(log_bytes@, pos as int, n);
    lemma_le32_digits(e, 12);
    lemma_le64_digits(e, 16);
    lemma_le32_digits(e, 24);
    lemma_le64_digits(e, 48);
    lemma_le64_digits(e, 56);
    assert(x@.descriptors.len() == x.descriptors@.len());
}

/// What descriptor `i` of an entry says: a "zero" descriptor how many bytes to clear and where, a
/// "desc" descriptor which 4 KiB to write and where. The sector is the one at `at`, but for the
/// bytes under its stamps, which the descriptor keeps.
pub open spec fn says(d: Descriptor, e: Seq<u8>, i: int, at: int) -> bool {
    let b = 64 + 32 * i;
    match d {
        Descriptor::Zero { zero_length, file_offset, sequence_number } => {
            &&& e.subrange(b, b + 4) == ZERO_DESC_SIGNATURE@
            &&& e.subrange(b + 8, b + 16) == le64_bytes(zero_length as int)
            &&& e.subrange(b + 16, b + 24) == le64_bytes(file_offset as int)
            &&& e.subrange(b + 24, b + 32) == le64_bytes(sequence_number as int)
        },
        Descriptor::Data { trailing_bytes, leading_bytes, file_offset, sequence_number, sector } => {
            &&& e.subrange(b, b + 4) == DATA_DESC_SIGNATURE@
            &&& e.subrange(b + 4, b + 8) == le32_bytes(trailing_bytes as int)
            &&& e.subrange(b + 8, b + 16) == le64_bytes(leading_bytes as int)
            &&& e.subrange(b + 16, b + 24) == le64_bytes(file_offset as int)
            &&& e.subrange(b + 24, b + 32) == le64_bytes(sequence_number as int)
            &&& sector@ == e.subrange(b + 8, b + 16) + e.subrange(at + 8, at + 4092) + e.subrange(
                b + 4,
                b + 8,
            )
        },
    }
}

/// The descriptors of an entry that is taken are those that its bytes hold, in order.
pub proof fn the_descriptors_of_an_entry_are_its_bytes(
    log_bytes: &[u8],
    pos: usize,
    guid: &[u8; 16],
    x: LogEntry,
    starts: Seq<int>,
    i: int,
)
    requires
        call_ensures(parse_log_entry, (log_bytes, pos, guid), Ok::<LogEntry, EntryReject>(x)),
        sectors_start(
            log_bytes@.subrange(pos as int, pos + x.header.entry_length),
            x.descriptors@.len() as int,
            starts,
        ),
        0 <= i < x.descriptors@.len(),
    ensures
        says(
            x.descriptors@[i],
            log_bytes@.subrange(pos as int, pos + x.header.entry_length),
            i,
            starts[i],
        ),
{
    let n = slot_length(log_bytes@, pos as int)->Ok_0;
    let e = log_bytes@.subrange(pos as int, pos + n);
    let count = x.descriptors@.len() as int;
    let d = x.descriptors@[i];
    assert(x@.descriptors.len() == count);
    assert(x@.descriptors[i] == d@);
    assert(descriptor_sound(e, count, i));
    lemma_says(e, count, starts, i, d);
}

/// A sound descriptor says what its bytes hold.
proof fn lemma_says(e: Seq<u8>, count: int, starts: Seq<int>, i: int, d: Descriptor)
    requires
        0 <= i < count,
        descriptor_start(count) <= e.len(),
        sectors_start(e, count, starts),
        descriptor_sound(e, count, i),
        d@ == descriptor_at(e, count, i),
    ensures
        says(d, e, i, starts[i]),
{
    let b = 64 + 32 * i;
    let at = starts[i];
    lemma_sectors_start(e, count, starts, i);
    lemma_le32_digits(e, b + 4);
    lemma_le64_digits(e, b + 8);
    lemma_le64_digits(e, b + 16);
    lemma_le64_digits(e, b + 24);
    match d {
        Descriptor::Zero { .. } => {},
        Descriptor::Data { sector, .. } => {
            lemma_sectors_counted(e, i);
            assert(sector@ == restored_sector(e, i, at));
            lemma_restored(e, b, at);
        },
    }
}

/// A restored sector is the data sector with the bytes under its stamps put back.
proof fn lemma_restored(e: Seq<u8>, b: int, at: int)
    requires
        0 <= b,
        b + 16 <= e.len(),
        0 <= at,
        at + 4096 <= e.len(),
    ensures
        splice(
            splice(e.subrange(at, at + 4096), 0, e.subrange(b + 8, b + 16)),
            4092,
            e.subrange(b + 4, b + 8),
        ) == e.subrange(b + 8, b + 16) + e.subrange(at + 8, at + 4092) + e.subrange(b + 4, b + 8),
{
    assert(splice(
        splice(e.subrange(at, at + 4096), 0, e.subrange(b + 8, b + 16)),
        4092,
        e.subrange(b + 4, b + 8),
    ) =~= e.subrange(b + 8, b + 16) + e.subrange(at + 8, at + 4092) + e.subrange(b + 4, b + 8));
}

/// An entry of which one byte was damaged is not taken: a byte of the length apart, there is no
/// byte of it that could change unnoticed.
pub proof fn a_damaged_entry_is_refused(
    log_bytes: &[u8],
    damaged: &[u8],
    pos: usize,
    guid: &[u8; 16],
    x: LogEntry,
    r: ParseOutcome,
    i: int,
)
    requires
        call_ensures(parse_log_entry, (log_bytes, pos, guid), Ok::<LogEntry, EntryReject>(x)),
        call_ensures(parse_log_entry, (damaged, pos, guid), r),
        log_bytes@.len() == damaged@.len(),
        0 <= i < x.header.entry_length,
        !(8 <= i < 12),
        log_bytes@[pos + i] != damaged@[pos + i],
        forall|k: int| 0 <= k < damaged@.len() && k != pos + i ==> log_bytes@[k] == damaged@[k],
    ensures
        r is Err,
{
    let n = slot_length(log_bytes@, pos as int)->Ok_0;
    let s = log_bytes@.subrange(pos as int, pos + n);
    let t = damaged@.subrange(pos as int, pos + n);
    assert(log_bytes@.subrange(pos + 8, pos + 12) =~= damaged@.subrange(pos + 8, pos + 12));
    lemma_le32_of_equal_bytes(log_bytes@, pos + 8, damaged@, pos + 8);
    if i < 4 {
        let sig = damaged@.subrange(pos as int, pos + 4);
        assert(log_bytes@.subrange(pos as int, pos + 4)[i] != sig[i]);
    } else {
        assert(s[i] != t[i]);
        assert forall|k: int| 0 <= k < s.len() && k != i implies s[k] == t[k] by {
            assert(log_bytes@[pos + k] == damaged@[pos + k]);
        }
        lemma_damage_shows(s, t, i);
    }
}

/// Bytes that hold their own checksum do not, once one of them was damaged.
proof fn lemma_damage_shows(s: Seq<u8>, t: Seq<u8>, i: int)
    requires
        s.len() == t.len(),
        s.len() >= 8,
        4 <= i < s.len(),
        s[i] != t[i],
        forall|k: int| 0 <= k < s.len() && k != i ==> s[k] == t[k],
        le32(s, 4) == checksum_of(s),
    ensures
        le32(t, 4) != checksum_of(t),
{
    if i < 8 {
        lemma_checksum_ignores_its_field(s, t);
        lemma_le32_digits(s, 4);
        lemma_le32_digits(t, 4);
        assert(s.subrange(4, 8)[i - 4] != t.subrange(4, 8)[i - 4]);
    } else {
        lemma_one_byte_changes_the_checksum(s, t, i);
        assert(s.subrange(4, 8) =~= t.subrange(4, 8));
        lemma_le32_of_equal_bytes(s, 4, t, 4);
    }
}

/// A log entry may be parsed with its checksum at hand: with the right one it parses as it does
/// without, and with another than it holds it is corrupt.
pub proof fn the_checksum_of_an_entry_may_be_given(
    log_bytes: &[u8],
    pos: usize,
    guid: &[u8; 16],
    entry: &[u8],
    right: u32,
    crc: u32,
    r: ParseOutcome,
    s: ParseOutcome,
)
    requires
        call_ensures(parse_log_entry, (log_bytes, pos, guid), r),
        call_ensures(parse_log_entry_given, (log_bytes, pos, guid, crc), s),
        claims_entry(log_bytes@, pos as int, entry@.len() as int),
        entry@ == log_bytes@.subrange(pos as int, pos + entry@.len()),
        call_ensures(checksum, (entry,), right),
    ensures
        call_requires(parse_log_entry_given, (log_bytes, pos, guid, crc)),
        crc == right ==> match r {
            Ok(x) => s matches Ok(same) && same@ == x@,
            Err(why) => s == Err::<LogEntry, EntryReject>(why),
        },
        s == Err::<LogEntry, EntryReject>(EntryReject::Corrupt) <==> entry@.subrange(4, 8)
            != le32_bytes(crc as int),
{
    let e = entry@;
    lemma_claims_entry(log_bytes@, pos as int, e.len() as int);
    lemma_le32_digits(e, 4);
    if e.subrange(4, 8) == le32_bytes(crc as int) {
        lemma_le32_held(e, 4, crc as int);
    }
}

/// The marks in a log spell out words, in ASCII: "loge" in front of an entry, "zero" and "desc" in
/// front of its descriptors, and "data" in front of a data sector.
pub proof fn the_marks_in_a_log_are_words()
    ensures
        LOG_ENTRY_SIGNATURE@ == seq!['l' as u8, 'o' as u8, 'g' as u8, 'e' as u8],
        ZERO_DESC_SIGNATURE@ == seq!['z' as u8, 'e' as u8, 'r' as u8, 'o' as u8],
        DATA_DESC_SIGNATURE@ == seq!['d' as u8, 'e' as u8, 's' as u8, 'c' as u8],
        DATA_SECTOR_SIGNATURE@ == seq!['d' as u8, 'a' as u8, 't' as u8, 'a' as u8],
{
}

} // verus!

//! An opened image: what was learned of it at open time, and the read path.
//!
//! The file identifier, header, region table, metadata and BAT are walked once, when an
//! image is opened (see [`crate::open`]). After that a read or a write of the virtual
//! disk is resolved by indexing the cached BAT.
use crate::bat::{bat_entry, bat_index, bat_index_is_strictly_increasing, chunk_ratio};
use crate::bat::{data_bat_index, present_entry, BatEntry, PayloadState};
use crate::bytes::{all_zero, is_zero_guid, zeros};
use crate::device::{op_views, DeviceOp, OpView};
use crate::endian::{le64, le64_bytes, lemma_le64_bytes, push_u64_le};
use crate::error::{Error, Result};
use crate::header::{Header, HeaderSlot, HeaderView};
use crate::layout::{lemma_geometry, Geometry};
use vstd::prelude::*;

pub use crate::header::encode_header;

verus! {

/// An opened VHDX image.
#[derive(Debug)]
pub struct VhdxReader {
    /// Current device size, kept in sync with writes: allocations grow the file at the tail, and
    /// so does a write to a block that the BAT names past its end.
    dev_size: u64,
    /// The header that the image was opened with: of the two slots, the one with the higher
    /// sequence_number. An allocation replaces it. Replaying the log does not: the cleared header
    /// that is then on the device has the next sequence_number, and is read at the next open.
    header: Header,
    /// The slot of that header. The next header goes into the *other* slot: the two take turns.
    active_slot: HeaderSlot,
    geometry: Geometry,
    chunk_ratio: u64,
    /// Where the BAT region lives on disk.
    bat_region_off: u64,
    /// The BAT, cached at open and updated by allocations.
    bat: Vec<BatEntry>,
    writable: bool,
}

/// What a [`VhdxReader`] knows of its image.
#[verifier::ext_equal]
pub struct ReaderView {
    pub dev_size: int,
    pub header: HeaderView,
    pub active_slot: HeaderSlot,
    pub geometry: Geometry,
    pub bat_region_off: int,
    pub bat: Seq<BatEntry>,
    pub writable: bool,
}

impl ReaderView {
    /// What holds of every opened image: the geometry is a permitted one, and the BAT
    /// lies inside the file and reaches the last block of the disk.
    pub open spec fn wf(self) -> bool {
        &&& 0 <= self.dev_size <= u64::MAX
        &&& self.header.fits()
        &&& self.geometry.wf()
        &&& 0 <= self.bat_region_off
        &&& self.bat_region_off + 8 * self.bat.len() <= self.dev_size
        &&& self.geometry.required_entries() <= self.bat.len()
    }
}

impl View for VhdxReader {
    type V = ReaderView;

    closed spec fn view(&self) -> ReaderView {
        ReaderView {
            dev_size: self.dev_size as int,
            header: self.header@,
            active_slot: self.active_slot,
            geometry: self.geometry,
            bat_region_off: self.bat_region_off as int,
            bat: self.bat@,
            writable: self.writable,
        }
    }
}

impl VhdxReader {
    /// Whether the cached chunk ratio is the geometry's.
    pub closed spec fn cached(self) -> bool {
        self.chunk_ratio == self.geometry.chunk_ratio()
    }

    /// Whether the reader is that of an opened image.
    pub open spec fn wf(self) -> bool {
        self@.wf() && self.cached()
    }
}

/// The message for a BAT entry in a reserved payload state.
///
/// States 0, 1, 2, 3, 6 and 7 are all defined, so the low three bits leave only 4 and 5.
pub open spec fn reserved_state_text(v: u8) -> &'static str {
    if v == 4 {
        "BAT entry reserved state 4"
    } else if v == 5 {
        "BAT entry reserved state 5"
    } else {
        "BAT entry in a reserved payload state"
    }
}

/// The message for a BAT entry in a reserved payload state.
pub fn reserved_state_message(v: u8) -> (s: &'static str)
    ensures
        s == reserved_state_text(v),
{
    match v {
        4 => "BAT entry reserved state 4",
        5 => "BAT entry reserved state 5",
        _ => "BAT entry in a reserved payload state",
    }
}

/// Why an access of `len` bytes at `offset` is refused before any block is looked at;
/// `None` when it is not. An empty access is never refused.
pub open spec fn access_fault(size: int, offset: int, len: int) -> Option<Error> {
    if len == 0 {
        None
    } else if offset + len > u64::MAX {
        Some(Error::Corrupt("offset+len overflow"))
    } else if offset + len > size {
        Some(Error::OutOfBounds { offset: offset as u64, len: len as u64, size: size as u64 })
    } else {
        None
    }
}

/// How many bytes of an access that goes on at `cursor` and ends at `end` lie in the block
/// of `cursor`.
pub open spec fn piece_length(block_size: int, cursor: int, end: int) -> int {
    let left = block_size - cursor % block_size;
    if left < end - cursor {
        left
    } else {
        end - cursor
    }
}

/// Where the bytes of a piece come from.
#[derive(Debug, Clone, Copy, PartialEq, Eq, Structural)]
pub enum Source {
    /// The bytes are zero, whatever the device holds.
    Zeros,
    /// The bytes lie on the device from this offset on.
    Host(u64),
}

/// One piece of a read: which part of the buffer, and where its bytes come from.
#[derive(Debug, Clone, Copy, PartialEq, Eq, Structural)]
pub struct ReadPiece {
    /// Where the piece starts in the buffer.
    pub at: usize,
    pub len: usize,
    pub source: Source,
}

/// A read of the virtual disk, resolved to reads of the device. The pieces are to be filled
/// in order; the outcome is what the read then comes to.
#[derive(Debug)]
pub struct ReadPlan {
    pub pieces: Vec<ReadPiece>,
    pub outcome: Result<()>,
}

impl ReaderView {
    /// The BAT entry of the block that holds the byte `at` of the virtual disk.
    pub open spec fn entry_at(self, at: int) -> BatEntry {
        self.bat[bat_index(at / self.geometry.block_size as int, self.geometry.chunk_ratio())]
    }

    /// Where the bytes of the virtual disk from `cursor` on, `n` of them and all in one
    /// block, are read from; or why they cannot be read.
    pub open spec fn source_of(self, cursor: int, n: int) -> core::result::Result<Source, Error> {
        let entry = self.entry_at(cursor);
        let host = entry.file_offset + cursor % self.geometry.block_size as int;
        match entry.state {
            PayloadState::FullyPresent => if host + n > self.dev_size {
                Err(Error::Corrupt("BAT entry points past the file"))
            } else {
                Ok(Source::Host(host as u64))
            },
            PayloadState::NotPresent => Ok(Source::Zeros),
            PayloadState::Undefined => Ok(Source::Zeros),
            PayloadState::Zero => Ok(Source::Zeros),
            PayloadState::Unmapped => Ok(Source::Zeros),
            PayloadState::PartiallyPresent => Err(
                Error::Unsupported("PartiallyPresent block (sector-bitmap walking not implemented)"),
            ),
            PayloadState::Reserved(v) => Err(Error::Unsupported(reserved_state_text(v))),
        }
    }

    /// The pieces that a read of `[offset, end)` is made of from `cursor` on, up to the
    /// first block that cannot be read.
    pub open spec fn pieces_from(self, offset: int, cursor: int, end: int) -> Seq<ReadPiece>
        decreases end - cursor,
    {
        let n = piece_length(self.geometry.block_size as int, cursor, end);
        if cursor >= end || n <= 0 {
            Seq::empty()
        } else {
            match self.source_of(cursor, n) {
                Err(_) => Seq::empty(),
                Ok(source) => seq![
                    ReadPiece { at: (cursor - offset) as usize, len: n as usize, source },
                ] + self.pieces_from(offset, cursor + n, end),
            }
        }
    }

    /// Why a read of the bytes from `cursor` to `end` fails: what is wrong with the first
    /// block that cannot be read. `None` when every block can.
    pub open spec fn refusal_from(self, cursor: int, end: int) -> Option<Error>
        decreases end - cursor,
    {
        let n = piece_length(self.geometry.block_size as int, cursor, end);
        if cursor >= end || n <= 0 {
            None
        } else {
            match self.source_of(cursor, n) {
                Err(why) => Some(why),
                Ok(_) => self.refusal_from(cursor + n, end),
            }
        }
    }
}

/// Whether the outcome of an operation is failure for the reason `why`, or success when
/// there is none.
pub open spec fn outcome_is(r: Result<()>, why: Option<Error>) -> bool {
    match r {
        Ok(_) => why is None,
        Err(e) => why == Some(e),
    }
}

impl VhdxReader {
    /// The reader of an image whose structures were read and checked.
    pub(crate) fn assemble(
        dev_size: u64,
        header: Header,
        active_slot: HeaderSlot,
        geometry: Geometry,
        bat_region_off: u64,
        bat: Vec<BatEntry>,
        writable: bool,
    ) -> (r: VhdxReader)
        requires
            geometry.wf(),
            bat_region_off + 8 * bat@.len() <= dev_size,
            geometry.required_entries() <= bat@.len(),
        ensures
            r@ == (ReaderView {
                dev_size: dev_size as int,
                header: header@,
                active_slot,
                geometry,
                bat_region_off: bat_region_off as int,
                bat: bat@,
                writable,
            }),
            r.wf(),
    {
        let ratio: u64 = chunk_ratio(geometry.block_size, geometry.sector_size);
        VhdxReader {
            dev_size,
            header,
            active_slot,
            geometry,
            chunk_ratio: ratio,
            bat_region_off,
            bat,
            writable,
        }
    }

    /// Size of the virtual disk in bytes.
    pub fn virtual_size(&self) -> (r: u64)
        ensures
            r == self@.geometry.virtual_size,
    {
        self.geometry.virtual_size
    }

    /// Payload block size in bytes.
    pub fn block_size(&self) -> (r: u32)
        ensures
            r == self@.geometry.block_size,
    {
        self.geometry.block_size
    }

    /// Logical sector size in bytes.
    pub fn sector_size(&self) -> (r: u32)
        ensures
            r == self@.geometry.sector_size,
    {
        self.geometry.sector_size
    }

    /// Whether the image has a parent. One that is open never has: a differencing image is
    /// refused when it is opened.
    pub fn has_parent(&self) -> (r: bool)
        ensures
            !r,
    {
        false
    }

    /// Whether the image was opened for writing.
    pub fn is_writable(&self) -> (r: bool)
        ensures
            r == self@.writable,
    {
        self.writable
    }

    /// Plan a flush: a reader that takes no writes has nothing to flush.
    pub fn flush(&self) -> (ops: Vec<DeviceOp>)
        ensures
            op_views(ops@) == if self@.writable {
                seq![OpView::Flush]
            } else {
                Seq::<OpView>::empty()
            },
    {
        let mut ops: Vec<DeviceOp> = Vec::new();
        if self.writable {
            ops.push(DeviceOp::Flush);
        }
        assert(op_views(ops@) =~= if self@.writable {
            seq![OpView::Flush]
        } else {
            Seq::<OpView>::empty()
        });
        ops
    }

    /// Check the bounds of an access of `len` bytes at `offset`.
    pub(crate) fn check_access(&self, offset: u64, len: usize) -> (r: Result<()>)
        ensures
            outcome_is(
                r,
                access_fault(self@.geometry.virtual_size as int, offset as int, len as int),
            ),
    {
        if len == 0 {
            return Ok(());
        }
        match offset.checked_add(len as u64) {
            None => Err(Error::Corrupt("offset+len overflow")),
            Some(end) => if end > self.geometry.virtual_size {
                Err(
                    Error::OutOfBounds {
                        offset,
                        len: len as u64,
                        size: self.geometry.virtual_size,
                    },
                )
            } else {
                Ok(())
            },
        }
    }

    /// The BAT index of the block that holds the byte `cursor` of the virtual disk.
    pub(crate) fn index_at(&self, cursor: u64) -> (i: usize)
        requires
            self.wf(),
            cursor < self@.geometry.virtual_size,
        ensures
            i == bat_index(
                cursor as int / self@.geometry.block_size as int,
                self@.geometry.chunk_ratio(),
            ),
            i < self@.bat.len(),
    {
        proof {
            lemma_index_in_bat(self@, cursor as int);
        }
        let block: u64 = cursor / self.geometry.block_size as u64;
        let index: u64 = data_bat_index(block, self.chunk_ratio);
        assert(index < self.bat.len());
        index as usize
    }

    /// How many bytes of an access that goes on at `cursor` and ends at `end` lie in the
    /// block of `cursor`.
    pub(crate) fn piece_at(&self, cursor: u64, end: u64) -> (n: u64)
        requires
            self.wf(),
            cursor < end,
        ensures
            n == piece_length(self@.geometry.block_size as int, cursor as int, end as int),
            0 < n <= end - cursor,
            n <= self@.geometry.block_size,
    {
        let block_size: u64 = self.geometry.block_size as u64;
        let left: u64 = block_size - cursor % block_size;
        if left < end - cursor {
            left
        } else {
            end - cursor
        }
    }

    /// Where `n` bytes of the virtual disk from `cursor` on, all in one block, are read
    /// from.
    fn locate(&self, cursor: u64, n: u64) -> (r: Result<Source>)
        requires
            self.wf(),
            cursor < self@.geometry.virtual_size,
        ensures
            match r {
                Ok(source) => self@.source_of(cursor as int, n as int) == Ok::<Source, Error>(
                    source,
                ),
                Err(e) => self@.source_of(cursor as int, n as int) == Err::<Source, Error>(e),
            },
    {
        let in_block: u64 = cursor % self.geometry.block_size as u64;
        let entry: BatEntry = self.bat[self.index_at(cursor)];
        match entry.state {
            PayloadState::FullyPresent => {
                // The offset is one word off the disk: it is held against the file before
                // anything is read there.
                let host: u128 = entry.file_offset as u128 + in_block as u128;
                if host + n as u128 > self.dev_size as u128 {
                    Err(Error::Corrupt("BAT entry points past the file"))
                } else {
                    Ok(Source::Host(host as u64))
                }
            },
            PayloadState::NotPresent
            | PayloadState::Undefined
            | PayloadState::Zero
            | PayloadState::Unmapped => Ok(Source::Zeros),
            PayloadState::PartiallyPresent => Err(
                Error::Unsupported("PartiallyPresent block (sector-bitmap walking not implemented)"),
            ),
            PayloadState::Reserved(v) => Err(Error::Unsupported(reserved_state_message(v))),
        }
    }

    /// Plan a read of `len` bytes at virtual `offset`.
    ///
    /// The read is cut at block boundaries. A fully present block is read from the device;
    /// a block that is not on disk reads as zeros. The first block that cannot be read ends
    /// the read: the pieces before it are still filled.
    pub fn read_at(&self, offset: u64, len: usize) -> (plan: ReadPlan)
        requires
            self.wf(),
        ensures
            match access_fault(self@.geometry.virtual_size as int, offset as int, len as int) {
                Some(why) => plan.pieces@.len() == 0 && outcome_is(plan.outcome, Some(why)),
                None => {
                    &&& plan.pieces@ == self@.pieces_from(
                        offset as int,
                        offset as int,
                        offset + len,
                    )
                    &&& outcome_is(
                        plan.outcome,
                        self@.refusal_from(offset as int, offset + len),
                    )
                },
            },
    {
        let mut pieces: Vec<ReadPiece> = Vec::new();
        if let Err(why) = self.check_access(offset, len) {
            return ReadPlan { pieces, outcome: Err(why) };
        }
        if len == 0 {
            return ReadPlan { pieces, outcome: Ok(()) };
        }
        let end: u64 = offset + len as u64;
        let mut cursor: u64 = offset;
        assert(pieces@ + self@.pieces_from(offset as int, cursor as int, end as int)
            =~= self@.pieces_from(offset as int, offset as int, end as int));
        while cursor < end
            invariant
                self.wf(),
                offset <= cursor <= end,
                end == offset + len,
                end <= self@.geometry.virtual_size,
                pieces@ + self@.pieces_from(offset as int, cursor as int, end as int)
                    == self@.pieces_from(offset as int, offset as int, end as int),
                self@.refusal_from(cursor as int, end as int) == self@.refusal_from(
                    offset as int,
                    end as int,
                ),
            decreases end - cursor,
        {
            let n: u64 = self.piece_at(cursor, end);
            match self.locate(cursor, n) {
                Err(why) => {
                    assert(pieces@ + self@.pieces_from(offset as int, cursor as int, end as int)
                        =~= pieces@);
                    return ReadPlan { pieces, outcome: Err(why) };
                },
                Ok(source) => {
                    let piece = ReadPiece {
                        at: (cursor - offset) as usize,
                        len: n as usize,
                        source,
                    };
                    assert(pieces@.push(piece) + self@.pieces_from(
                        offset as int,
                        cursor + n,
                        end as int,
                    ) =~= pieces@ + self@.pieces_from(offset as int, cursor as int, end as int));
                    pieces.push(piece);
                },
            }
            cursor = cursor + n;
        }
        assert(pieces@ + self@.pieces_from(offset as int, cursor as int, end as int) =~= pieces@);
        ReadPlan { pieces, outcome: Ok(()) }
    }
}

/// The first block boundary at or after the end of the device: where a new block goes.
pub open spec fn tail_block(dev_size: int, block_size: int) -> int {
    (dev_size + block_size - 1) / block_size * block_size
}

/// A sequence number stirred into the low half of a GUID, byte by byte.
pub open spec fn stirred(guid: Seq<u8>, seq: int) -> Seq<u8> {
    Seq::new(
        16,
        |i: int|
            if i < 8 {
                guid[i]
            } else {
                guid[i] ^ le64_bytes(seq)[i - 8]
            },
    )
}

/// The log GUID that follows `guid`, for the sequence number `seq`. It is never all-zero,
/// which would say that the log is empty.
pub open spec fn next_log_guid(guid: Seq<u8>, seq: int) -> Seq<u8> {
    if all_zero(stirred(guid, seq)) {
        stirred(guid, seq).update(0, 1u8)
    } else {
        stirred(guid, seq)
    }
}

/// A sequence number other than zero has a byte other than zero.
proof fn lemma_byte_other_than_zero(seq: int) -> (i: int)
    requires
        0 < seq < 0x1_0000_0000_0000_0000,
    ensures
        0 <= i < 8,
        le64_bytes(seq)[i] != 0,
{
    let bytes = le64_bytes(seq);
    lemma_le64_bytes(seq);
    if forall|i: int| 0 <= i < 8 ==> bytes[i] == 0 {
        assert(le64(bytes, 0) == 0);
        assert(false);
    }
    choose|i: int| 0 <= i < 8 && bytes[i] != 0
}

/// A journalled write never takes over the log GUID that it finds, so the chain that it starts
/// is told from the one before; nor does it ever declare the log empty.
pub proof fn next_log_guid_is_a_new_one(guid: Seq<u8>, seq: int)
    requires
        guid.len() == 16,
        0 < seq < 0x1_0000_0000_0000_0000,
    ensures
        next_log_guid(guid, seq).len() == 16,
        next_log_guid(guid, seq) != guid,
        !all_zero(next_log_guid(guid, seq)),
{
    let i = lemma_byte_other_than_zero(seq);
    let old = guid[8 + i];
    let byte = le64_bytes(seq)[i];
    let new = stirred(guid, seq)[8 + i];
    assert(new == old ^ byte);
    assert(byte != 0 ==> old ^ byte != old) by (bit_vector);
    assert(next_log_guid(guid, seq)[8 + i] == new);
    assert(all_zero(stirred(guid, seq)) ==> next_log_guid(guid, seq)[0] == 1);
}

/// Two sequence numbers never lead to the same log GUID.
pub proof fn log_guids_of_different_writes_differ(guid: Seq<u8>, a: int, b: int)
    requires
        guid.len() == 16,
        0 <= a < 0x1_0000_0000_0000_0000,
        0 <= b < 0x1_0000_0000_0000_0000,
        a != b,
    ensures
        next_log_guid(guid, a) != next_log_guid(guid, b),
{
    let x = le64_bytes(a);
    let y = le64_bytes(b);
    lemma_le64_bytes(a);
    lemma_le64_bytes(b);
    if forall|i: int| 0 <= i < 8 ==> x[i] == y[i] {
        assert(x =~= y);
        assert(false);
    }
    let i = choose|i: int| 0 <= i < 8 && x[i] != y[i];
    let old = guid[8 + i];
    let (p, q) = (x[i], y[i]);
    assert(p != q ==> old ^ p != old ^ q) by (bit_vector);
    assert(stirred(guid, a)[8 + i] == old ^ p);
    assert(stirred(guid, b)[8 + i] == old ^ q);
    assert(next_log_guid(guid, a)[8 + i] == old ^ p);
    assert(next_log_guid(guid, b)[8 + i] == old ^ q);
}

/// The sequence number that follows `seq`.
pub open spec fn next_sequence(seq: int) -> int {
    (seq + 1) % 0x1_0000_0000_0000_0000
}

/// The header that a journalled write leaves behind `h`: the next sequence number, a log
/// GUID of its own, and fresh write GUIDs, which invalidate what other readers cached.
pub open spec fn next_header(h: HeaderView) -> HeaderView {
    let seq = next_sequence(h.sequence_number);
    HeaderView {
        sequence_number: seq,
        file_write_guid: stirred(h.file_write_guid, seq),
        data_write_guid: stirred(h.data_write_guid, seq),
        log_guid: next_log_guid(h.log_guid, seq),
        ..h
    }
}

/// Whether the log region of `h` can hold one entry.
pub open spec fn has_room_to_journal(h: HeaderView) -> bool {
    h.log_length >= 8192 && h.log_offset > 0
}

impl ReaderView {
    /// Where BAT entry `index` lies on the device.
    pub open spec fn entry_position(self, index: int) -> int {
        self.bat_region_off + 8 * index
    }

    /// Where the 4 KiB sector that holds BAT entry `index` starts.
    pub open spec fn sector_position(self, index: int) -> int {
        self.entry_position(index) / 4096 * 4096
    }

    /// The reader once a block was claimed at the tail of the device.
    pub open spec fn grown(self) -> ReaderView {
        let bs = self.geometry.block_size as int;
        ReaderView { dev_size: tail_block(self.dev_size, bs) + bs, ..self }
    }

    /// The reader once the device was written to up to `end`.
    pub open spec fn reaching(self, end: int) -> ReaderView {
        ReaderView {
            dev_size: if end > self.dev_size {
                end
            } else {
                self.dev_size
            },
            ..self
        }
    }

    /// The reader once a write was journalled; without a usable log nothing changes.
    pub open spec fn journalled(self) -> ReaderView {
        if has_room_to_journal(self.header) {
            ReaderView {
                header: next_header(self.header),
                active_slot: self.active_slot.opposite(),
                ..self
            }
        } else {
            self
        }
    }

    /// The reader once BAT entry `index` names a fully present block at `block`.
    pub open spec fn with_block(self, index: int, block: int) -> ReaderView {
        ReaderView { bat: self.bat.update(index, bat_entry(present_entry(block))), ..self }
    }
}

/// Stir a sequence number into the low half of a GUID.
fn stir(guid: &[u8; 16], seq: u64) -> (r: [u8; 16])
    ensures
        r@ == stirred(guid@, seq as int),
{
    let mut bytes: Vec<u8> = Vec::new();
    push_u64_le(&mut bytes, seq);
    assert(bytes@ =~= le64_bytes(seq as int));
    let mut r: [u8; 16] = *guid;
    let mut i: usize = 0;
    while i < 8
        invariant
            i <= 8,
            bytes@ == le64_bytes(seq as int),
            bytes@.len() == 8,
            forall|k: int| 0 <= k < 8 + i ==> r@[k] == stirred(guid@, seq as int)[k],
            forall|k: int| 8 + i <= k < 16 ==> r@[k] == guid@[k],
        decreases 8 - i,
    {
        let b: u8 = r[8 + i] ^ bytes[i];
        r[8 + i] = b;
        i += 1;
    }
    assert(r@ =~= stirred(guid@, seq as int));
    r
}

/// The header that a journalled write leaves behind `h`.
pub(crate) fn header_after(h: &Header) -> (r: Header)
    ensures
        r@ == next_header(h@),
{
    let seq: u64 = h.sequence_number.wrapping_add(1);
    let mut log_guid: [u8; 16] = stir(&h.log_guid, seq);
    if is_zero_guid(&log_guid) {
        let ghost before = log_guid@;
        log_guid[0] = 1;
        assert(log_guid@ =~= before.update(0, 1u8));
    }
    let mut r: Header = *h;
    r.sequence_number = seq;
    r.log_guid = log_guid;
    r.file_write_guid = stir(&h.file_write_guid, seq);
    r.data_write_guid = stir(&h.data_write_guid, seq);
    r
}

impl VhdxReader {
    /// BAT entry `index`.
    pub(crate) fn bat_entry_at(&self, index: usize) -> (e: BatEntry)
        requires
            index < self@.bat.len(),
        ensures
            e == self@.bat[index as int],
    {
        self.bat[index]
    }

    /// The current size of the device.
    pub(crate) fn device_size(&self) -> (r: u64)
        ensures
            r == self@.dev_size,
    {
        self.dev_size
    }

    /// Where BAT entry `index` lies on the device.
    pub(crate) fn bat_entry_offset(&self, index: usize) -> (r: u64)
        requires
            self.wf(),
            index < self@.bat.len(),
        ensures
            r == self@.entry_position(index as int),
    {
        self.bat_region_off + 8 * index as u64
    }

    /// The active header.
    pub(crate) fn active_header(&self) -> (h: &Header)
        ensures
            h@ == self@.header,
    {
        &self.header
    }

    /// The slot that the next header goes to.
    pub(crate) fn next_slot(&self) -> (slot: HeaderSlot)
        ensures
            slot == self@.active_slot.opposite(),
    {
        self.active_slot.other()
    }

    /// Claim a block at the tail of the device.
    pub(crate) fn claim_block(&mut self) -> (block: u64)
        requires
            old(self).wf(),
            old(self)@.grown().dev_size <= u64::MAX,
        ensures
            block == tail_block(old(self)@.dev_size, old(self)@.geometry.block_size as int),
            final(self)@ == old(self)@.grown(),
            final(self).wf(),
    {
        let block_size: u64 = self.geometry.block_size as u64;
        proof {
            lemma_tail_block(self.dev_size as int, block_size as int);
        }
        let over: u64 = self.dev_size % block_size;
        let block: u64 = if over == 0 {
            self.dev_size
        } else {
            self.dev_size + (block_size - over)
        };
        self.dev_size = block + block_size;
        block
    }

    /// Take note that the device was written to up to `end`.
    pub(crate) fn reach(&mut self, end: u64)
        requires
            old(self).wf(),
        ensures
            final(self)@ == old(self)@.reaching(end as int),
            final(self).wf(),
    {
        if end > self.dev_size {
            self.dev_size = end;
        }
    }

    /// Take over the header that a journalled write left behind.
    pub(crate) fn take_journalled_header(&mut self)
        requires
            old(self).wf(),
        ensures
            final(self)@ == old(self)@.journalled(),
            final(self).wf(),
    {
        if self.header.log_length >= 8192 && self.header.log_offset > 0 {
            let header: Header = header_after(&self.header);
            self.header = header;
            self.active_slot = self.active_slot.other();
        }
    }

    /// Take over a BAT entry that was published on the device.
    pub(crate) fn take_block(&mut self, index: usize, block: u64)
        requires
            old(self).wf(),
            index < old(self)@.bat.len(),
        ensures
            final(self)@ == old(self)@.with_block(index as int, block as int),
            final(self).wf(),
    {
        let entry: BatEntry = BatEntry::from_u64(BatEntry::encode_present(block));
        self.bat.set(index, entry);
    }
}

/// The tail block is the least multiple of the block size at or after the end.
pub proof fn lemma_tail_block(dev_size: int, block_size: int)
    requires
        0 <= dev_size,
        0 < block_size,
    ensures
        dev_size <= tail_block(dev_size, block_size) < dev_size + block_size,
        tail_block(dev_size, block_size) % block_size == 0,
        tail_block(dev_size, block_size) == if dev_size % block_size == 0 {
            dev_size
        } else {
            dev_size + (block_size - dev_size % block_size)
        },
{
    let q = dev_size / block_size;
    let m = dev_size % block_size;
    let t = tail_block(dev_size, block_size);
    vstd::arithmetic::div_mod::lemma_fundamental_div_mod(dev_size, block_size);
    vstd::arithmetic::div_mod::lemma_mod_bound(dev_size, block_size);
    let e = dev_size + block_size - 1;
    if m == 0 {
        assert(e == q * block_size + (block_size - 1)) by (nonlinear_arith)
            requires
                dev_size == block_size * q + m,
                m == 0,
                e == dev_size + block_size - 1,
        ;
        vstd::arithmetic::div_mod::lemma_fundamental_div_mod_converse(
            e,
            block_size,
            q,
            block_size - 1,
        );
        assert(t == dev_size) by (nonlinear_arith)
            requires
                t == q * block_size,
                dev_size == block_size * q + m,
                m == 0,
        ;
    } else {
        assert(e == (q + 1) * block_size + (m - 1)) by (nonlinear_arith)
            requires
                dev_size == block_size * q + m,
                e == dev_size + block_size - 1,
        ;
        vstd::arithmetic::div_mod::lemma_fundamental_div_mod_converse(
            e,
            block_size,
            q + 1,
            m - 1,
        );
        assert(t == dev_size + (block_size - m)) by (nonlinear_arith)
            requires
                t == (q + 1) * block_size,
                dev_size == block_size * q + m,
        ;
    }
    vstd::arithmetic::div_mod::lemma_mod_multiples_basic(e / block_size, block_size);
}

/// The BAT of an opened image has an entry for every byte of the disk.
pub proof fn lemma_index_in_bat(r: ReaderView, cursor: int)
    requires
        r.wf(),
        0 <= cursor < r.geometry.virtual_size,
    ensures
        0 <= cursor / r.geometry.block_size as int <= u64::MAX / 0x10_0000,
        0 <= bat_index(cursor / r.geometry.block_size as int, r.geometry.chunk_ratio())
            < r.bat.len(),
        16 <= r.geometry.chunk_ratio() <= 0x8000,
{
    let g = r.geometry;
    let b = g.block_size as int;
    let block = cursor / b;
    let last = (g.virtual_size - 1) / b;
    lemma_geometry(g);
    assert(0 <= block <= last && last <= u64::MAX / 0x10_0000) by (nonlinear_arith)
        requires
            block == cursor / b,
            last == (g.virtual_size - 1) / b,
            0 <= cursor <= g.virtual_size - 1,
            b >= 0x10_0000,
            g.virtual_size <= u64::MAX,
    ;
    if block < last {
        bat_index_is_strictly_increasing(block, last, g.chunk_ratio());
    }
    assert(0 <= block <= bat_index(block, g.chunk_ratio()));
}

/// Whether a GUID is another with a sequence number in its last eight bytes: each is combined with
/// a digit of the number, so the same step takes the one to the other and back.
pub open spec fn is_stirred(from: Seq<u8>, to: Seq<u8>, seq: int) -> bool {
    &&& to.len() == 16
    &&& forall|i: int| 0 <= i < 8 ==> to[i] == from[i]
    &&& forall|i: int|
        8 <= i < 16 ==> #[trigger] to[i] == from[i] ^ le64_bytes(seq)[i - 8] && from[i] == to[i]
            ^ le64_bytes(seq)[i - 8]
}

/// Stirring is its own reverse.
proof fn lemma_stirred(guid: Seq<u8>, seq: int)
    requires
        guid.len() == 16,
    ensures
        is_stirred(guid, stirred(guid, seq), seq),
{
    let to = stirred(guid, seq);
    assert forall|i: int| 8 <= i < 16 implies #[trigger] to[i] == guid[i] ^ le64_bytes(seq)[i - 8]
        && guid[i] == to[i] ^ le64_bytes(seq)[i - 8] by {
        let old = guid[i];
        let digit = le64_bytes(seq)[i - 8];
        assert((old ^ digit) ^ digit == old) by (bit_vector);
    }
}

/// What a journalled write leaves of a header: the next sequence number, which starts over behind
/// the last, and GUIDs with that number stirred in. A log GUID that would come out as zero gets a
/// one at its front instead. Everything else is kept.
pub proof fn the_header_after_a_journalled_write(h: HeaderView)
    requires
        h.fits(),
    ensures
        ({
            let n = next_header(h);
            let seq = n.sequence_number;
            &&& seq == if h.sequence_number == u64::MAX {
                0
            } else {
                h.sequence_number + 1
            }
            &&& is_stirred(h.file_write_guid, n.file_write_guid, seq)
            &&& is_stirred(h.data_write_guid, n.data_write_guid, seq)
            &&& is_stirred(h.log_guid, n.log_guid, seq) || (n.log_guid[0] == 1 && is_stirred(
                h.log_guid,
                zeros(16),
                seq,
            ))
            &&& exists|i: int| 0 <= i < 16 && n.log_guid[i] != 0
            &&& n.log_version == h.log_version
            &&& n.version == h.version
            &&& n.log_length == h.log_length
            &&& n.log_offset == h.log_offset
        }),
{
    let n = next_header(h);
    let seq = n.sequence_number;
    lemma_stirred(h.file_write_guid, seq);
    lemma_stirred(h.data_write_guid, seq);
    lemma_stirred(h.log_guid, seq);
    if all_zero(stirred(h.log_guid, seq)) {
        assert(stirred(h.log_guid, seq) =~= zeros(16));
        assert(n.log_guid[0] == 1);
    } else {
        assert(n.log_guid == stirred(h.log_guid, seq));
        let i = choose|i: int| 0 <= i < 16 && stirred(h.log_guid, seq)[i] != 0;
        assert(n.log_guid[i] != 0);
    }
}

} // verus!

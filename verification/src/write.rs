//! Writing to an opened image.
//!
//! A write alternates device work with decisions, so it is a dialogue, as opening is:
//! [`VhdxReader::write_at`] and the answers to its requests each yield a [`WriteStep`].
//! What the dialogue comes to is [`wrote`].
//!
//! ## Crash safety
//!
//! Every change of the BAT is committed to the log first, with a flush after the log write
//! and one after the header that announces it; only then is the BAT sector rewritten in
//! place. A crash after the log commit is recovered on the next open by replaying the log; a
//! crash before it loses only the write in flight. An image without a usable log region is
//! written without one, and is not crash-safe.
use crate::bat::{bat_index, bat_index_is_strictly_increasing, lemma_bat_index, present_entry};
use crate::bat::{BatEntry, PayloadState};
use crate::bytes::{copy_into, slice_of, splice, zeros};
use crate::device::{after_ops, lemma_after_one_op, op_views, performed, written, DeviceOp, OpView};
use crate::endian::{le64_bytes, push_u64_le};
use crate::error::{Error, Result};
use crate::header::{encode_header, header_bytes, Header};
use crate::layout::lemma_geometry;
use crate::log::{encode_entry, PendingWrite, LOG_SECTOR_SIZE};
use crate::log::encode::{encoded_length, entry_bytes, write_views, EntryFields, WriteView};
use crate::reader::{access_fault, has_room_to_journal, header_after, lemma_index_in_bat};
use crate::reader::{lemma_tail_block, next_header, piece_length, reserved_state_message};
use crate::reader::{reserved_state_text, tail_block, ReaderView, VhdxReader};
use vstd::prelude::*;

verus! {

/// An opened image together with the contents of its device.
#[verifier::ext_equal]
pub struct Volume {
    pub reader: ReaderView,
    pub disk: Seq<u8>,
}

/// What a write comes to: the operations that it performs on the device, in order, the volume
/// that it leaves, and why it failed, if it did.
#[verifier::ext_equal]
pub struct WriteOutcome {
    pub ops: Seq<OpView>,
    pub volume: Volume,
    pub failure: Option<Error>,
}

impl WriteOutcome {
    /// The same outcome, with these operations performed first.
    pub open spec fn preceded_by(self, ops: Seq<OpView>) -> WriteOutcome {
        WriteOutcome { ops: ops + self.ops, ..self }
    }
}

/// A write that goes no further.
pub open spec fn stopped(v: Volume, failure: Option<Error>) -> WriteOutcome {
    WriteOutcome { ops: Seq::empty(), volume: v, failure }
}

/// The log entry that announces the write of `sector` at `at`.
pub open spec fn journal_entry(r: ReaderView, at: int, sector: Seq<u8>) -> Seq<u8> {
    entry_bytes(
        EntryFields {
            sequence_number: next_header(r.header).sequence_number,
            tail: 0,
            log_guid: next_header(r.header).log_guid,
            flushed_file_offset: r.dev_size,
            last_file_offset: r.dev_size,
        },
        seq![WriteView { file_offset: at, sector }],
    )
}

/// The operations that journal the write of `sector` at `at`.
///
/// The whole log region is cleared first, so the entry is the only one in it and the first
/// of its own chain. Then the header moves to the slot that is not in use. Without a usable
/// log there is nothing to do.
pub open spec fn journal_ops(r: ReaderView, at: int, sector: Seq<u8>) -> Seq<OpView> {
    if has_room_to_journal(r.header) {
        seq![
            OpView::Zeros { offset: r.header.log_offset, len: r.header.log_length },
            OpView::Flush,
            OpView::Write { offset: r.header.log_offset, data: journal_entry(r, at, sector) },
            OpView::Flush,
            OpView::Write {
                offset: r.active_slot.opposite().position(),
                data: header_bytes(next_header(r.header)),
            },
            OpView::Flush,
        ]
    } else {
        Seq::empty()
    }
}

/// The BAT sector `sector` with entry `index` naming a fully present block at `block`.
pub open spec fn published_sector(
    r: ReaderView,
    sector: Seq<u8>,
    index: int,
    block: int,
) -> Seq<u8> {
    splice(
        sector,
        r.entry_position(index) - r.sector_position(index),
        le64_bytes(present_entry(block)),
    )
}

/// Whether BAT entry `index` lies within one 4 KiB sector of the device.
pub open spec fn entry_in_one_sector(r: ReaderView, index: int) -> bool {
    r.entry_position(index) % 4096 <= 4088
}

/// The volume once a zeroed block was appended to the device.
pub open spec fn appended(v: Volume) -> Volume {
    let bs = v.reader.geometry.block_size as int;
    Volume {
        reader: v.reader.grown(),
        disk: written(v.disk, tail_block(v.reader.dev_size, bs), zeros(bs as nat)),
    }
}

/// The volume once the BAT sector image `sector`, which holds entry `index`, was journalled.
pub open spec fn journalled(v: Volume, index: int, sector: Seq<u8>) -> Volume {
    Volume {
        reader: v.reader.journalled(),
        disk: after_ops(
            v.disk,
            journal_ops(v.reader, v.reader.sector_position(index), sector),
        ),
    }
}

/// The volume once the BAT sector image `sector` was written in place and entry `index`
/// names `block`.
pub open spec fn published(v: Volume, index: int, block: int, sector: Seq<u8>) -> Volume {
    Volume {
        reader: v.reader.with_block(index, block),
        disk: written(v.disk, v.reader.sector_position(index), sector),
    }
}

/// The volume once a block was allocated for BAT entry `index`: a zeroed block goes to the
/// tail of the device, the change of the BAT is journalled, and then it is made.
pub open spec fn allocated(v: Volume, index: int) -> Volume {
    let block = tail_block(v.reader.dev_size, v.reader.geometry.block_size as int);
    let a = appended(v);
    let at = a.reader.sector_position(index);
    let sector = published_sector(a.reader, a.disk.subrange(at, at + 4096), index, block);
    published(journalled(a, index, sector), index, block, sector)
}

/// The volume once the payload bytes of `data`, from `cursor` on and up to the end of its
/// block, were written to the block at `block`. A block that the BAT names past the end of the
/// device makes the device longer.
pub open spec fn paid(v: Volume, offset: int, data: Seq<u8>, cursor: int, block: int) -> Volume {
    let bs = v.reader.geometry.block_size as int;
    let n = piece_length(bs, cursor, offset + data.len());
    Volume {
        reader: v.reader.reaching(block + cursor % bs + n),
        disk: written(
            v.disk,
            block + cursor % bs,
            data.subrange(cursor - offset, cursor - offset + n),
        ),
    }
}

/// The operation that appends a zeroed block to the device.
pub open spec fn append_op(r: ReaderView) -> OpView {
    let bs = r.geometry.block_size as int;
    OpView::Zeros { offset: tail_block(r.dev_size, bs), len: bs }
}

/// The operations that make a change of the BAT, with entry `index` in it: the BAT sector image
/// `sector` is journalled, and then it is written in place. Each write is durable before the next
/// one starts.
pub open spec fn commit_ops(r: ReaderView, index: int, sector: Seq<u8>) -> Seq<OpView> {
    let at = r.sector_position(index);
    journal_ops(r, at, sector) + seq![OpView::Write { offset: at, data: sector }, OpView::Flush]
}

/// The operations that allocate a block for BAT entry `index`.
pub open spec fn allocation_ops(v: Volume, index: int) -> Seq<OpView> {
    let block = tail_block(v.reader.dev_size, v.reader.geometry.block_size as int);
    let a = appended(v);
    let at = a.reader.sector_position(index);
    let sector = published_sector(a.reader, a.disk.subrange(at, at + 4096), index, block);
    seq![append_op(v.reader), OpView::Flush] + commit_ops(a.reader, index, sector)
}

/// The operation that writes the payload bytes of `data`, from `cursor` on and up to the end of
/// its block, to the block at `block`.
pub open spec fn payment_op(
    r: ReaderView,
    offset: int,
    data: Seq<u8>,
    cursor: int,
    block: int,
) -> OpView {
    let bs = r.geometry.block_size as int;
    let n = piece_length(bs, cursor, offset + data.len());
    OpView::Write {
        offset: block + cursor % bs,
        data: data.subrange(cursor - offset, cursor - offset + n),
    }
}

/// Where the `n` bytes of the virtual disk from `cursor` on, all in one block that is on disk, end
/// on the device.
pub open spec fn piece_end(r: ReaderView, cursor: int, n: int) -> int {
    r.entry_at(cursor).file_offset + cursor % r.geometry.block_size as int + n
}

/// The size of a device of `dev_size` bytes once it was written to up to `end`.
pub open spec fn stretched(dev_size: int, end: int) -> int {
    if end > dev_size {
        end
    } else {
        dev_size
    }
}

/// What writing `data` at `offset` comes to from the byte `cursor` of the virtual disk on.
/// The pieces before the first block that takes no writes are written. When every piece was
/// written, what was written is made durable.
#[verifier::opaque]
pub open spec fn wrote_from(v: Volume, offset: int, data: Seq<u8>, cursor: int) -> WriteOutcome
    decreases offset + data.len() - cursor,
{
    let r = v.reader;
    let bs = r.geometry.block_size as int;
    let n = piece_length(bs, cursor, offset + data.len());
    let index = bat_index(cursor / bs, r.geometry.chunk_ratio());
    let entry = r.bat[index];
    if cursor >= offset + data.len() || n <= 0 {
        stopped(v, None).preceded_by(seq![OpView::Flush])
    } else if entry.state.reads_as_zero() {
        let block = tail_block(r.dev_size, bs);
        wrote_from(
            paid(allocated(v, index), offset, data, cursor, block),
            offset,
            data,
            cursor + n,
        ).preceded_by(allocation_ops(v, index).push(payment_op(r, offset, data, cursor, block)))
    } else {
        match entry.state {
            PayloadState::FullyPresent => wrote_from(
                paid(v, offset, data, cursor, entry.file_offset as int),
                offset,
                data,
                cursor + n,
            ).preceded_by(seq![payment_op(r, offset, data, cursor, entry.file_offset as int)]),
            PayloadState::PartiallyPresent => stopped(
                v,
                Some(
                    Error::Unsupported(
                        "write to a PartiallyPresent block (sector-bitmap walking not implemented)",
                    ),
                ),
            ),
            PayloadState::Reserved(s) => stopped(
                v,
                Some(Error::Unsupported(reserved_state_text(s))),
            ),
            _ => stopped(v, None),
        }
    }
}

/// What writing `data` at `offset` of the virtual disk comes to.
pub open spec fn wrote(v: Volume, offset: int, data: Seq<u8>) -> WriteOutcome {
    let size = v.reader.geometry.virtual_size as int;
    if !v.reader.writable {
        stopped(v, Some(Error::ReadOnly))
    } else if access_fault(size, offset, data.len() as int) is Some {
        stopped(v, access_fault(size, offset, data.len() as int))
    } else if data.len() == 0 {
        stopped(v, None)
    } else {
        wrote_from(v, offset, data, offset)
    }
}

/// Whether a write from `cursor` to `end` can go through, on a device that has grown to
/// `dev_size` bytes: each BAT entry that has to change lies within one sector, and the size of
/// the device stays in the 64-bit range.
#[verifier::opaque]
pub open spec fn has_room_from(r: ReaderView, dev_size: int, cursor: int, end: int) -> bool
    decreases end - cursor,
{
    let bs = r.geometry.block_size as int;
    let n = piece_length(bs, cursor, end);
    let index = bat_index(cursor / bs, r.geometry.chunk_ratio());
    let state = r.bat[index].state;
    if cursor >= end || n <= 0 {
        true
    } else if state.reads_as_zero() {
        &&& entry_in_one_sector(r, index)
        &&& tail_block(dev_size, bs) + bs <= u64::MAX
        &&& has_room_from(r, tail_block(dev_size, bs) + bs, cursor + n, end)
    } else if state is FullyPresent {
        &&& piece_end(r, cursor, n) <= u64::MAX
        &&& has_room_from(r, stretched(dev_size, piece_end(r, cursor, n)), cursor + n, end)
    } else {
        true
    }
}

/// Whether a write of `len` bytes at `offset` can go through: see [`has_room_from`]. A write
/// that is refused outright always can.
pub open spec fn has_room(r: ReaderView, offset: int, len: int) -> bool {
    r.writable && access_fault(r.geometry.virtual_size as int, offset, len) is None
        ==> has_room_from(r, r.dev_size, offset, offset + len)
}

/// How far a write from `cursor` to `end` gets: to the first block that takes no writes.
#[verifier::opaque]
pub open spec fn accepted_until(r: ReaderView, cursor: int, end: int) -> int
    decreases end - cursor,
{
    let n = piece_length(r.geometry.block_size as int, cursor, end);
    let state = r.entry_at(cursor).state;
    if cursor >= end || n <= 0 || !(state.reads_as_zero() || state is FullyPresent) {
        cursor
    } else {
        accepted_until(r, cursor + n, end)
    }
}

/// How many blocks a write from `cursor` to `end` allocates, up to the first block that takes no
/// writes.
#[verifier::opaque]
pub open spec fn allocations_from(r: ReaderView, cursor: int, end: int) -> nat
    decreases end - cursor,
{
    let n = piece_length(r.geometry.block_size as int, cursor, end);
    let state = r.entry_at(cursor).state;
    if cursor >= end || n <= 0 || !(state.reads_as_zero() || state is FullyPresent) {
        0
    } else if state is FullyPresent {
        allocations_from(r, cursor + n, end)
    } else {
        allocations_from(r, cursor + n, end) + 1
    }
}

/// What follows once the device was written to.
#[derive(Debug)]
enum Follow {
    /// The device now reaches at least to `reach`, and the piece at `cursor` is next.
    Piece { cursor: u64, reach: u64 },
    /// The BAT sector of the piece at `cursor` is read next.
    Sector { cursor: u64, index: usize, block: u64 },
    /// The BAT sector was journalled and is written in place next.
    Publish { cursor: u64, index: usize, block: u64, sector: Vec<u8> },
    /// The BAT sector is in place and the payload is written next.
    Payload { cursor: u64, index: usize, block: u64 },
    /// The write is complete.
    Finish,
}

/// A request to carry out operations on the device, in order.
#[derive(Debug)]
pub struct WriteApply<'a> {
    offset: u64,
    data: &'a [u8],
    ops: Vec<DeviceOp>,
    follow: Follow,
}

/// A request for the BAT sector that is about to change.
#[derive(Debug)]
pub struct WriteRead<'a> {
    offset: u64,
    data: &'a [u8],
    at: u64,
    cursor: u64,
    index: usize,
    block: u64,
}

/// What a write asks for next, or what it came to.
#[derive(Debug)]
pub enum WriteStep<'a> {
    /// Bytes of the device are wanted.
    Read(WriteRead<'a>),
    /// The device is to be written to.
    Apply(WriteApply<'a>),
    /// The write is over.
    Done(Result<()>),
}

/// What a write comes to once the payload can be written to the block at `block`.
#[verifier::opaque]
spec fn outcome_at_payload(
    v: Volume,
    offset: int,
    data: Seq<u8>,
    cursor: int,
    block: int,
) -> WriteOutcome {
    let n = piece_length(
        v.reader.geometry.block_size as int,
        cursor,
        offset + data.len(),
    );
    wrote_from(paid(v, offset, data, cursor, block), offset, data, cursor + n).preceded_by(
        seq![payment_op(v.reader, offset, data, cursor, block)],
    )
}

/// What a write comes to once the BAT sector image `sector` was journalled.
#[verifier::opaque]
spec fn outcome_at_publish(
    v: Volume,
    offset: int,
    data: Seq<u8>,
    cursor: int,
    index: int,
    block: int,
    sector: Seq<u8>,
) -> WriteOutcome {
    outcome_at_payload(
        published(Volume { reader: v.reader.journalled(), ..v }, index, block, sector),
        offset,
        data,
        cursor,
        block,
    ).preceded_by(
        seq![
            OpView::Write { offset: v.reader.sector_position(index), data: sector },
            OpView::Flush,
        ],
    )
}

/// What a write comes to once a zeroed block was appended.
#[verifier::opaque]
spec fn outcome_at_sector(
    v: Volume,
    offset: int,
    data: Seq<u8>,
    cursor: int,
    index: int,
    block: int,
) -> WriteOutcome {
    let at = v.reader.sector_position(index);
    let sector = published_sector(v.reader, v.disk.subrange(at, at + 4096), index, block);
    outcome_at_payload(
        published(journalled(v, index, sector), index, block, sector),
        offset,
        data,
        cursor,
        block,
    ).preceded_by(commit_ops(v.reader, index, sector))
}

/// Whether a piece at `cursor` is one of the write, for which `index` is the BAT entry and
/// `block` was claimed at the tail of the device.
spec fn piece_claimed(
    r: ReaderView,
    offset: int,
    len: int,
    cursor: int,
    index: int,
    block: int,
) -> bool {
    let bs = r.geometry.block_size as int;
    let n = piece_length(bs, cursor, offset + len);
    &&& offset <= cursor < offset + len
    &&& offset + len <= r.geometry.virtual_size
    &&& index == bat_index(cursor / bs, r.geometry.chunk_ratio())
    &&& 0 <= index < r.bat.len()
    &&& entry_in_one_sector(r, index)
    &&& block + bs == r.dev_size
    &&& block % bs == 0
    &&& r.bat_region_off + 8 * r.bat.len() <= block
    &&& has_room_from(r, r.dev_size, cursor + n, offset + len)
}

impl<'a> WriteApply<'a> {
    /// The operations to be carried out.
    pub closed spec fn operations(self) -> Seq<OpView> {
        op_views(self.ops@)
    }

    /// What the write comes to for a volume on which the operations were carried out.
    pub closed spec fn outcome_after(self, v: Volume) -> WriteOutcome {
        let offset = self.offset as int;
        match self.follow {
            Follow::Piece { cursor, reach } => wrote_from(
                Volume { reader: v.reader.reaching(reach as int), ..v },
                offset,
                self.data@,
                cursor as int,
            ),
            Follow::Sector { cursor, index, block } => outcome_at_sector(
                v,
                offset,
                self.data@,
                cursor as int,
                index as int,
                block as int,
            ),
            Follow::Publish { cursor, index, block, sector } => outcome_at_publish(
                v,
                offset,
                self.data@,
                cursor as int,
                index as int,
                block as int,
                sector@,
            ),
            Follow::Payload { cursor, index, block } => outcome_at_payload(
                Volume { reader: v.reader.with_block(index as int, block as int), ..v },
                offset,
                self.data@,
                cursor as int,
                block as int,
            ),
            Follow::Finish => stopped(v, None),
        }
    }

    /// Whether the request belongs to a write on this reader.
    pub closed spec fn belongs_to(self, r: ReaderView) -> bool {
        let offset = self.offset as int;
        let len = self.data@.len() as int;
        match self.follow {
            Follow::Piece { cursor, reach } => {
                &&& offset <= cursor <= offset + len
                &&& offset + len <= r.geometry.virtual_size
                &&& has_room_from(
                    r,
                    stretched(r.dev_size, reach as int),
                    cursor as int,
                    offset + len,
                )
            },
            Follow::Sector { cursor, index, block } => piece_claimed(
                r,
                offset,
                len,
                cursor as int,
                index as int,
                block as int,
            ),
            Follow::Publish { cursor, index, block, sector } => {
                &&& piece_claimed(r, offset, len, cursor as int, index as int, block as int)
                &&& sector@.len() == 4096
            },
            Follow::Payload { cursor, index, block } => piece_claimed(
                r,
                offset,
                len,
                cursor as int,
                index as int,
                block as int,
            ),
            Follow::Finish => true,
        }
    }

    /// How far the dialogue may still go.
    pub closed spec fn steps_left(self) -> int {
        let end = self.offset + self.data@.len();
        match self.follow {
            Follow::Piece { cursor, .. } => 8 * (end - cursor) + 2,
            Follow::Sector { cursor, .. } => 8 * (end - cursor) + 1,
            Follow::Publish { cursor, .. } => 8 * (end - cursor) - 1,
            Follow::Payload { cursor, .. } => 8 * (end - cursor) - 2,
            Follow::Finish => 1,
        }
    }

    /// The operations to be carried out, in order.
    pub fn ops(&self) -> (ops: &[DeviceOp])
        ensures
            op_views(ops@) == self.operations(),
    {
        self.ops.as_slice()
    }
}

impl<'a> WriteRead<'a> {
    /// Where the bytes that are wanted start.
    pub closed spec fn start(self) -> int {
        self.at as int
    }

    /// How many bytes are wanted.
    pub open spec fn size(self) -> int {
        4096
    }

    /// What the write comes to for this volume.
    pub closed spec fn outcome(self, v: Volume) -> WriteOutcome {
        outcome_at_sector(
            v,
            self.offset as int,
            self.data@,
            self.cursor as int,
            self.index as int,
            self.block as int,
        )
    }

    /// Whether the request belongs to a write on this reader.
    pub closed spec fn belongs_to(self, r: ReaderView) -> bool {
        &&& piece_claimed(
            r,
            self.offset as int,
            self.data@.len() as int,
            self.cursor as int,
            self.index as int,
            self.block as int,
        )
        &&& self.at == r.sector_position(self.index as int)
    }

    /// How far the dialogue may still go.
    pub closed spec fn steps_left(self) -> int {
        8 * (self.offset + self.data@.len() - self.cursor)
    }

    /// Where the bytes that are wanted start.
    pub fn offset(&self) -> (r: u64)
        ensures
            r == self.start(),
    {
        self.at
    }

    /// How many bytes are wanted.
    pub fn len(&self) -> (r: usize)
        ensures
            r == self.size(),
    {
        LOG_SECTOR_SIZE
    }
}

impl<'a> WriteStep<'a> {
    /// What the write comes to for this volume.
    pub open spec fn outcome(self, v: Volume) -> WriteOutcome {
        match self {
            WriteStep::Read(request) => request.outcome(v),
            WriteStep::Apply(request) => request.outcome_after(
                Volume { reader: v.reader, disk: after_ops(v.disk, request.operations()) },
            ).preceded_by(request.operations()),
            WriteStep::Done(r) => stopped(
                v,
                match r {
                    Ok(_) => None,
                    Err(why) => Some(why),
                },
            ),
        }
    }

    /// Whether the step belongs to a write on this reader: the bytes that it asks for lie
    /// inside the device.
    pub open spec fn belongs_to(self, r: ReaderView) -> bool {
        match self {
            WriteStep::Read(request) => {
                &&& request.belongs_to(r)
                &&& 0 <= request.start()
                &&& request.start() + request.size() <= r.dev_size
            },
            WriteStep::Apply(request) => request.belongs_to(r),
            WriteStep::Done(_) => true,
        }
    }

    /// How far the dialogue may still go.
    pub open spec fn steps_left(self) -> int {
        match self {
            WriteStep::Read(request) => request.steps_left(),
            WriteStep::Apply(request) => request.steps_left(),
            WriteStep::Done(_) => 0,
        }
    }
}

/// A write of which the part before block `cursor / bs` is done is a matter of the BAT
/// entries from that block on.
proof fn lemma_room_frame(a: ReaderView, b: ReaderView, dev_size: int, cursor: int, end: int)
    requires
        a.geometry == b.geometry,
        a.wf(),
        a.bat_region_off == b.bat_region_off,
        0 <= cursor,
        end <= a.geometry.virtual_size,
        forall|k: int|
            cursor / a.geometry.block_size as int <= k && #[trigger] bat_index(
                k,
                a.geometry.chunk_ratio(),
            ) < a.bat.len() ==> a.bat[bat_index(k, a.geometry.chunk_ratio())] == b.bat[bat_index(
                k,
                a.geometry.chunk_ratio(),
            )],
        has_room_from(a, dev_size, cursor, end),
    ensures
        has_room_from(b, dev_size, cursor, end),
    decreases end - cursor,
{
    reveal_with_fuel(has_room_from, 1);
    let bs = a.geometry.block_size as int;
    let n = piece_length(bs, cursor, end);
    let index = bat_index(cursor / bs, a.geometry.chunk_ratio());
    if cursor < end && n > 0 {
        lemma_index_in_bat(a, cursor);
        assert(a.bat[index] == b.bat[index]);
        assert(cursor / bs <= (cursor + n) / bs) by (nonlinear_arith)
            requires
                0 <= cursor,
                n > 0,
                bs > 0,
        ;
        if a.bat[index].state.reads_as_zero() {
            lemma_room_frame(a, b, tail_block(dev_size, bs) + bs, cursor + n, end);
        } else if a.bat[index].state is FullyPresent {
            let reach = piece_end(a, cursor, n);
            lemma_room_frame(a, b, stretched(dev_size, reach), cursor + n, end);
        }
    }
}

/// How far a write gets from `cursor` on, and how many blocks it allocates, is a matter of the BAT
/// entries from there on.
proof fn lemma_accepted_frame(a: ReaderView, b: ReaderView, cursor: int, end: int)
    requires
        a.geometry == b.geometry,
        a.wf(),
        0 <= cursor,
        end <= a.geometry.virtual_size,
        forall|k: int|
            cursor / a.geometry.block_size as int <= k && #[trigger] bat_index(
                k,
                a.geometry.chunk_ratio(),
            ) < a.bat.len() ==> a.bat[bat_index(k, a.geometry.chunk_ratio())] == b.bat[bat_index(
                k,
                a.geometry.chunk_ratio(),
            )],
    ensures
        accepted_until(a, cursor, end) == accepted_until(b, cursor, end),
        allocations_from(a, cursor, end) == allocations_from(b, cursor, end),
    decreases end - cursor,
{
    reveal_with_fuel(accepted_until, 1);
    reveal_with_fuel(allocations_from, 1);
    let bs = a.geometry.block_size as int;
    let n = piece_length(bs, cursor, end);
    let index = bat_index(cursor / bs, a.geometry.chunk_ratio());
    if cursor < end && n > 0 {
        lemma_index_in_bat(a, cursor);
        assert(a.bat[index] == b.bat[index]);
        assert(cursor / bs <= (cursor + n) / bs) by (nonlinear_arith)
            requires
                0 <= cursor,
                n > 0,
                bs > 0,
        ;
        lemma_accepted_frame(a, b, cursor + n, end);
    }
}

/// Allocating a block for the piece at `cursor` leaves the pieces after it as they were: their
/// room, how far the write gets, and what it allocates.
pub proof fn lemma_rest_after_allocating(r: ReaderView, cursor: int, end: int)
    requires
        r.wf(),
        0 <= cursor < end <= r.geometry.virtual_size,
        has_room_from(r, r.dev_size, cursor, end),
        r.entry_at(cursor).state.reads_as_zero(),
    ensures
        ({
            let bs = r.geometry.block_size as int;
            let index = bat_index(cursor / bs, r.geometry.chunk_ratio());
            let next = cursor + piece_length(bs, cursor, end);
            let block = tail_block(r.dev_size, bs);
            let s = r.grown().journalled().with_block(index, block);
            &&& entry_in_one_sector(r, index)
            &&& r.grown().dev_size <= u64::MAX
            &&& has_room_from(s, s.dev_size, next, end)
            &&& accepted_until(s, next, end) == accepted_until(r, next, end)
            &&& allocations_from(s, next, end) == allocations_from(r, next, end)
        }),
{
    let bs = r.geometry.block_size as int;
    let cr = r.geometry.chunk_ratio();
    let index = bat_index(cursor / bs, cr);
    let next = cursor + piece_length(bs, cursor, end);
    let block = tail_block(r.dev_size, bs);
    let g = r.grown();
    let s = g.journalled().with_block(index, block);
    lemma_next_piece(bs, cursor, end);
    lemma_index_in_bat(r, cursor);
    lemma_tail_block(r.dev_size, bs);
    lemma_room_to_allocate(r, cursor, end);
    if next < end {
        assert forall|k: int|
            next / bs <= k && #[trigger] bat_index(k, cr) < r.bat.len() implies r.bat[bat_index(
            k,
            cr,
        )] == s.bat[bat_index(k, cr)] by {
            bat_index_is_strictly_increasing(cursor / bs, k, cr);
            lemma_bat_index(k, cr);
        }
        lemma_room_frame(r, s, g.dev_size, next, end);
        lemma_accepted_frame(r, s, next, end);
    } else {
        reveal_with_fuel(has_room_from, 1);
        reveal_with_fuel(accepted_until, 1);
        reveal_with_fuel(allocations_from, 1);
    }
}

/// Writing to the block of the piece at `cursor` leaves the pieces after it as they were.
pub proof fn lemma_rest_after_paying(r: ReaderView, cursor: int, end: int)
    requires
        r.wf(),
        0 <= cursor < end <= r.geometry.virtual_size,
        has_room_from(r, r.dev_size, cursor, end),
        r.entry_at(cursor).state is FullyPresent,
    ensures
        ({
            let n = piece_length(r.geometry.block_size as int, cursor, end);
            let s = r.reaching(piece_end(r, cursor, n));
            &&& piece_end(r, cursor, n) <= u64::MAX
            &&& has_room_from(s, s.dev_size, cursor + n, end)
            &&& accepted_until(s, cursor + n, end) == accepted_until(r, cursor + n, end)
            &&& allocations_from(s, cursor + n, end) == allocations_from(r, cursor + n, end)
        }),
{
    let n = piece_length(r.geometry.block_size as int, cursor, end);
    let s = r.reaching(piece_end(r, cursor, n));
    lemma_next_piece(r.geometry.block_size as int, cursor, end);
    reveal_with_fuel(has_room_from, 1);
    lemma_room_frame(r, s, s.dev_size, cursor + n, end);
    lemma_accepted_frame(r, s, cursor + n, end);
}

/// A piece that ends before the access does ends where the next block starts.
pub proof fn lemma_next_piece(bs: int, cursor: int, end: int)
    requires
        0 < bs,
        0 <= cursor < end,
    ensures
        ({
            let n = piece_length(bs, cursor, end);
            &&& 0 < n <= bs
            &&& n <= end - cursor
            &&& cursor % bs + n <= bs
            &&& cursor + n < end ==> (cursor + n) / bs == cursor / bs + 1 && (cursor + n) % bs == 0
        }),
{
    let n = piece_length(bs, cursor, end);
    let q = cursor / bs;
    let m = cursor % bs;
    vstd::arithmetic::div_mod::lemma_fundamental_div_mod(cursor, bs);
    vstd::arithmetic::div_mod::lemma_mod_bound(cursor, bs);
    if cursor + n < end {
        assert(cursor + n == (q + 1) * bs + 0) by (nonlinear_arith)
            requires
                cursor == bs * q + m,
                n == bs - m,
        ;
        vstd::arithmetic::div_mod::lemma_fundamental_div_mod_converse(cursor + n, bs, q + 1, 0);
    }
}

/// A piece that needs a block finds room for it, and so do the pieces after it.
proof fn lemma_room_to_allocate(r: ReaderView, cursor: int, end: int)
    requires
        cursor < end,
        0 < piece_length(r.geometry.block_size as int, cursor, end),
        has_room_from(r, r.dev_size, cursor, end),
        r.entry_at(cursor).state.reads_as_zero(),
    ensures
        entry_in_one_sector(
            r,
            bat_index(cursor / r.geometry.block_size as int, r.geometry.chunk_ratio()),
        ),
        r.grown().dev_size <= u64::MAX,
        has_room_from(
            r,
            r.grown().dev_size,
            cursor + piece_length(r.geometry.block_size as int, cursor, end),
            end,
        ),
{
    reveal_with_fuel(has_room_from, 1);
}

/// Operations that are performed one after the other, however they are grouped.
proof fn lemma_grouping(
    first: Seq<OpView>,
    second: Seq<OpView>,
    third: OpView,
    rest: Seq<OpView>,
)
    ensures
        (first + second).push(third) + rest == first + (second + (seq![third] + rest)),
{
    assert((first + second).push(third) + rest =~= first + (second + (seq![third] + rest)));
}

/// A piece whose block is not on disk is written by appending a block for it.
proof fn lemma_wrote_by_allocating(v: Volume, offset: int, data: Seq<u8>, cursor: int)
    requires
        cursor < offset + data.len(),
        0 < piece_length(v.reader.geometry.block_size as int, cursor, offset + data.len()),
        v.reader.entry_at(cursor).state.reads_as_zero(),
    ensures
        wrote_from(v, offset, data, cursor) == outcome_at_sector(
            appended(v),
            offset,
            data,
            cursor,
            bat_index(
                cursor / v.reader.geometry.block_size as int,
                v.reader.geometry.chunk_ratio(),
            ),
            tail_block(v.reader.dev_size, v.reader.geometry.block_size as int),
        ).preceded_by(seq![append_op(v.reader), OpView::Flush]),
{
    reveal_with_fuel(wrote_from, 1);
    reveal(outcome_at_sector);
    reveal(outcome_at_payload);
    let r = v.reader;
    let bs = r.geometry.block_size as int;
    let n = piece_length(bs, cursor, offset + data.len());
    let index = bat_index(cursor / bs, r.geometry.chunk_ratio());
    let block = tail_block(r.dev_size, bs);
    let a = appended(v);
    let at = a.reader.sector_position(index);
    let sector = published_sector(a.reader, a.disk.subrange(at, at + 4096), index, block);
    let after = paid(allocated(v, index), offset, data, cursor, block);
    lemma_grouping(
        seq![append_op(r), OpView::Flush],
        commit_ops(a.reader, index, sector),
        payment_op(r, offset, data, cursor, block),
        wrote_from(after, offset, data, cursor + n).ops,
    );
}

/// Publishing the entry of the piece at `cursor` leaves the pieces after it their room.
proof fn lemma_room_after_publishing(
    r: ReaderView,
    cursor: int,
    end: int,
    index: int,
    block: int,
)
    requires
        r.wf(),
        0 <= cursor < end,
        end <= r.geometry.virtual_size,
        index == bat_index(
            cursor / r.geometry.block_size as int,
            r.geometry.chunk_ratio(),
        ),
        0 <= index < r.bat.len(),
        has_room_from(
            r,
            r.dev_size,
            cursor + piece_length(r.geometry.block_size as int, cursor, end),
            end,
        ),
    ensures
        has_room_from(
            r.with_block(index, block),
            r.dev_size,
            cursor + piece_length(r.geometry.block_size as int, cursor, end),
            end,
        ),
{
    let bs = r.geometry.block_size as int;
    let cr = r.geometry.chunk_ratio();
    let next = cursor + piece_length(bs, cursor, end);
    let after = r.with_block(index, block);
    lemma_geometry(r.geometry);
    lemma_next_piece(bs, cursor, end);
    assert(0 <= cursor / bs) by (nonlinear_arith)
        requires
            0 <= cursor,
            0 < bs,
    ;
    if next < end {
        assert forall|k: int|
            next / bs <= k && #[trigger] bat_index(k, cr) < r.bat.len() implies r.bat[bat_index(
            k,
            cr,
        )] == after.bat[bat_index(k, cr)] by {
            bat_index_is_strictly_increasing(cursor / bs, k, cr);
            lemma_bat_index(k, cr);
        }
        lemma_room_frame(r, after, r.dev_size, next, end);
    } else {
        reveal_with_fuel(has_room_from, 1);
    }
}

impl VhdxReader {
    /// Whether a write of `len` bytes at `offset` can go through. It cannot when a BAT entry
    /// that has to change straddles two sectors, which no placement of the BAT on the 8-byte
    /// grid brings about, and when the device would have to reach past the 64-bit range.
    pub fn has_room_for(&self, offset: u64, len: usize) -> (r: bool)
        requires
            self.wf(),
        ensures
            r == has_room(self@, offset as int, len as int),
    {
        if !self.is_writable() {
            return true;
        }
        if self.check_access(offset, len).is_err() {
            return true;
        }
        proof {
            reveal_with_fuel(has_room_from, 1);
        }
        if len == 0 {
            return true;
        }
        let end: u64 = offset + len as u64;
        let block_size: u128 = self.block_size() as u128;
        let ghost bs = block_size as int;
        let mut cursor: u64 = offset;
        let mut dev_size: u128 = self.device_size() as u128;
        while cursor < end
            invariant
                self.wf(),
                self@.writable,
                access_fault(self@.geometry.virtual_size as int, offset as int, len as int) is None,
                bs == self@.geometry.block_size,
                block_size == bs,
                offset <= cursor <= end,
                end == offset + len,
                end <= self@.geometry.virtual_size,
                dev_size <= u64::MAX,
                has_room_from(self@, dev_size as int, cursor as int, end as int) == has_room_from(
                    self@,
                    self@.dev_size,
                    offset as int,
                    end as int,
                ),
            decreases end - cursor,
        {
            proof {
                reveal_with_fuel(has_room_from, 1);
            }
            let n: u64 = self.piece_at(cursor, end);
            let index: usize = self.index_at(cursor);
            let entry: BatEntry = self.bat_entry_at(index);
            if entry.state.zero_fill() {
                if self.bat_entry_offset(index) % 4096 > 4088 {
                    return false;
                }
                proof {
                    lemma_tail_block(dev_size as int, bs);
                }
                let over: u128 = dev_size % block_size;
                let tail: u128 = if over == 0 {
                    dev_size
                } else {
                    dev_size + (block_size - over)
                };
                if tail + block_size > u64::MAX as u128 {
                    return false;
                }
                dev_size = tail + block_size;
            } else if entry.state == PayloadState::FullyPresent {
                let in_block: u64 = cursor % self.block_size() as u64;
                let reach: u128 = entry.file_offset as u128 + in_block as u128 + n as u128;
                if reach > u64::MAX as u128 {
                    return false;
                }
                if reach > dev_size {
                    dev_size = reach;
                }
            } else {
                return true;
            }
            cursor = cursor + n;
        }
        true
    }

    /// Write `data` at virtual `offset`. Behaviour by BAT state:
    ///
    /// - `FullyPresent`: direct write through to the existing host block. Where the BAT names a
    ///   place past the end of the device, the device grows.
    /// - `NotPresent` / `Undefined` / `Zero` / `Unmapped`: allocate a fresh host block at the
    ///   device tail, zero-init it, journal the BAT mutation through the log, publish the BAT
    ///   entry on disk, then write the payload at the in-block offset.
    /// - `PartiallyPresent`: refused. The block has payload on disk whose valid sectors are
    ///   described by a bitmap that is not walked here; a fresh block would discard them.
    pub fn write_at<'a>(&mut self, offset: u64, data: &'a [u8]) -> (step: WriteStep<'a>)
        requires
            old(self).wf(),
            has_room(old(self)@, offset as int, data@.len() as int),
        ensures
            final(self).wf(),
            step.belongs_to(final(self)@),
            forall|disk: Seq<u8>|
                #[trigger] step.outcome(Volume { reader: final(self)@, disk }) == wrote(
                    Volume { reader: old(self)@, disk },
                    offset as int,
                    data@,
                ),
    {
        if !self.is_writable() {
            return WriteStep::Done(Err(Error::ReadOnly));
        }
        if let Err(why) = self.check_access(offset, data.len()) {
            return WriteStep::Done(Err(why));
        }
        if data.len() == 0 {
            proof {
                reveal_with_fuel(wrote_from, 1);
            }
            return WriteStep::Done(Ok(()));
        }
        next_piece(self, offset, data, offset)
    }
}

/// Go on with the piece at `cursor`.
fn next_piece<'a>(
    reader: &mut VhdxReader,
    offset: u64,
    data: &'a [u8],
    cursor: u64,
) -> (step: WriteStep<'a>)
    requires
        old(reader).wf(),
        offset <= cursor <= offset + data@.len(),
        offset + data@.len() <= old(reader)@.geometry.virtual_size,
        has_room_from(old(reader)@, old(reader)@.dev_size, cursor as int, offset + data@.len()),
    ensures
        final(reader).wf(),
        step.belongs_to(final(reader)@),
        step.steps_left() <= 8 * (offset + data@.len() - cursor) + 1,
        forall|disk: Seq<u8>|
            #[trigger] step.outcome(Volume { reader: final(reader)@, disk }) == wrote_from(
                Volume { reader: old(reader)@, disk },
                offset as int,
                data@,
                cursor as int,
            ),
{
    let end: u64 = offset + data.len() as u64;
    proof {
        reveal_with_fuel(wrote_from, 1);
        reveal_with_fuel(has_room_from, 1);
        reveal(outcome_at_payload);
    }
    if cursor >= end {
        return finish(offset, data);
    }
    proof {
        lemma_next_piece(reader@.geometry.block_size as int, cursor as int, end as int);
    }
    let index: usize = reader.index_at(cursor);
    let entry: BatEntry = reader.bat_entry_at(index);
    match entry.state {
        PayloadState::FullyPresent => pay(reader, offset, data, cursor, entry.file_offset),
        // Nothing on disk yet, or defined to read as zero: a fresh zero-initialised block is
        // exactly right.
        PayloadState::NotPresent
        | PayloadState::Undefined
        | PayloadState::Zero
        | PayloadState::Unmapped => allocate(reader, offset, data, cursor, index),
        PayloadState::PartiallyPresent => WriteStep::Done(
            Err(
                Error::Unsupported(
                    "write to a PartiallyPresent block (sector-bitmap walking not implemented)",
                ),
            ),
        ),
        PayloadState::Reserved(v) => WriteStep::Done(
            Err(Error::Unsupported(reserved_state_message(v))),
        ),
    }
}

/// Every piece was written: what was written is made durable.
fn finish<'a>(offset: u64, data: &'a [u8]) -> (step: WriteStep<'a>)
    ensures
        step.steps_left() == 1,
        forall|r: ReaderView| step.belongs_to(r),
        forall|v: Volume|
            #[trigger] step.outcome(v) == stopped(v, None).preceded_by(seq![OpView::Flush]),
{
    let mut ops: Vec<DeviceOp> = Vec::new();
    ops.push(DeviceOp::Flush);
    proof {
        assert(op_views(ops@) =~= seq![OpView::Flush]);
        assert forall|disk: Seq<u8>| #[trigger] after_ops(disk, op_views(ops@)) == disk by {
            lemma_after_one_op(disk, OpView::Flush);
        }
    }
    WriteStep::Apply(WriteApply { offset, data, ops, follow: Follow::Finish })
}

/// Write the payload of the piece at `cursor` to the block at `block`.
fn pay<'a>(
    reader: &VhdxReader,
    offset: u64,
    data: &'a [u8],
    cursor: u64,
    block: u64,
) -> (step: WriteStep<'a>)
    requires
        reader.wf(),
        offset <= cursor < offset + data@.len(),
        offset + data@.len() <= reader@.geometry.virtual_size,
        ({
            let bs = reader@.geometry.block_size as int;
            let end = offset + data@.len();
            let n = piece_length(bs, cursor as int, end);
            let reach = block + cursor as int % bs + n;
            &&& reach <= u64::MAX
            &&& has_room_from(reader@, stretched(reader@.dev_size, reach), cursor + n, end)
        }),
    ensures
        step.belongs_to(reader@),
        step.steps_left() <= 8 * (offset + data@.len() - cursor) - 6,
        forall|disk: Seq<u8>|
            #[trigger] step.outcome(Volume { reader: reader@, disk }) == outcome_at_payload(
                Volume { reader: reader@, disk },
                offset as int,
                data@,
                cursor as int,
                block as int,
            ),
{
    let end: u64 = offset + data.len() as u64;
    let n: u64 = reader.piece_at(cursor, end);
    let in_block: u64 = cursor % reader.block_size() as u64;
    let reach: u64 = block + in_block + n;
    let from: usize = (cursor - offset) as usize;
    let payload: Vec<u8> = slice_of(data, from, from + n as usize);
    let ghost op = OpView::Write { offset: block + in_block, data: payload@ };
    let mut ops: Vec<DeviceOp> = Vec::new();
    ops.push(DeviceOp::Write { offset: block + in_block, data: payload });
    proof {
        reveal(outcome_at_payload);
        assert(op_views(ops@) =~= seq![op]);
        assert forall|disk: Seq<u8>| #[trigger] after_ops(disk, op_views(ops@)) == performed(
            disk,
            op,
        ) by {
            lemma_after_one_op(disk, op);
        }
    }
    WriteStep::Apply(
        WriteApply { offset, data, ops, follow: Follow::Piece { cursor: cursor + n, reach } },
    )
}

/// Claim a block at the tail of the device for the piece at `cursor`, and zero it so that
/// what is not written reads as zeros.
fn allocate<'a>(
    reader: &mut VhdxReader,
    offset: u64,
    data: &'a [u8],
    cursor: u64,
    index: usize,
) -> (step: WriteStep<'a>)
    requires
        old(reader).wf(),
        offset <= cursor < offset + data@.len(),
        offset + data@.len() <= old(reader)@.geometry.virtual_size,
        index == bat_index(
            cursor as int / old(reader)@.geometry.block_size as int,
            old(reader)@.geometry.chunk_ratio(),
        ),
        index < old(reader)@.bat.len(),
        old(reader)@.bat[index as int].state.reads_as_zero(),
        has_room_from(old(reader)@, old(reader)@.dev_size, cursor as int, offset + data@.len()),
    ensures
        final(reader).wf(),
        step.belongs_to(final(reader)@),
        step.steps_left() <= 8 * (offset + data@.len() - cursor) + 1,
        forall|disk: Seq<u8>|
            #[trigger] step.outcome(Volume { reader: final(reader)@, disk }) == wrote_from(
                Volume { reader: old(reader)@, disk },
                offset as int,
                data@,
                cursor as int,
            ),
{
    let ghost before = reader@;
    let ghost bs = before.geometry.block_size as int;
    let ghost end = offset + data@.len();
    let ghost next = cursor + piece_length(bs, cursor as int, end);
    proof {
        lemma_next_piece(bs, cursor as int, end);
        lemma_tail_block(before.dev_size, bs);
        lemma_room_to_allocate(before, cursor as int, end);
    }
    let block: u64 = reader.claim_block();
    proof {
        lemma_room_frame(before, reader@, reader@.dev_size, next, end);
    }
    let ghost op = OpView::Zeros { offset: block as int, len: bs };
    let mut ops: Vec<DeviceOp> = Vec::new();
    ops.push(DeviceOp::Zeros { offset: block, len: reader.block_size() as u64 });
    ops.push(DeviceOp::Flush);
    proof {
        assert(op_views(ops@) =~= seq![op, OpView::Flush]);
        assert forall|disk: Seq<u8>| #[trigger] after_ops(disk, op_views(ops@)) == performed(
            disk,
            op,
        ) by {
            lemma_after_one_op(disk, op);
        }
        assert forall|disk: Seq<u8>| #[trigger] wrote_from(
            Volume { reader: before, disk },
            offset as int,
            data@,
            cursor as int,
        ) == outcome_at_sector(
            Volume { reader: reader@, disk: performed(disk, op) },
            offset as int,
            data@,
            cursor as int,
            index as int,
            block as int,
        ).preceded_by(seq![op, OpView::Flush]) by {
            lemma_wrote_by_allocating(
                Volume { reader: before, disk },
                offset as int,
                data@,
                cursor as int,
            );
        }
    }
    WriteStep::Apply(
        WriteApply { offset, data, ops, follow: Follow::Sector { cursor, index, block } },
    )
}

/// Plan to journal the BAT sector image `sector`, which lies at `at`. Without a usable log
/// there is nothing to do, and the write is not crash-safe.
fn journal_sector_write(reader: &VhdxReader, at: u64, sector: &[u8]) -> (ops: Vec<DeviceOp>)
    requires
        sector@.len() == 4096,
    ensures
        op_views(ops@) == journal_ops(reader@, at as int, sector@),
{
    let mut ops: Vec<DeviceOp> = Vec::new();
    let header: &Header = reader.active_header();
    if header.log_length < 8192 || header.log_offset == 0 {
        assert(op_views(ops@) =~= Seq::<OpView>::empty());
        return ops;
    }
    let next: Header = header_after(header);
    let dev_size: u64 = reader.device_size();
    let copy: Vec<u8> = slice_of(sector, 0, sector.len());
    assert(copy@ =~= sector@);
    let mut writes: Vec<PendingWrite> = Vec::new();
    writes.push(PendingWrite { file_offset: at, sector: copy });
    assert(write_views(writes@) =~= seq![WriteView { file_offset: at as int, sector: sector@ }]);
    assert(encoded_length(1) == 8192);
    let entry: Vec<u8> = encode_entry(
        next.sequence_number,
        0,
        &next.log_guid,
        dev_size,
        dev_size,
        writes.as_slice(),
    );
    ops.push(DeviceOp::Zeros { offset: header.log_offset, len: header.log_length as u64 });
    ops.push(DeviceOp::Flush);
    ops.push(DeviceOp::Write { offset: header.log_offset, data: entry });
    ops.push(DeviceOp::Flush);
    ops.push(DeviceOp::Write { offset: reader.next_slot().offset(), data: encode_header(&next) });
    ops.push(DeviceOp::Flush);
    assert(op_views(ops@) =~= journal_ops(reader@, at as int, sector@));
    ops
}

impl<'a> WriteRead<'a> {
    /// Answer the request with the bytes that were read: the BAT entry is put into the sector,
    /// and the change is journalled.
    pub fn supply(self, reader: &mut VhdxReader, bytes: Vec<u8>) -> (step: WriteStep<'a>)
        requires
            old(reader).wf(),
            self.belongs_to(old(reader)@),
            bytes@.len() == self.size(),
        ensures
            *final(reader) == *old(reader),
            step.belongs_to(final(reader)@),
            step.steps_left() < self.steps_left(),
            forall|disk: Seq<u8>|
                #![trigger step.outcome(Volume { reader: final(reader)@, disk })]
                #![trigger self.outcome(Volume { reader: old(reader)@, disk })]
                self.start() + self.size() <= disk.len() && disk.subrange(
                    self.start(),
                    self.start() + self.size(),
                ) == bytes@ ==> step.outcome(Volume { reader: final(reader)@, disk })
                    == self.outcome(Volume { reader: old(reader)@, disk }),
    {
        let mut sector: Vec<u8> = bytes;
        let mut raw: Vec<u8> = Vec::new();
        push_u64_le(&mut raw, BatEntry::encode_present(self.block));
        let in_sector: usize = (reader.bat_entry_offset(self.index) - self.at) as usize;
        assert(raw@ =~= le64_bytes(present_entry(self.block as int)));
        copy_into(&mut sector, in_sector, raw.as_slice());
        assert(sector@ == published_sector(
            reader@,
            bytes@,
            self.index as int,
            self.block as int,
        ));
        let ops: Vec<DeviceOp> = journal_sector_write(reader, self.at, sector.as_slice());
        proof {
            reveal(outcome_at_sector);
            reveal(outcome_at_publish);
        }
        WriteStep::Apply(
            WriteApply {
                offset: self.offset,
                data: self.data,
                ops,
                follow: Follow::Publish {
                    cursor: self.cursor,
                    index: self.index,
                    block: self.block,
                    sector,
                },
            },
        )
    }
}

/// Ask for the BAT sector of the piece at `cursor`.
fn ask_sector<'a>(
    reader: &VhdxReader,
    offset: u64,
    data: &'a [u8],
    cursor: u64,
    index: usize,
    block: u64,
) -> (step: WriteStep<'a>)
    requires
        reader.wf(),
        piece_claimed(
            reader@,
            offset as int,
            data@.len() as int,
            cursor as int,
            index as int,
            block as int,
        ),
    ensures
        step.belongs_to(reader@),
        step.steps_left() == 8 * (offset + data@.len() - cursor),
        forall|v: Volume|
            #[trigger] step.outcome(v) == outcome_at_sector(
                v,
                offset as int,
                data@,
                cursor as int,
                index as int,
                block as int,
            ),
{
    let entry_offset: u64 = reader.bat_entry_offset(index);
    let at: u64 = entry_offset - entry_offset % LOG_SECTOR_SIZE as u64;
    WriteStep::Read(WriteRead { offset, data, at, cursor, index, block })
}

/// Write the BAT sector image that was journalled in place.
fn publish<'a>(
    reader: &mut VhdxReader,
    offset: u64,
    data: &'a [u8],
    cursor: u64,
    index: usize,
    block: u64,
    sector: Vec<u8>,
) -> (step: WriteStep<'a>)
    requires
        old(reader).wf(),
        piece_claimed(
            old(reader)@,
            offset as int,
            data@.len() as int,
            cursor as int,
            index as int,
            block as int,
        ),
    ensures
        final(reader).wf(),
        step.belongs_to(final(reader)@),
        step.steps_left() == 8 * (offset + data@.len() - cursor) - 2,
        forall|disk: Seq<u8>|
            #[trigger] step.outcome(Volume { reader: final(reader)@, disk }) == outcome_at_publish(
                Volume { reader: old(reader)@, disk },
                offset as int,
                data@,
                cursor as int,
                index as int,
                block as int,
                sector@,
            ),
{
    let ghost before = reader@;
    let ghost bs = before.geometry.block_size as int;
    let ghost end = offset + data@.len();
    let entry_offset: u64 = reader.bat_entry_offset(index);
    let at: u64 = entry_offset - entry_offset % LOG_SECTOR_SIZE as u64;
    proof {
        reveal(outcome_at_publish);
        lemma_next_piece(bs, cursor as int, end);
        lemma_room_frame(
            before,
            before.journalled(),
            before.dev_size,
            cursor + piece_length(bs, cursor as int, end),
            end,
        );
    }
    reader.take_journalled_header();
    let ghost op = OpView::Write { offset: at as int, data: sector@ };
    let mut ops: Vec<DeviceOp> = Vec::new();
    ops.push(DeviceOp::Write { offset: at, data: sector });
    ops.push(DeviceOp::Flush);
    proof {
        assert(op_views(ops@) =~= seq![op, OpView::Flush]);
        assert forall|disk: Seq<u8>| #[trigger] after_ops(disk, op_views(ops@)) == performed(
            disk,
            op,
        ) by {
            lemma_after_one_op(disk, op);
        }
    }
    WriteStep::Apply(
        WriteApply { offset, data, ops, follow: Follow::Payload { cursor, index, block } },
    )
}

/// Take over the BAT entry that was published, and write the payload.
fn pay_new_block<'a>(
    reader: &mut VhdxReader,
    offset: u64,
    data: &'a [u8],
    cursor: u64,
    index: usize,
    block: u64,
) -> (step: WriteStep<'a>)
    requires
        old(reader).wf(),
        piece_claimed(
            old(reader)@,
            offset as int,
            data@.len() as int,
            cursor as int,
            index as int,
            block as int,
        ),
    ensures
        final(reader).wf(),
        step.belongs_to(final(reader)@),
        step.steps_left() <= 8 * (offset + data@.len() - cursor) - 6,
        forall|disk: Seq<u8>|
            #[trigger] step.outcome(Volume { reader: final(reader)@, disk }) == outcome_at_payload(
                Volume { reader: old(reader)@.with_block(index as int, block as int), disk },
                offset as int,
                data@,
                cursor as int,
                block as int,
            ),
{
    proof {
        lemma_next_piece(
            reader@.geometry.block_size as int,
            cursor as int,
            offset + data@.len(),
        );
        lemma_room_after_publishing(
            reader@,
            cursor as int,
            offset + data@.len(),
            index as int,
            block as int,
        );
    }
    reader.take_block(index, block);
    pay(reader, offset, data, cursor, block)
}

impl<'a> WriteApply<'a> {
    /// Go on once the operations were carried out.
    pub fn applied(self, reader: &mut VhdxReader) -> (step: WriteStep<'a>)
        requires
            old(reader).wf(),
            self.belongs_to(old(reader)@),
        ensures
            final(reader).wf(),
            step.belongs_to(final(reader)@),
            step.steps_left() < self.steps_left(),
            forall|disk: Seq<u8>|
                #![trigger step.outcome(Volume { reader: final(reader)@, disk })]
                #![trigger self.outcome_after(Volume { reader: old(reader)@, disk })]
                step.outcome(Volume { reader: final(reader)@, disk }) == self.outcome_after(
                    Volume { reader: old(reader)@, disk },
                ),
    {
        let offset: u64 = self.offset;
        let data: &'a [u8] = self.data;
        match self.follow {
            Follow::Piece { cursor, reach } => {
                proof {
                    lemma_room_frame(
                        reader@,
                        reader@.reaching(reach as int),
                        stretched(reader@.dev_size, reach as int),
                        cursor as int,
                        offset + data@.len(),
                    );
                }
                reader.reach(reach);
                next_piece(reader, offset, data, cursor)
            },
            Follow::Sector { cursor, index, block } => ask_sector(
                reader,
                offset,
                data,
                cursor,
                index,
                block,
            ),
            Follow::Publish { cursor, index, block, sector } => publish(
                reader,
                offset,
                data,
                cursor,
                index,
                block,
                sector,
            ),
            Follow::Payload { cursor, index, block } => pay_new_block(
                reader,
                offset,
                data,
                cursor,
                index,
                block,
            ),
            Follow::Finish => WriteStep::Done(Ok(())),
        }
    }
}

/// What is left of a write is counted down to zero.
pub proof fn lemma_write_steps_are_counted(step: WriteStep<'_>, r: ReaderView)
    requires
        step.belongs_to(r),
    ensures
        0 <= step.steps_left(),
{
}

} // verus!

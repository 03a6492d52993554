//! What an opened image and its device hold together: the contents of the virtual disk, what
//! a read gives back, and what a write changes.
use crate::bat::{bat_entry, bat_index, bat_index_is_strictly_increasing, present_entry};
use crate::bat::{present_entry_decodes_back, BatEntry, PayloadState};
use crate::bytes::{splice, zeros};
use crate::device::{after_ops, lemma_after_one_op, lemma_after_ops_split, lemma_after_three_ops};
use crate::device::OpView;
use crate::header::{header_bytes, lemma_header_length, HeaderView};
use crate::layout::lemma_geometry;
use crate::log::encode::{lemma_entry_length, whole_sectors, EntryFields, WriteView};
use crate::reader::{access_fault, has_room_to_journal, lemma_index_in_bat, lemma_tail_block};
use crate::reader::{next_header, piece_length, tail_block, ReadPiece, ReaderView, Source};
use crate::write::{accepted_until, allocated, allocation_ops, append_op, appended, commit_ops};
use crate::write::{entry_in_one_sector, has_room, has_room_from, journal_entry, journal_ops};
use crate::write::{journalled, lemma_next_piece, lemma_rest_after_allocating};
use crate::write::{lemma_rest_after_paying, paid, payment_op, piece_end, published};
use crate::write::{published_sector, stretched, wrote, wrote_from, Volume};
use vstd::prelude::*;

pub mod access;
pub mod room;
pub mod steps;

verus! {

/// The byte `at` of the virtual disk: what its block holds on the device, or zero when the
/// block is not there. Zero also stands for a byte that the device does not reach, which no read
/// gives: it is refused.
pub open spec fn virtual_byte(v: Volume, at: int) -> u8 {
    let entry = v.reader.entry_at(at);
    let host = entry.file_offset + at % v.reader.geometry.block_size as int;
    if entry.state is FullyPresent && host < v.disk.len() {
        v.disk[host]
    } else {
        0
    }
}

/// The contents of the virtual disk.
pub open spec fn contents(v: Volume) -> Seq<u8> {
    Seq::new(v.reader.geometry.virtual_size as nat, |at: int| virtual_byte(v, at))
}

/// The bytes of a piece of a read.
pub open spec fn piece_bytes(piece: ReadPiece, disk: Seq<u8>) -> Seq<u8> {
    match piece.source {
        Source::Zeros => zeros(piece.len as nat),
        Source::Host(host) => disk.subrange(host as int, host + piece.len),
    }
}

/// A buffer once the pieces of a read were filled in, in order.
pub open spec fn filled(buf: Seq<u8>, pieces: Seq<ReadPiece>, disk: Seq<u8>) -> Seq<u8>
    decreases pieces.len(),
{
    if pieces.len() == 0 {
        buf
    } else {
        filled(
            splice(buf, pieces[0].at as int, piece_bytes(pieces[0], disk)),
            pieces.drop_first(),
            disk,
        )
    }
}

/// Every byte of a piece lies in one block.
pub proof fn lemma_piece_in_block(bs: int, cursor: int, end: int, i: int)
    requires
        0 < bs,
        0 <= cursor < end,
        0 <= i < piece_length(bs, cursor, end),
    ensures
        (cursor + i) / bs == cursor / bs,
        (cursor + i) % bs == cursor % bs + i,
{
    lemma_next_piece(bs, cursor, end);
    let q = cursor / bs;
    let m = cursor % bs;
    vstd::arithmetic::div_mod::lemma_fundamental_div_mod(cursor, bs);
    vstd::arithmetic::div_mod::lemma_mod_bound(cursor, bs);
    assert(cursor + i == q * bs + (m + i)) by (nonlinear_arith)
        requires
            cursor == bs * q + m,
    ;
    vstd::arithmetic::div_mod::lemma_fundamental_div_mod_converse(cursor + i, bs, q, m + i);
}

/// The bytes of a piece are the bytes of the virtual disk that it stands for.
proof fn lemma_piece_bytes(v: Volume, cursor: int, end: int, source: Source)
    requires
        v.reader.wf(),
        v.disk.len() == v.reader.dev_size,
        0 <= cursor < end <= v.reader.geometry.virtual_size,
        v.reader.source_of(
            cursor,
            piece_length(v.reader.geometry.block_size as int, cursor, end),
        ) == Ok::<Source, crate::error::Error>(source),
        piece_length(v.reader.geometry.block_size as int, cursor, end) <= usize::MAX,
    ensures
        ({
            let n = piece_length(v.reader.geometry.block_size as int, cursor, end);
            piece_bytes(ReadPiece { at: 0, len: n as usize, source }, v.disk) == contents(
                v,
            ).subrange(cursor, cursor + n)
        }),
{
    let bs = v.reader.geometry.block_size as int;
    let n = piece_length(bs, cursor, end);
    let bytes = piece_bytes(ReadPiece { at: 0, len: n as usize, source }, v.disk);
    let want = contents(v).subrange(cursor, cursor + n);
    lemma_next_piece(bs, cursor, end);
    assert(bytes.len() == n);
    assert forall|i: int| 0 <= i < n implies #[trigger] bytes[i] == want[i] by {
        lemma_piece_in_block(bs, cursor, end, i);
        assert(want[i] == virtual_byte(v, cursor + i));
    }
    assert(bytes =~= want);
}

/// What the pieces of a read from `cursor` on put into the buffer.
proof fn lemma_filled(v: Volume, buf: Seq<u8>, offset: int, cursor: int, end: int)
    requires
        v.reader.wf(),
        v.disk.len() == v.reader.dev_size,
        0 <= offset <= cursor <= end <= v.reader.geometry.virtual_size,
        end - offset <= usize::MAX,
        buf.len() == end - offset,
        v.reader.refusal_from(cursor, end) is None,
    ensures
        filled(buf, v.reader.pieces_from(offset, cursor, end), v.disk) == splice(
            buf,
            cursor - offset,
            contents(v).subrange(cursor, end),
        ),
    decreases end - cursor,
{
    let bs = v.reader.geometry.block_size as int;
    let n = piece_length(bs, cursor, end);
    let pieces = v.reader.pieces_from(offset, cursor, end);
    let whole = contents(v);
    if cursor < end {
        lemma_next_piece(bs, cursor, end);
        let source = v.reader.source_of(cursor, n)->Ok_0;
        let piece = ReadPiece { at: (cursor - offset) as usize, len: n as usize, source };
        let rest = v.reader.pieces_from(offset, cursor + n, end);
        let next = splice(buf, cursor - offset, piece_bytes(piece, v.disk));
        lemma_piece_bytes(v, cursor, end, source);
        assert(pieces =~= seq![piece] + rest);
        assert(pieces.drop_first() =~= rest);
        lemma_filled(v, next, offset, cursor + n, end);
        lemma_splices_meet(buf, cursor - offset, whole.subrange(cursor, end), n);
        assert(whole.subrange(cursor, end).subrange(0, n) =~= whole.subrange(cursor, cursor + n));
        assert(whole.subrange(cursor, end).subrange(n, end - cursor) =~= whole.subrange(
            cursor + n,
            end,
        ));
    } else {
        assert(splice(buf, cursor - offset, whole.subrange(cursor, end)) =~= buf);
    }
}

/// Splicing in the first `n` bytes of `t` and then the rest splices in `t`.
pub proof fn lemma_splices_meet(s: Seq<u8>, at: int, t: Seq<u8>, n: int)
    requires
        0 <= at,
        0 <= n <= t.len(),
    ensures
        splice(splice(s, at, t.subrange(0, n)), at + n, t.subrange(n, t.len() as int)) == splice(
            s,
            at,
            t,
        ),
{
    assert(splice(splice(s, at, t.subrange(0, n)), at + n, t.subrange(n, t.len() as int)) =~= splice(
        s,
        at,
        t,
    ));
}

/// What a read gives back: a read that is not refused fills the buffer with the contents of
/// the virtual disk at its offset.
pub proof fn read_gives_the_contents(v: Volume, buf: Seq<u8>, offset: int)
    requires
        v.reader.wf(),
        v.disk.len() == v.reader.dev_size,
        0 <= offset,
        buf.len() <= usize::MAX,
        offset + buf.len() <= v.reader.geometry.virtual_size,
        v.reader.refusal_from(offset, offset + buf.len()) is None,
    ensures
        filled(
            buf,
            v.reader.pieces_from(offset, offset, offset + buf.len()),
            v.disk,
        ) == contents(v).subrange(offset, offset + buf.len()),
{
    let end = offset + buf.len();
    lemma_filled(v, buf, offset, offset, end);
    assert(splice(buf, 0, contents(v).subrange(offset, end)) =~= contents(v).subrange(offset, end));
}

/// Whether two spans of the device, each given by offset and length, have no byte in common.
pub open spec fn apart(a: int, a_len: int, b: int, b_len: int) -> bool {
    a + a_len <= b || b + b_len <= a
}

impl ReaderView {
    /// Whether `block` is a block of the virtual disk that lies on the device.
    pub open spec fn has_block(self, block: int) -> bool {
        &&& 0 <= block
        &&& block * self.geometry.block_size < self.geometry.virtual_size
        &&& self.bat[bat_index(block, self.geometry.chunk_ratio())].state is FullyPresent
    }

    /// Where a block of the virtual disk lies on the device.
    pub open spec fn host_of(self, block: int) -> int {
        self.bat[bat_index(block, self.geometry.chunk_ratio())].file_offset as int
    }

    /// Whether the byte `at` of the virtual disk can be read: its block reads as zero, or the
    /// byte is stored on the device.
    pub open spec fn readable(self, at: int) -> bool {
        self.source_of(at, 1) is Ok
    }
}

/// Whether a block lies apart from the header section, the BAT and the log.
pub open spec fn block_is_apart(r: ReaderView, block: int) -> bool {
    let bs = r.geometry.block_size as int;
    &&& 0x10_0000 <= r.host_of(block)
    &&& forall|i: int|
        0 <= i < r.bat.len() ==> apart(
            r.host_of(block),
            bs,
            #[trigger] r.sector_position(i),
            4096,
        )
    &&& has_room_to_journal(r.header) ==> apart(
        r.host_of(block),
        bs,
        r.header.log_offset,
        r.header.log_length,
    )
}

/// Whether the blocks of a volume lie apart from the structures that a write changes. One whose
/// BAT names a place inside a structure does not, and a write to it then changes the structure.
pub open spec fn blocks_clear(v: Volume) -> bool {
    let r = v.reader;
    &&& r.wf()
    &&& v.disk.len() == r.dev_size
    &&& has_room_to_journal(r.header) ==> 0x10_0000 <= r.header.log_offset && r.header.log_offset
        + r.header.log_length <= r.dev_size
    &&& forall|b: int| #[trigger] r.has_block(b) ==> block_is_apart(r, b)
}

/// Whether the blocks of a volume lie apart from each other and from the structures that a
/// write changes. Images that writers produce are like this; one whose BAT names the same place
/// twice is not, and what it holds at one address then changes with a write to another.
pub open spec fn blocks_apart(v: Volume) -> bool {
    let r = v.reader;
    let bs = r.geometry.block_size as int;
    &&& blocks_clear(v)
    &&& forall|b: int, c: int|
        #[trigger] r.has_block(b) && #[trigger] r.has_block(c) && b != c ==> apart(
            r.host_of(b),
            bs,
            r.host_of(c),
            bs,
        )
}

/// Whether every block of a volume lies inside a device of `dev_size` bytes.
pub open spec fn blocks_within(r: ReaderView, dev_size: int) -> bool {
    forall|b: int| #[trigger] r.has_block(b) ==> r.host_of(b) + r.geometry.block_size <= dev_size
}

/// Whether every block of a volume lies inside the device.
pub open spec fn blocks_inside(r: ReaderView) -> bool {
    blocks_within(r, r.dev_size)
}

/// Whether a new block at `place` would lie apart from the blocks that are there.
pub open spec fn place_is_free(r: ReaderView, place: int) -> bool {
    let bs = r.geometry.block_size as int;
    forall|b: int| #[trigger] r.has_block(b) ==> apart(r.host_of(b), bs, place, bs)
}

/// Whether the places that a write from `cursor` to `end` claims for new blocks, on a device that
/// has grown to `dev_size` bytes, lie apart from the blocks that are there. A BAT may name a place
/// past the end of the device, and a block that is allocated there would be one with it.
#[verifier::opaque]
pub open spec fn claims_free_from(r: ReaderView, dev_size: int, cursor: int, end: int) -> bool
    decreases end - cursor,
{
    let bs = r.geometry.block_size as int;
    let n = piece_length(bs, cursor, end);
    let state = r.entry_at(cursor).state;
    if cursor >= end || n <= 0 {
        true
    } else if state.reads_as_zero() {
        &&& place_is_free(r, tail_block(dev_size, bs))
        &&& claims_free_from(r, tail_block(dev_size, bs) + bs, cursor + n, end)
    } else if state is FullyPresent {
        claims_free_from(r, stretched(dev_size, piece_end(r, cursor, n)), cursor + n, end)
    } else {
        true
    }
}

/// Whether the places that a write of `len` bytes at `offset` claims for new blocks lie apart from
/// the blocks that are there: see [`claims_free_from`].
pub open spec fn claims_are_free(r: ReaderView, offset: int, len: int) -> bool {
    claims_free_from(r, r.dev_size, offset, offset + len)
}

/// Claims that are free of the blocks of `a` are free of those of `b`, as far as these are blocks
/// of `a` or lie before the claims.
proof fn lemma_claims_frame(a: ReaderView, b: ReaderView, dev_size: int, cursor: int, end: int)
    requires
        a.wf(),
        a.geometry == b.geometry,
        0 <= cursor,
        end <= a.geometry.virtual_size,
        0 <= dev_size,
        forall|at: int| cursor <= at < end ==> #[trigger] a.entry_at(at) == b.entry_at(at),
        forall|c: int| #[trigger]
            b.has_block(c) ==> a.has_block(c) && a.host_of(c) == b.host_of(c) || b.host_of(c)
                + b.geometry.block_size <= dev_size,
        claims_free_from(a, dev_size, cursor, end),
    ensures
        claims_free_from(b, dev_size, cursor, end),
    decreases end - cursor,
{
    reveal_with_fuel(claims_free_from, 1);
    let bs = a.geometry.block_size as int;
    let n = piece_length(bs, cursor, end);
    if cursor < end && n > 0 {
        assert(a.entry_at(cursor) == b.entry_at(cursor));
        let state = a.entry_at(cursor).state;
        if state.reads_as_zero() {
            lemma_tail_block(dev_size, bs);
            lemma_claims_frame(a, b, tail_block(dev_size, bs) + bs, cursor + n, end);
        } else if state is FullyPresent {
            let grown = stretched(dev_size, piece_end(a, cursor, n));
            lemma_claims_frame(a, b, grown, cursor + n, end);
        }
    }
}

/// Where every block lies inside the device, what a write claims is free.
proof fn lemma_blocks_within_leave_claims_free(
    r: ReaderView,
    dev_size: int,
    cursor: int,
    end: int,
)
    requires
        r.wf(),
        0 <= cursor,
        0 <= dev_size,
        blocks_within(r, dev_size),
    ensures
        claims_free_from(r, dev_size, cursor, end),
    decreases end - cursor,
{
    reveal_with_fuel(claims_free_from, 1);
    let bs = r.geometry.block_size as int;
    let n = piece_length(bs, cursor, end);
    if cursor < end && n > 0 {
        let state = r.entry_at(cursor).state;
        if state.reads_as_zero() {
            lemma_tail_block(dev_size, bs);
            let grown = tail_block(dev_size, bs) + bs;
            lemma_blocks_within_leave_claims_free(r, grown, cursor + n, end);
        } else if state is FullyPresent {
            let grown = stretched(dev_size, piece_end(r, cursor, n));
            lemma_blocks_within_leave_claims_free(r, grown, cursor + n, end);
        }
    }
}

/// The block that holds a byte of the virtual disk.
pub proof fn lemma_block_of(r: ReaderView, at: int)
    requires
        r.wf(),
        0 <= at < r.geometry.virtual_size,
    ensures
        ({
            let bs = r.geometry.block_size as int;
            &&& 0 <= at / bs
            &&& at / bs * bs <= at
            &&& at / bs * bs < r.geometry.virtual_size
            &&& 0 <= at % bs < bs
            &&& at == at / bs * bs + at % bs
        }),
{
    let bs = r.geometry.block_size as int;
    vstd::arithmetic::div_mod::lemma_fundamental_div_mod(at, bs);
    vstd::arithmetic::div_mod::lemma_mod_bound(at, bs);
    assert(0 <= at / bs) by (nonlinear_arith)
        requires
            0 <= at,
            0 < bs,
    ;
    assert(at / bs * bs == bs * (at / bs)) by (nonlinear_arith);
}

/// The BAT has an entry for every block of the virtual disk.
pub proof fn lemma_block_in_bat(r: ReaderView, block: int)
    requires
        r.wf(),
        0 <= block,
        block * r.geometry.block_size < r.geometry.virtual_size,
    ensures
        0 <= bat_index(block, r.geometry.chunk_ratio()) < r.bat.len(),
{
    let bs = r.geometry.block_size as int;
    assert(0 <= block * bs) by (nonlinear_arith)
        requires
            0 <= block,
            0 < bs,
    ;
    lemma_index_in_bat(r, block * bs);
    vstd::arithmetic::div_mod::lemma_div_multiples_vanish(block, bs);
    assert(block * bs == bs * block) by (nonlinear_arith);
}

/// Writing the payload of a piece moves no block.
pub proof fn lemma_paid_clear(v: Volume, offset: int, data: Seq<u8>, cursor: int)
    requires
        blocks_clear(v),
        0 <= offset <= cursor < offset + data.len() <= v.reader.geometry.virtual_size,
        v.reader.entry_at(cursor).state is FullyPresent,
        piece_end(
            v.reader,
            cursor,
            piece_length(v.reader.geometry.block_size as int, cursor, offset + data.len()),
        ) <= u64::MAX,
    ensures
        ({
            let r = v.reader;
            let n = piece_length(r.geometry.block_size as int, cursor, offset + data.len());
            let after = paid(v, offset, data, cursor, r.entry_at(cursor).file_offset as int);
            &&& blocks_clear(after)
            &&& after.reader == r.reaching(piece_end(r, cursor, n))
            &&& forall|b: int| #[trigger]
                after.reader.has_block(b) ==> r.has_block(b) && after.reader.host_of(b)
                    == r.host_of(b)
        }),
{
    let r = v.reader;
    let bs = r.geometry.block_size as int;
    let end = offset + data.len();
    let n = piece_length(bs, cursor, end);
    let after = paid(v, offset, data, cursor, r.entry_at(cursor).file_offset as int);
    let s = after.reader;
    lemma_next_piece(bs, cursor, end);
    lemma_block_of(r, cursor);
    assert forall|b: int| #[trigger] s.has_block(b) implies r.has_block(b) && block_is_apart(
        s,
        b,
    ) by {
        assert(r.has_block(b));
        assert(block_is_apart(r, b));
        assert forall|i: int| 0 <= i < s.bat.len() implies apart(
            s.host_of(b),
            bs,
            #[trigger] s.sector_position(i),
            4096,
        ) by {
            assert(s.sector_position(i) == r.sector_position(i));
        }
    }
}

/// Writing the payload of a piece changes exactly the bytes of the virtual disk that the piece
/// stands for, and moves no block.
pub proof fn lemma_paid(v: Volume, offset: int, data: Seq<u8>, cursor: int)
    requires
        blocks_apart(v),
        0 <= offset <= cursor < offset + data.len() <= v.reader.geometry.virtual_size,
        v.reader.entry_at(cursor).state is FullyPresent,
        piece_end(
            v.reader,
            cursor,
            piece_length(v.reader.geometry.block_size as int, cursor, offset + data.len()),
        ) <= u64::MAX,
    ensures
        ({
            let bs = v.reader.geometry.block_size as int;
            let n = piece_length(bs, cursor, offset + data.len());
            let after = paid(v, offset, data, cursor, v.reader.entry_at(cursor).file_offset as int);
            &&& blocks_apart(after)
            &&& after.reader == v.reader.reaching(piece_end(v.reader, cursor, n))
            &&& contents(after) == splice(
                contents(v),
                cursor,
                data.subrange(cursor - offset, cursor - offset + n),
            )
        }),
{
    let r = v.reader;
    let bs = r.geometry.block_size as int;
    let end = offset + data.len();
    let n = piece_length(bs, cursor, end);
    let host = r.entry_at(cursor).file_offset as int;
    let chunk = data.subrange(cursor - offset, cursor - offset + n);
    let after = paid(v, offset, data, cursor, host);
    lemma_paid_clear(v, offset, data, cursor);
    lemma_next_piece(bs, cursor, end);
    lemma_block_of(r, cursor);
    let b = cursor / bs;
    assert(r.has_block(b));
    assert(block_is_apart(r, b));
    let want = splice(contents(v), cursor, chunk);
    assert forall|at: int| 0 <= at < r.geometry.virtual_size implies #[trigger] contents(after)[at]
        == want[at] by {
        lemma_block_of(r, at);
        let c = at / bs;
        if cursor <= at < cursor + n {
            lemma_piece_in_block(bs, cursor, end, at - cursor);
        } else if r.has_block(c) {
            assert(block_is_apart(r, c));
            if c == b {
                assert(at % bs == at - b * bs);
                assert(cursor % bs == cursor - b * bs);
            } else {
                assert(apart(r.host_of(b), bs, r.host_of(c), bs));
            }
        }
    }
    assert(contents(after) =~= want);
}

/// Where the entry that is allocated for lies, and what lies behind it.
pub proof fn lemma_sector_before_tail(r: ReaderView, index: int)
    requires
        r.wf(),
        0 <= index < r.bat.len(),
    ensures
        ({
            let bs = r.geometry.block_size as int;
            let block = tail_block(r.dev_size, bs);
            &&& 0 <= r.sector_position(index)
            &&& r.sector_position(index) + 4096 <= block
            &&& r.dev_size <= block
            &&& block % 0x10_0000 == 0
            &&& 0x10_0000 <= block
        }),
{
    let bs = r.geometry.block_size as int;
    let block = tail_block(r.dev_size, bs);
    lemma_geometry(r.geometry);
    lemma_tail_block(r.dev_size, bs);
    let q = block / bs;
    let k = bs / 0x10_0000;
    vstd::arithmetic::div_mod::lemma_fundamental_div_mod(block, bs);
    assert(block == (q * k) * 0x10_0000) by (nonlinear_arith)
        requires
            block == bs * q,
            bs == 0x10_0000 * k,
    ;
    let m = q * k;
    assert(block == m * 0x10_0000);
    assert(block % 0x10_0000 == 0);
    let p = r.sector_position(index);
    assert(p <= r.entry_position(index) < block);
    assert(p % 4096 == 0);
}

/// What journalling changes on the device: the log region and one header slot.
pub proof fn lemma_journal_frame(r: ReaderView, disk: Seq<u8>, at: int, sector: Seq<u8>)
    requires
        r.wf(),
        disk.len() == r.dev_size,
        0 <= at <= u64::MAX,
        sector.len() == 4096,
        has_room_to_journal(r.header) ==> 0x10_0000 <= r.header.log_offset && r.header.log_offset
            + r.header.log_length <= r.dev_size,
    ensures
        after_ops(disk, journal_ops(r, at, sector)).len() == disk.len(),
        forall|k: int|
            0 <= k < disk.len() && !(has_room_to_journal(r.header) && (r.header.log_offset <= k
                < r.header.log_offset + r.header.log_length
                || r.active_slot.opposite().position() <= k
                < r.active_slot.opposite().position() + 4096)) ==> #[trigger] after_ops(
                disk,
                journal_ops(r, at, sector),
            )[k] == disk[k],
{
    let ops = journal_ops(r, at, sector);
    if has_room_to_journal(r.header) {
        lemma_journal_entry_length(r, at, sector);
        lemma_next_header_fits(r.header);
        lemma_header_length(next_header(r.header));
        lemma_after_three_ops(
            disk,
            OpView::Zeros { offset: r.header.log_offset, len: r.header.log_length },
            OpView::Write { offset: r.header.log_offset, data: journal_entry(r, at, sector) },
            OpView::Write {
                offset: r.active_slot.opposite().position(),
                data: header_bytes(next_header(r.header)),
            },
        );
    } else {
        assert(after_ops(disk, ops) == disk);
    }
}

/// The header that follows a header has fields of the right widths.
pub proof fn lemma_next_header_fits(h: HeaderView)
    requires
        h.fits(),
    ensures
        next_header(h).fits(),
{
}

/// A journal entry takes two sectors.
pub proof fn lemma_journal_entry_length(r: ReaderView, at: int, sector: Seq<u8>)
    requires
        r.wf(),
        0 <= at <= u64::MAX,
        sector.len() == 4096,
    ensures
        journal_entry(r, at, sector).len() == 8192,
{
    let writes = seq![WriteView { file_offset: at, sector }];
    lemma_next_header_fits(r.header);
    assert(whole_sectors(writes));
    lemma_entry_length(
        EntryFields {
            sequence_number: next_header(r.header).sequence_number,
            tail: 0,
            log_guid: next_header(r.header).log_guid,
            flushed_file_offset: r.dev_size,
            last_file_offset: r.dev_size,
        },
        writes,
    );
}

/// What allocating a block changes on the device, besides the new block: the log region, one
/// header slot, and the BAT sector.
pub proof fn lemma_allocated_frame(v: Volume, index: int)
    requires
        v.reader.wf(),
        v.disk.len() == v.reader.dev_size,
        0 <= index < v.reader.bat.len(),
        entry_in_one_sector(v.reader, index),
        v.reader.grown().dev_size <= u64::MAX,
        has_room_to_journal(v.reader.header) ==> 0x10_0000 <= v.reader.header.log_offset
            && v.reader.header.log_offset + v.reader.header.log_length <= v.reader.dev_size,
    ensures
        ({
            let r = v.reader;
            let bs = r.geometry.block_size as int;
            let block = tail_block(r.dev_size, bs);
            let disk = allocated(v, index).disk;
            let slot = r.active_slot.opposite().position();
            &&& disk.len() == block + bs
            &&& allocated(v, index).reader == r.grown().journalled().with_block(index, block)
            &&& forall|k: int|
                r.dev_size <= k < block + bs && !(r.sector_position(index) <= k
                    < r.sector_position(index) + 4096) ==> #[trigger] disk[k] == 0
            &&& forall|k: int|
                0 <= k < r.dev_size && !(r.sector_position(index) <= k < r.sector_position(index)
                    + 4096) && !(has_room_to_journal(r.header) && (r.header.log_offset <= k
                    < r.header.log_offset + r.header.log_length || slot <= k < slot + 4096))
                    ==> #[trigger] disk[k] == v.disk[k]
        }),
{
    let r = v.reader;
    let bs = r.geometry.block_size as int;
    let block = tail_block(r.dev_size, bs);
    lemma_geometry(r.geometry);
    lemma_tail_block(r.dev_size, bs);
    lemma_sector_before_tail(r, index);
    let a = appended(v);
    let at = a.reader.sector_position(index);
    let sector = published_sector(a.reader, a.disk.subrange(at, at + 4096), index, block);
    assert(a.disk.len() == block + bs);
    assert(sector.len() == 4096);
    lemma_journal_frame(a.reader, a.disk, at, sector);
    let j = journalled(a, index, sector);
    let p = published(j, index, block, sector);
    assert(p.disk.len() == block + bs);
    assert(allocated(v, index) == p);
}

/// Allocating a block leaves the blocks clear of the structures.
pub proof fn lemma_allocated_clear(v: Volume, cursor: int)
    requires
        blocks_clear(v),
        0 <= cursor < v.reader.geometry.virtual_size,
        v.reader.entry_at(cursor).state.reads_as_zero(),
        entry_in_one_sector(
            v.reader,
            bat_index(
                cursor / v.reader.geometry.block_size as int,
                v.reader.geometry.chunk_ratio(),
            ),
        ),
        v.reader.grown().dev_size <= u64::MAX,
    ensures
        ({
            let r = v.reader;
            let bs = r.geometry.block_size as int;
            let block = tail_block(r.dev_size, bs);
            let index = bat_index(cursor / bs, r.geometry.chunk_ratio());
            let after = allocated(v, index);
            let s = after.reader;
            &&& blocks_clear(after)
            &&& s == r.grown().journalled().with_block(index, block)
            &&& s.dev_size == block + bs
            &&& s.entry_at(cursor).state is FullyPresent
            &&& s.entry_at(cursor).file_offset == block
            &&& s.has_block(cursor / bs)
            &&& s.host_of(cursor / bs) == block
            &&& forall|c: int| #[trigger]
                s.has_block(c) && c != cursor / bs ==> r.has_block(c) && s.host_of(c) == r.host_of(
                    c,
                )
            &&& forall|at: int|
                0 <= at < r.geometry.virtual_size && at / bs != cursor / bs ==> #[trigger]
                s.entry_at(at) == r.entry_at(at)
        }),
{
    let r = v.reader;
    let bs = r.geometry.block_size as int;
    let cr = r.geometry.chunk_ratio();
    let b = cursor / bs;
    let index = bat_index(b, cr);
    let block = tail_block(r.dev_size, bs);
    let after = allocated(v, index);
    lemma_geometry(r.geometry);
    lemma_index_in_bat(r, cursor);
    lemma_block_of(r, cursor);
    lemma_tail_block(r.dev_size, bs);
    lemma_sector_before_tail(r, index);
    lemma_allocated_frame(v, index);
    present_entry_decodes_back(block as u64);
    let s = after.reader;
    assert(s.bat[index] == bat_entry(present_entry(block)));
    assert(s.host_of(b) == block);
    // Every other block keeps its entry.
    assert forall|c: int| c != b && 0 <= c && c * bs < r.geometry.virtual_size implies
        #[trigger] s.bat[bat_index(c, cr)] == r.bat[bat_index(c, cr)] by {
        lemma_other_index(r, b, c);
        lemma_block_in_bat(r, c);
    }
    assert forall|c: int| #[trigger] s.has_block(c) implies block_is_apart(s, c) by {
        lemma_apart_after_allocating(v, s, b, c);
    }
    assert forall|at: int| 0 <= at < r.geometry.virtual_size && at / bs != b implies #[trigger]
        s.entry_at(at) == r.entry_at(at) by {
        lemma_block_of(r, at);
        assert(s.bat[bat_index(at / bs, cr)] == r.bat[bat_index(at / bs, cr)]);
    }
}

/// Allocating a block for a piece that reads as zero changes nothing that is read, and the new
/// block lies apart from everything else.
pub proof fn lemma_allocated(v: Volume, cursor: int)
    requires
        blocks_apart(v),
        0 <= cursor < v.reader.geometry.virtual_size,
        v.reader.entry_at(cursor).state.reads_as_zero(),
        entry_in_one_sector(
            v.reader,
            bat_index(
                cursor / v.reader.geometry.block_size as int,
                v.reader.geometry.chunk_ratio(),
            ),
        ),
        v.reader.grown().dev_size <= u64::MAX,
        place_is_free(
            v.reader,
            tail_block(v.reader.dev_size, v.reader.geometry.block_size as int),
        ),
    ensures
        ({
            let bs = v.reader.geometry.block_size as int;
            let index = bat_index(cursor / bs, v.reader.geometry.chunk_ratio());
            let after = allocated(v, index);
            &&& blocks_apart(after)
            &&& contents(after) == contents(v)
            &&& blocks_inside(v.reader) ==> blocks_inside(after.reader)
            &&& forall|at: int|
                0 <= at < v.reader.geometry.virtual_size && v.reader.readable(at)
                    ==> #[trigger] after.reader.readable(at)
        }),
{
    let r = v.reader;
    let bs = r.geometry.block_size as int;
    let b = cursor / bs;
    let index = bat_index(b, r.geometry.chunk_ratio());
    let block = tail_block(r.dev_size, bs);
    let after = allocated(v, index);
    lemma_allocated_clear(v, cursor);
    lemma_index_in_bat(r, cursor);
    lemma_block_of(r, cursor);
    lemma_tail_block(r.dev_size, bs);
    lemma_sector_before_tail(r, index);
    lemma_allocated_frame(v, index);
    lemma_readable_after_allocating(r, after.reader, b);
    assert forall|at: int| 0 <= at < r.geometry.virtual_size implies #[trigger] contents(after)[at]
        == contents(v)[at] by {
        lemma_block_of(r, at);
        let c = at / bs;
        if c != b {
            assert(after.reader.entry_at(at) == r.entry_at(at));
            if r.has_block(c) {
                assert(block_is_apart(r, c));
                assert(apart(r.host_of(c), bs, r.sector_position(index), 4096));
                assert(apart(r.host_of(c), bs, block, bs));
                let k = r.host_of(c) + at % bs;
                if k < r.dev_size {
                    assert(after.disk[k] == v.disk[k]);
                } else if k < block + bs {
                    assert(after.disk[k] == 0);
                }
            }
        } else {
            let k = block + at % bs;
            assert(after.disk[k] == 0);
        }
    }
    assert(contents(after) =~= contents(v));
}

/// After an allocation for block `b`, what could be read still can be.
proof fn lemma_readable_after_allocating(r: ReaderView, s: ReaderView, b: int)
    requires
        r.wf(),
        s == r.grown().journalled().with_block(
            bat_index(b, r.geometry.chunk_ratio()),
            tail_block(r.dev_size, r.geometry.block_size as int),
        ),
        s.has_block(b),
        s.host_of(b) == tail_block(r.dev_size, r.geometry.block_size as int),
    ensures
        forall|at: int|
            0 <= at < r.geometry.virtual_size && r.readable(at) ==> #[trigger] s.readable(at),
{
    let bs = r.geometry.block_size as int;
    lemma_tail_block(r.dev_size, bs);
    lemma_block_in_bat(r, b);
    assert forall|at: int|
        0 <= at < r.geometry.virtual_size && r.readable(at) implies #[trigger] s.readable(at) by {
        lemma_block_of(r, at);
        if at / bs != b {
            lemma_other_index(r, b, at / bs);
            lemma_block_in_bat(r, at / bs);
            assert(s.entry_at(at) == r.entry_at(at));
        }
    }
}


/// Different blocks have different entries.
pub proof fn lemma_other_index(r: ReaderView, b: int, c: int)
    requires
        r.wf(),
        0 <= b,
        0 <= c,
        b != c,
    ensures
        bat_index(b, r.geometry.chunk_ratio()) != bat_index(c, r.geometry.chunk_ratio()),
{
    lemma_geometry(r.geometry);
    if b < c {
        bat_index_is_strictly_increasing(b, c, r.geometry.chunk_ratio());
    } else {
        bat_index_is_strictly_increasing(c, b, r.geometry.chunk_ratio());
    }
}

/// After an allocation for block `b`, block `c` still lies apart from the structures.
proof fn lemma_apart_after_allocating(v: Volume, s: ReaderView, b: int, c: int)
    requires
        blocks_clear(v),
        s == v.reader.grown().journalled().with_block(
            bat_index(b, v.reader.geometry.chunk_ratio()),
            tail_block(v.reader.dev_size, v.reader.geometry.block_size as int),
        ),
        0 <= b,
        0 <= bat_index(b, v.reader.geometry.chunk_ratio()) < v.reader.bat.len(),
        s.host_of(b) == tail_block(v.reader.dev_size, v.reader.geometry.block_size as int),
        s.has_block(c),
    ensures
        block_is_apart(s, c),
{
    let r = v.reader;
    let bs = r.geometry.block_size as int;
    let index = bat_index(b, r.geometry.chunk_ratio());
    let block = tail_block(r.dev_size, bs);
    lemma_tail_block(r.dev_size, bs);
    lemma_sector_before_tail(r, index);
    assert(s.geometry == r.geometry && s.bat_region_off == r.bat_region_off);
    assert(s.dev_size == block + bs);
    assert(s.header.log_offset == r.header.log_offset);
    assert(s.header.log_length == r.header.log_length);
    if c != b {
        lemma_other_index(r, b, c);
        lemma_block_in_bat(r, c);
        assert(r.has_block(c));
        assert(block_is_apart(r, c));
    }
    assert(0x10_0000 <= s.host_of(c));
    assert(has_room_to_journal(s.header) ==> apart(
        s.host_of(c),
        bs,
        s.header.log_offset,
        s.header.log_length,
    ));
    assert forall|i: int| 0 <= i < s.bat.len() implies apart(
        s.host_of(c),
        bs,
        #[trigger] s.sector_position(i),
        4096,
    ) by {
        assert(s.sector_position(i) == r.sector_position(i));
        lemma_sector_before_tail(r, i);
    }
}

/// What a write changes from `cursor` on.
proof fn lemma_wrote_from(v: Volume, offset: int, data: Seq<u8>, cursor: int)
    requires
        blocks_apart(v),
        0 <= offset <= cursor <= offset + data.len() <= v.reader.geometry.virtual_size,
        has_room_from(v.reader, v.reader.dev_size, cursor, offset + data.len()),
        claims_free_from(v.reader, v.reader.dev_size, cursor, offset + data.len()),
    ensures
        ({
            let r = v.reader;
            let w = wrote_from(v, offset, data, cursor);
            let s = w.volume.reader;
            let taken = accepted_until(r, cursor, offset + data.len());
            &&& cursor <= taken <= offset + data.len()
            &&& w.failure is None <==> taken == offset + data.len()
            &&& blocks_apart(w.volume)
            &&& blocks_inside(r) ==> blocks_inside(s)
            &&& s.geometry == r.geometry
            &&& contents(w.volume) == splice(
                contents(v),
                cursor,
                data.subrange(cursor - offset, taken - offset),
            )
            &&& forall|at: int|
                0 <= at < r.geometry.virtual_size && (cursor <= at < taken || r.readable(at))
                    ==> #[trigger] s.readable(at)
        }),
    decreases offset + data.len() - cursor, 1int,
{
    reveal_with_fuel(wrote_from, 1);
    reveal_with_fuel(accepted_until, 1);
    let r = v.reader;
    let bs = r.geometry.block_size as int;
    let end = offset + data.len();
    let n = piece_length(bs, cursor, end);
    let index = bat_index(cursor / bs, r.geometry.chunk_ratio());
    let taken = accepted_until(r, cursor, end);
    if cursor >= end {
        assert(splice(contents(v), cursor, data.subrange(cursor - offset, taken - offset))
            =~= contents(v));
    } else {
        lemma_next_piece(bs, cursor, end);
        if r.bat[index].state.reads_as_zero() {
            let a = allocated(v, index);
            lemma_rest_after_allocating(r, cursor, end);
            lemma_claims_after_allocating(v, cursor, end);
            lemma_allocated_clear(v, cursor);
            lemma_allocated(v, cursor);
            lemma_tail_block(r.dev_size, bs);
            lemma_wrote_on(v, a, offset, data, cursor);
        } else if r.bat[index].state is FullyPresent {
            lemma_rest_after_paying(r, cursor, end);
            lemma_claims_after_paying(r, cursor, end);
            lemma_wrote_on(v, v, offset, data, cursor);
        } else {
            assert(splice(contents(v), cursor, data.subrange(cursor - offset, taken - offset))
                =~= contents(v));
        }
    }
}

/// What a write still claims once a block was allocated for the piece at `cursor`.
pub proof fn lemma_claims_after_allocating(v: Volume, cursor: int, end: int)
    requires
        blocks_clear(v),
        0 <= cursor < end <= v.reader.geometry.virtual_size,
        v.reader.entry_at(cursor).state.reads_as_zero(),
        entry_in_one_sector(
            v.reader,
            bat_index(
                cursor / v.reader.geometry.block_size as int,
                v.reader.geometry.chunk_ratio(),
            ),
        ),
        v.reader.grown().dev_size <= u64::MAX,
        claims_free_from(v.reader, v.reader.dev_size, cursor, end),
    ensures
        ({
            let r = v.reader;
            let bs = r.geometry.block_size as int;
            let index = bat_index(cursor / bs, r.geometry.chunk_ratio());
            let s = allocated(v, index).reader;
            &&& place_is_free(r, tail_block(r.dev_size, bs))
            &&& claims_free_from(s, s.dev_size, cursor + piece_length(bs, cursor, end), end)
        }),
{
    reveal_with_fuel(claims_free_from, 1);
    let r = v.reader;
    let bs = r.geometry.block_size as int;
    let index = bat_index(cursor / bs, r.geometry.chunk_ratio());
    let s = allocated(v, index).reader;
    let next = cursor + piece_length(bs, cursor, end);
    lemma_next_piece(bs, cursor, end);
    lemma_tail_block(r.dev_size, bs);
    lemma_allocated_clear(v, cursor);
    if next < end {
        assert forall|at: int| next <= at < end implies #[trigger] r.entry_at(at) == s.entry_at(
            at,
        ) by {
            assert(next / bs <= at / bs) by (nonlinear_arith)
                requires
                    next <= at,
                    0 < bs,
            ;
            assert(s.entry_at(at) == r.entry_at(at));
        }
        lemma_claims_frame(r, s, s.dev_size, next, end);
    }
}

/// What a write still claims once the piece at `cursor` was written to its block.
pub proof fn lemma_claims_after_paying(r: ReaderView, cursor: int, end: int)
    requires
        r.wf(),
        0 <= cursor < end <= r.geometry.virtual_size,
        r.entry_at(cursor).state is FullyPresent,
        claims_free_from(r, r.dev_size, cursor, end),
    ensures
        ({
            let n = piece_length(r.geometry.block_size as int, cursor, end);
            let s = r.reaching(piece_end(r, cursor, n));
            claims_free_from(s, s.dev_size, cursor + n, end)
        }),
{
    reveal_with_fuel(claims_free_from, 1);
    let n = piece_length(r.geometry.block_size as int, cursor, end);
    let s = r.reaching(piece_end(r, cursor, n));
    lemma_next_piece(r.geometry.block_size as int, cursor, end);
    assert forall|at: int| cursor + n <= at < end implies #[trigger] r.entry_at(at) == s.entry_at(
        at,
    ) by {}
    assert forall|c: int| #[trigger] s.has_block(c) implies r.has_block(c) && r.host_of(c)
        == s.host_of(c) by {}
    lemma_claims_frame(r, s, s.dev_size, cursor + n, end);
}

/// What a write changes from `cursor` on, once `a` has a block for the piece there and holds
/// what `v` held.
proof fn lemma_wrote_on(v: Volume, a: Volume, offset: int, data: Seq<u8>, cursor: int)
    requires
        blocks_apart(v),
        blocks_apart(a),
        blocks_inside(v.reader) ==> blocks_inside(a.reader),
        a.reader.geometry == v.reader.geometry,
        contents(a) == contents(v),
        0 <= offset <= cursor < offset + data.len() <= v.reader.geometry.virtual_size,
        a.reader.entry_at(cursor).state is FullyPresent,
        forall|at: int|
            0 <= at < v.reader.geometry.virtual_size && v.reader.readable(at)
                ==> #[trigger] a.reader.readable(at),
        ({
            let end = offset + data.len();
            let n = piece_length(a.reader.geometry.block_size as int, cursor, end);
            let s = a.reader.reaching(piece_end(a.reader, cursor, n));
            &&& piece_end(a.reader, cursor, n) <= u64::MAX
            &&& has_room_from(s, s.dev_size, cursor + n, end)
            &&& claims_free_from(s, s.dev_size, cursor + n, end)
        }),
    ensures
        ({
            let end = offset + data.len();
            let bs = v.reader.geometry.block_size as int;
            let n = piece_length(bs, cursor, end);
            let p = paid(a, offset, data, cursor, a.reader.entry_at(cursor).file_offset as int);
            let w = wrote_from(p, offset, data, cursor + n);
            let s = w.volume.reader;
            let taken = accepted_until(p.reader, cursor + n, end);
            &&& cursor + n <= taken <= end
            &&& p.reader == a.reader.reaching(piece_end(a.reader, cursor, n))
            &&& w.failure is None <==> taken == end
            &&& blocks_apart(w.volume)
            &&& blocks_inside(v.reader) ==> blocks_inside(s)
            &&& s.geometry == v.reader.geometry
            &&& contents(w.volume) == splice(
                contents(v),
                cursor,
                data.subrange(cursor - offset, taken - offset),
            )
            &&& forall|at: int|
                0 <= at < v.reader.geometry.virtual_size && (cursor <= at < taken
                    || v.reader.readable(at)) ==> #[trigger] s.readable(at)
        }),
    decreases offset + data.len() - cursor, 0int,
{
    let end = offset + data.len();
    let bs = v.reader.geometry.block_size as int;
    let n = piece_length(bs, cursor, end);
    let next = cursor + n;
    let p = paid(a, offset, data, cursor, a.reader.entry_at(cursor).file_offset as int);
    let w = wrote_from(p, offset, data, next);
    let taken = accepted_until(p.reader, next, end);
    lemma_next_piece(bs, cursor, end);
    lemma_paid_clear(a, offset, data, cursor);
    lemma_paid(a, offset, data, cursor);
    lemma_wrote_from(p, offset, data, next);
    let part = data.subrange(cursor - offset, taken - offset);
    lemma_splices_meet(contents(v), cursor, part, n);
    assert(part.subrange(0, n) =~= data.subrange(cursor - offset, cursor - offset + n));
    assert(part.subrange(n, part.len() as int) =~= data.subrange(next - offset, taken - offset));
    assert forall|at: int|
        0 <= at < v.reader.geometry.virtual_size && (cursor <= at < taken || v.reader.readable(
            at,
        )) implies #[trigger] w.volume.reader.readable(at) by {
        if cursor <= at < next {
            lemma_piece_in_block(bs, cursor, end, at - cursor);
            assert(p.reader.entry_at(at) == p.reader.entry_at(cursor));
            assert(p.reader.readable(at));
        } else if v.reader.readable(at) {
            assert(a.reader.readable(at));
            assert(p.reader.readable(at));
        }
    }
}

/// A range is read without refusal exactly when each of its bytes can be read.
pub proof fn lemma_readable_range(r: ReaderView, cursor: int, end: int)
    requires
        r.wf(),
        0 <= cursor <= end <= r.geometry.virtual_size,
    ensures
        r.refusal_from(cursor, end) is None <==> forall|at: int|
            cursor <= at < end ==> #[trigger] r.readable(at),
    decreases end - cursor,
{
    let bs = r.geometry.block_size as int;
    if cursor < end {
        let n = piece_length(bs, cursor, end);
        lemma_next_piece(bs, cursor, end);
        lemma_readable_range(r, cursor + n, end);
        assert forall|at: int| cursor <= at < cursor + n implies r.entry_at(at) == r.entry_at(
            cursor,
        ) && #[trigger] r.readable(at) == (r.source_of(cursor, at - cursor + 1) is Ok) by {
            lemma_piece_in_block(bs, cursor, end, at - cursor);
        }
        assert(r.readable(cursor + n - 1) == (r.source_of(cursor, n) is Ok));
    }
}

impl ReaderView {
    /// Whether a block counts in a write from `from` to `to`: the write touches it, or part of it
    /// can be read.
    pub open spec fn counts(self, block: int, from: int, to: int) -> bool {
        let bs = self.geometry.block_size as int;
        ||| self.host_of(block) < self.dev_size
        ||| from < block * bs + bs && block * bs < to
    }

    /// The reader with only those blocks that count in a write from `from` to `to`. The others
    /// are places past the end of the device, which nothing reads.
    pub open spec fn seen_in(self, from: int, to: int) -> ReaderView {
        let cr = self.geometry.chunk_ratio();
        ReaderView {
            bat: Seq::new(
                self.bat.len(),
                |i: int|
                    if exists|b: int| #[trigger]
                        self.has_block(b) && bat_index(b, cr) == i && !self.counts(b, from, to) {
                        BatEntry { state: PayloadState::NotPresent, file_offset: 0 }
                    } else {
                        self.bat[i]
                    },
            ),
            ..self
        }
    }
}

/// What the blocks are that count in a write.
proof fn lemma_seen(r: ReaderView, from: int, to: int)
    requires
        r.wf(),
    ensures
        r.seen_in(from, to).wf(),
        forall|b: int| #[trigger]
            r.seen_in(from, to).has_block(b) ==> r.has_block(b) && r.seen_in(from, to).host_of(b)
                == r.host_of(b) && r.counts(b, from, to),
        forall|at: int|
            0 <= at < r.geometry.virtual_size && (from <= at < to || r.readable(at))
                ==> #[trigger] r.seen_in(from, to).entry_at(at) == r.entry_at(at),
{
    let f = r.seen_in(from, to);
    let bs = r.geometry.block_size as int;
    let cr = r.geometry.chunk_ratio();
    assert forall|b: int| #[trigger] f.has_block(b) implies r.has_block(b) && f.host_of(b)
        == r.host_of(b) && r.counts(b, from, to) by {
        lemma_block_in_bat(r, b);
        assert(r.has_block(b));
    }
    assert forall|at: int|
        0 <= at < r.geometry.virtual_size && (from <= at < to || r.readable(at)) implies #[trigger]
        f.entry_at(at) == r.entry_at(at) by {
        lemma_block_of(r, at);
        let c = at / bs;
        lemma_block_in_bat(r, c);
        if exists|b: int| #[trigger]
            r.has_block(b) && bat_index(b, cr) == bat_index(c, cr) && !r.counts(b, from, to) {
            let b = choose|b: int| #[trigger]
                r.has_block(b) && bat_index(b, cr) == bat_index(c, cr) && !r.counts(b, from, to);
            if b != c {
                lemma_other_index(r, b, c);
            }
            assert(!r.counts(c, from, to));
            assert(r.entry_at(at).state is FullyPresent);
        }
    }
}

/// Whether two readers differ in their BATs at most, and not in the entries `keep`.
spec fn alike(a: ReaderView, b: ReaderView, keep: Set<int>) -> bool {
    &&& b == (ReaderView { bat: b.bat, ..a })
    &&& a.bat.len() == b.bat.len()
    &&& forall|i: int| 0 <= i < a.bat.len() && #[trigger] keep.contains(i) ==> a.bat[i] == b.bat[i]
}

/// Allocating a block is a matter of the entry that it is for.
proof fn lemma_allocated_alike(v: Volume, f: Volume, keep: Set<int>, index: int)
    requires
        alike(v.reader, f.reader, keep),
        v.disk == f.disk,
        0 <= index < v.reader.bat.len(),
    ensures
        alike(allocated(v, index).reader, allocated(f, index).reader, keep),
        allocated(v, index).disk == allocated(f, index).disk,
        allocation_ops(v, index) == allocation_ops(f, index),
{
    let a = appended(v);
    let g = appended(f);
    assert(a.disk == g.disk);
    let at = a.reader.sector_position(index);
    let block = tail_block(v.reader.dev_size, v.reader.geometry.block_size as int);
    let sector = published_sector(a.reader, a.disk.subrange(at, at + 4096), index, block);
    assert(journal_entry(a.reader, at, sector) == journal_entry(g.reader, at, sector));
    assert(journal_ops(a.reader, at, sector) == journal_ops(g.reader, at, sector));
}

/// A write is a matter of the BAT entries of its blocks.
proof fn lemma_wrote_alike(
    v: Volume,
    f: Volume,
    keep: Set<int>,
    offset: int,
    data: Seq<u8>,
    cursor: int,
)
    requires
        v.reader.wf(),
        alike(v.reader, f.reader, keep),
        v.disk == f.disk,
        0 <= offset <= cursor <= offset + data.len() <= v.reader.geometry.virtual_size,
        has_room_from(v.reader, v.reader.dev_size, cursor, offset + data.len()),
        forall|at: int|
            cursor <= at < offset + data.len() ==> #[trigger] keep.contains(
                bat_index(
                    at / v.reader.geometry.block_size as int,
                    v.reader.geometry.chunk_ratio(),
                ),
            ),
    ensures
        ({
            let w = wrote_from(v, offset, data, cursor);
            let x = wrote_from(f, offset, data, cursor);
            let end = offset + data.len();
            &&& alike(w.volume.reader, x.volume.reader, keep)
            &&& w.volume.disk == x.volume.disk
            &&& w.failure == x.failure
            &&& accepted_until(v.reader, cursor, end) == accepted_until(f.reader, cursor, end)
            &&& has_room_from(f.reader, f.reader.dev_size, cursor, end)
            &&& w.volume.reader.geometry == v.reader.geometry
            &&& w.volume.reader.wf()
            &&& w.volume.reader.bat.len() == v.reader.bat.len()
        }),
    decreases offset + data.len() - cursor,
{
    reveal_with_fuel(wrote_from, 1);
    reveal_with_fuel(accepted_until, 1);
    reveal_with_fuel(has_room_from, 1);
    let r = v.reader;
    let bs = r.geometry.block_size as int;
    let end = offset + data.len();
    let n = piece_length(bs, cursor, end);
    let index = bat_index(cursor / bs, r.geometry.chunk_ratio());
    let next = cursor + n;
    if cursor < end {
        lemma_next_piece(bs, cursor, end);
        lemma_index_in_bat(r, cursor);
        assert(keep.contains(index));
        assert(r.bat[index] == f.reader.bat[index]);
        if r.bat[index].state.reads_as_zero() {
            let block = tail_block(r.dev_size, bs);
            lemma_tail_block(r.dev_size, bs);
            lemma_allocated_alike(v, f, keep, index);
            let a = paid(allocated(v, index), offset, data, cursor, block);
            let b = paid(allocated(f, index), offset, data, cursor, block);
            lemma_rest_after_allocating(r, cursor, end);
            lemma_next_header_fits(r.header);
            assert(allocated(v, index).reader == r.grown().journalled().with_block(index, block));
            assert(a.reader == allocated(v, index).reader);
            assert(a.reader.wf());
            lemma_wrote_alike(a, b, keep, offset, data, next);
            lemma_room_alike(r, f.reader, keep, r.grown().dev_size, next, end);
        } else if r.bat[index].state is FullyPresent {
            let host = r.bat[index].file_offset as int;
            let a = paid(v, offset, data, cursor, host);
            let b = paid(f, offset, data, cursor, host);
            lemma_rest_after_paying(r, cursor, end);
            assert(a.reader == r.reaching(piece_end(r, cursor, n)));
            lemma_wrote_alike(a, b, keep, offset, data, next);
            lemma_room_alike(r, f.reader, keep, a.reader.dev_size, next, end);
        }
    }
}

/// Whether a write can go through, and how far it gets, is a matter of the BAT entries of its
/// blocks.
proof fn lemma_room_alike(
    a: ReaderView,
    b: ReaderView,
    keep: Set<int>,
    dev_size: int,
    cursor: int,
    end: int,
)
    requires
        a.wf(),
        alike(a, b, keep),
        0 <= cursor,
        end <= a.geometry.virtual_size,
        forall|at: int|
            cursor <= at < end ==> #[trigger] keep.contains(
                bat_index(at / a.geometry.block_size as int, a.geometry.chunk_ratio()),
            ),
        has_room_from(a, dev_size, cursor, end),
    ensures
        has_room_from(b, dev_size, cursor, end),
        accepted_until(a, cursor, end) == accepted_until(b, cursor, end),
    decreases end - cursor,
{
    reveal_with_fuel(accepted_until, 1);
    reveal_with_fuel(has_room_from, 1);
    let bs = a.geometry.block_size as int;
    let n = piece_length(bs, cursor, end);
    let index = bat_index(cursor / bs, a.geometry.chunk_ratio());
    if cursor < end {
        lemma_next_piece(bs, cursor, end);
        lemma_index_in_bat(a, cursor);
        assert(keep.contains(index));
        assert(a.bat[index] == b.bat[index]);
        if a.bat[index].state.reads_as_zero() {
            lemma_room_alike(a, b, keep, tail_block(dev_size, bs) + bs, cursor + n, end);
        } else if a.bat[index].state is FullyPresent {
            let grown = stretched(dev_size, piece_end(a, cursor, n));
            lemma_room_alike(a, b, keep, grown, cursor + n, end);
        }
    }
}

/// Where every block lies inside the device, what a write claims is free, of all blocks and of
/// those that count.
pub proof fn blocks_inside_leave_claims_free(r: ReaderView, offset: int, len: int)
    requires
        r.wf(),
        blocks_inside(r),
        0 <= offset,
    ensures
        claims_are_free(r, offset, len),
        claims_are_free(r.seen_in(offset, offset + len), offset, len),
{
    let f = r.seen_in(offset, offset + len);
    lemma_seen(r, offset, offset + len);
    lemma_blocks_within_leave_claims_free(r, r.dev_size, offset, offset + len);
    assert(blocks_within(f, r.dev_size));
    lemma_blocks_within_leave_claims_free(f, r.dev_size, offset, offset + len);
}

/// What a write changes of what can be read: every byte that could be read, or that the write
/// took, can be read afterwards; it holds the byte that was written, up to the first block that
/// takes no writes, and otherwise what it held. The write succeeds exactly when there is no such
/// block.
///
/// What the write claims for new blocks has to be free of the blocks that it touches and of those
/// that can be read.
pub proof fn write_changes_exactly_its_range(v: Volume, offset: int, data: Seq<u8>)
    requires
        blocks_apart(v),
        v.reader.writable,
        0 <= offset,
        offset + data.len() <= v.reader.geometry.virtual_size,
        has_room(v.reader, offset, data.len() as int),
        claims_are_free(
            v.reader.seen_in(offset, offset + data.len()),
            offset,
            data.len() as int,
        ),
    ensures
        ({
            let r = v.reader;
            let w = wrote(v, offset, data);
            let s = w.volume.reader;
            let taken = accepted_until(r, offset, offset + data.len());
            &&& offset <= taken <= offset + data.len()
            &&& w.failure is None <==> taken == offset + data.len()
            &&& s.geometry == r.geometry
            &&& s.wf()
            &&& w.volume.disk.len() == s.dev_size
            &&& forall|at: int|
                0 <= at < r.geometry.virtual_size && (offset <= at < taken || r.readable(at))
                    ==> #[trigger] s.readable(at) && contents(w.volume)[at] == splice(
                    contents(v),
                    offset,
                    data.take(taken - offset),
                )[at]
        }),
{
    let r = v.reader;
    let bs = r.geometry.block_size as int;
    let cr = r.geometry.chunk_ratio();
    let end = offset + data.len();
    let f = Volume { reader: r.seen_in(offset, end), disk: v.disk };
    let keep = Set::new(|i: int| r.bat[i] == f.reader.bat[i]);
    let taken = accepted_until(r, offset, end);
    if data.len() == 0 {
        reveal_with_fuel(accepted_until, 1);
        assert(splice(contents(v), offset, data.take(0)) =~= contents(v));
    } else {
        let w = wrote_from(v, offset, data, offset).volume;
        let x = wrote_from(f, offset, data, offset).volume;
        lemma_seen(r, offset, end);
        lemma_seen_apart(v, offset, end);
        assert forall|at: int| offset <= at < end implies #[trigger] keep.contains(
            bat_index(at / bs, cr),
        ) by {
            assert(f.reader.entry_at(at) == r.entry_at(at));
        }
        lemma_wrote_alike(v, f, keep, offset, data, offset);
        lemma_wrote_from(f, offset, data, offset);
        assert(data.take(taken - offset) =~= data.subrange(0, taken - offset));
        assert forall|at: int|
            0 <= at < r.geometry.virtual_size && (offset <= at < taken || r.readable(
                at,
            )) implies #[trigger] w.reader.readable(at) && contents(w)[at] == splice(
            contents(v),
            offset,
            data.take(taken - offset),
        )[at] by {
            lemma_block_of(r, at);
            lemma_block_in_bat(r, at / bs);
            assert(f.reader.entry_at(at) == r.entry_at(at));
            assert(keep.contains(bat_index(at / bs, cr)));
            assert(x.reader.entry_at(at) == w.reader.entry_at(at));
            assert(r.readable(at) == f.reader.readable(at));
            assert(x.reader.readable(at));
            assert(contents(w)[at] == contents(x)[at]);
            assert(contents(v)[at] == contents(f)[at]);
        }
    }
}

/// The blocks that count lie apart if all blocks do.
proof fn lemma_seen_apart(v: Volume, from: int, to: int)
    requires
        blocks_apart(v),
    ensures
        blocks_apart(Volume { reader: v.reader.seen_in(from, to), disk: v.disk }),
{
    let r = v.reader;
    let f = r.seen_in(from, to);
    lemma_seen(r, from, to);
    assert forall|b: int| #[trigger] f.has_block(b) implies block_is_apart(f, b) by {
        assert(r.has_block(b));
        assert(block_is_apart(r, b));
        assert forall|i: int| 0 <= i < f.bat.len() implies apart(
            f.host_of(b),
            f.geometry.block_size as int,
            #[trigger] f.sector_position(i),
            4096,
        ) by {
            assert(f.sector_position(i) == r.sector_position(i));
        }
    }
    assert forall|b: int, c: int|
        #[trigger] f.has_block(b) && #[trigger] f.has_block(c) && b != c implies apart(
        f.host_of(b),
        f.geometry.block_size as int,
        f.host_of(c),
        f.geometry.block_size as int,
    ) by {
        assert(r.has_block(b) && r.has_block(c));
    }
}

/// What a write changes of the whole virtual disk, where what it claims for new blocks is free of
/// all blocks: the contents take the bytes written and change nowhere else, and the blocks still
/// lie apart afterwards, and inside the device if they did before.
pub proof fn write_leaves_the_blocks_apart(v: Volume, offset: int, data: Seq<u8>)
    requires
        blocks_apart(v),
        v.reader.writable,
        0 <= offset,
        offset + data.len() <= v.reader.geometry.virtual_size,
        has_room(v.reader, offset, data.len() as int),
        claims_are_free(v.reader, offset, data.len() as int),
    ensures
        ({
            let r = v.reader;
            let w = wrote(v, offset, data);
            let taken = accepted_until(r, offset, offset + data.len());
            &&& offset <= taken <= offset + data.len()
            &&& w.failure is None <==> taken == offset + data.len()
            &&& contents(w.volume) == splice(contents(v), offset, data.take(taken - offset))
            &&& w.volume.reader.geometry == r.geometry
            &&& blocks_apart(w.volume)
            &&& blocks_inside(r) ==> blocks_inside(w.volume.reader)
        }),
{
    let taken = accepted_until(v.reader, offset, offset + data.len());
    lemma_wrote_from(v, offset, data, offset);
    assert(data.take(taken - offset) =~= data.subrange(0, taken - offset));
}

/// What a read gives back of a write: after a write that succeeded, a read of the same range is
/// not refused and fills the buffer with the bytes that were written.
pub proof fn read_gives_back_what_was_written(
    v: Volume,
    offset: int,
    data: Seq<u8>,
    buf: Seq<u8>,
)
    requires
        blocks_apart(v),
        v.reader.writable,
        0 <= offset,
        offset + data.len() <= v.reader.geometry.virtual_size,
        has_room(v.reader, offset, data.len() as int),
        claims_are_free(
            v.reader.seen_in(offset, offset + data.len()),
            offset,
            data.len() as int,
        ),
        wrote(v, offset, data).failure is None,
        buf.len() == data.len(),
        data.len() <= usize::MAX,
    ensures
        ({
            let w = wrote(v, offset, data).volume;
            let end = offset + data.len();
            &&& w.reader.refusal_from(offset, end) is None
            &&& filled(buf, w.reader.pieces_from(offset, offset, end), w.disk) == data
        }),
{
    let w = wrote(v, offset, data).volume;
    let end = offset + data.len();
    write_changes_exactly_its_range(v, offset, data);
    lemma_readable_range(w.reader, offset, end);
    read_gives_the_contents(w, buf, offset);
    assert(data.take(data.len() as int) =~= data);
    assert forall|i: int| 0 <= i < data.len() implies #[trigger] contents(w).subrange(
        offset,
        end,
    )[i] == data[i] by {
        assert(w.reader.readable(offset + i));
    }
    assert(contents(w).subrange(offset, end) =~= data);
}

/// What a write leaves of every other read: a read that goes through before the write goes through
/// after it, and gives what it gave, but for the bytes that the write took.
pub proof fn write_leaves_other_reads_alone(
    v: Volume,
    offset: int,
    data: Seq<u8>,
    at: int,
    buf: Seq<u8>,
)
    requires
        blocks_apart(v),
        v.reader.writable,
        0 <= offset,
        offset + data.len() <= v.reader.geometry.virtual_size,
        has_room(v.reader, offset, data.len() as int),
        claims_are_free(
            v.reader.seen_in(offset, offset + data.len()),
            offset,
            data.len() as int,
        ),
        0 <= at,
        at + buf.len() <= v.reader.geometry.virtual_size,
        buf.len() <= usize::MAX,
        v.reader.refusal_from(at, at + buf.len()) is None,
    ensures
        ({
            let r = v.reader;
            let w = wrote(v, offset, data).volume;
            let end = at + buf.len();
            let taken = accepted_until(r, offset, offset + data.len());
            let before = filled(buf, r.pieces_from(at, at, end), v.disk);
            let after = filled(buf, w.reader.pieces_from(at, at, end), w.disk);
            &&& w.reader.refusal_from(at, end) is None
            &&& before.len() == buf.len()
            &&& after.len() == buf.len()
            &&& forall|i: int|
                0 <= i < buf.len() ==> #[trigger] after[i] == if offset <= at + i < taken {
                    data[at + i - offset]
                } else {
                    before[i]
                }
        }),
{
    let w = wrote(v, offset, data).volume;
    let end = at + buf.len();
    write_changes_exactly_its_range(v, offset, data);
    lemma_readable_range(v.reader, at, end);
    lemma_readable_range(w.reader, at, end);
    read_gives_the_contents(v, buf, at);
    read_gives_the_contents(w, buf, at);
    assert forall|i: int| 0 <= i < buf.len() implies contents(w)[at + i] == splice(
        contents(v),
        offset,
        data.take(accepted_until(v.reader, offset, offset + data.len()) - offset),
    )[#[trigger] (at + i)] by {
        assert(w.reader.readable(at + i));
    }
}

/// The operations that allocate a block account for what the device is left with.
pub proof fn lemma_allocation_ops(v: Volume, index: int)
    ensures
        allocated(v, index).disk == after_ops(v.disk, allocation_ops(v, index)),
{
    let block = tail_block(v.reader.dev_size, v.reader.geometry.block_size as int);
    let a = appended(v);
    let at = a.reader.sector_position(index);
    let sector = published_sector(a.reader, a.disk.subrange(at, at + 4096), index, block);
    let journal = journal_ops(a.reader, at, sector);
    let place = OpView::Write { offset: at, data: sector };
    lemma_after_one_op(v.disk, append_op(v.reader));
    lemma_after_one_op(after_ops(a.disk, journal), place);
    lemma_after_ops_split(
        v.disk,
        seq![append_op(v.reader), OpView::Flush],
        commit_ops(a.reader, index, sector),
    );
    lemma_after_ops_split(a.disk, journal, seq![place, OpView::Flush]);
}

/// The operations that a write performs from `cursor` on account for what the device is left with.
proof fn lemma_operations_from(v: Volume, offset: int, data: Seq<u8>, cursor: int)
    ensures
        ({
            let w = wrote_from(v, offset, data, cursor);
            w.volume.disk == after_ops(v.disk, w.ops)
        }),
    decreases offset + data.len() - cursor,
{
    reveal_with_fuel(wrote_from, 1);
    let r = v.reader;
    let bs = r.geometry.block_size as int;
    let n = piece_length(bs, cursor, offset + data.len());
    let index = bat_index(cursor / bs, r.geometry.chunk_ratio());
    let entry = r.bat[index];
    if cursor >= offset + data.len() || n <= 0 {
        lemma_after_one_op(v.disk, OpView::Flush);
        assert(wrote_from(v, offset, data, cursor).ops =~= seq![OpView::Flush]);
    } else if entry.state.reads_as_zero() {
        let block = tail_block(r.dev_size, bs);
        let a = allocated(v, index);
        let after = paid(a, offset, data, cursor, block);
        let pay = payment_op(r, offset, data, cursor, block);
        let rest = wrote_from(after, offset, data, cursor + n).ops;
        lemma_allocation_ops(v, index);
        lemma_after_ops_split(v.disk, allocation_ops(v, index), seq![pay]);
        assert(allocation_ops(v, index).push(pay) =~= allocation_ops(v, index) + seq![pay]);
        lemma_after_one_op(a.disk, pay);
        lemma_after_ops_split(v.disk, allocation_ops(v, index).push(pay), rest);
        lemma_operations_from(after, offset, data, cursor + n);
    } else if entry.state is FullyPresent {
        let after = paid(v, offset, data, cursor, entry.file_offset as int);
        let pay = payment_op(r, offset, data, cursor, entry.file_offset as int);
        let rest = wrote_from(after, offset, data, cursor + n).ops;
        lemma_after_one_op(v.disk, pay);
        lemma_after_ops_split(v.disk, seq![pay], rest);
        lemma_operations_from(after, offset, data, cursor + n);
    }
}

/// The operations that a write performs account for what the device is left with.
pub proof fn writing_leaves_what_it_performs(v: Volume, offset: int, data: Seq<u8>)
    ensures
        ({
            let w = wrote(v, offset, data);
            w.volume.disk == after_ops(v.disk, w.ops)
        }),
{
    lemma_operations_from(v, offset, data, offset);
}

/// A write that is refused outright performs nothing and changes nothing.
pub proof fn refused_write_changes_nothing(v: Volume, offset: int, data: Seq<u8>)
    requires
        !v.reader.writable || access_fault(
            v.reader.geometry.virtual_size as int,
            offset,
            data.len() as int,
        ) is Some,
    ensures
        wrote(v, offset, data).failure is Some,
        wrote(v, offset, data).ops.len() == 0,
        wrote(v, offset, data).volume == v,
{
}

} // verus!

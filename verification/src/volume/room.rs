//! Which writes to the virtual disk go through: when there is room for one, how far one gets, and
//! what it is refused for.
use crate::bat::{bat_entry, bat_index, bat_index_is_strictly_increasing, lemma_bat_index};
use crate::bat::{present_entry, present_entry_decodes_back, BatEntry, PayloadState};
use crate::device::OpView;
use crate::endian::le64_bytes;
use crate::error::Error;
use crate::header::{header_bytes, HeaderSlot};
use crate::layout::{lemma_chunk_ratio_is, lemma_geometry};
use crate::log::{parse_log_entry, Descriptor, ParseOutcome};
use crate::log::encode::{encoded_entry_parses_back, encoded_length, entry_bytes};
use crate::log::encode::{lemma_entry_length, whole_sectors, EntryFields, WriteView};
use crate::reader::{access_fault, has_room_to_journal, lemma_index_in_bat, lemma_tail_block};
use crate::reader::{next_header, piece_length, reserved_state_text, tail_block, ReaderView};
use crate::reader::VhdxReader;
use crate::volume::{lemma_block_of, lemma_next_header_fits, lemma_piece_in_block};
use crate::volume::access::{entry_of, fills_a_chunk, is_absent, lemma_entry_of, place_of};
use crate::write::{accepted_until, allocated, allocation_ops, append_op, appended, has_room_from};
use crate::write::{journal_entry, journal_ops, lemma_next_piece, paid, payment_op, piece_end};
use crate::write::{published_sector, stretched, wrote, wrote_from, Volume, WriteOutcome};
use vstd::prelude::*;

verus! {

/// How many of the blocks from `first` up to, but not including, `last` are absent.
pub open spec fn absent_blocks(r: ReaderView, ratio: int, first: int, last: int) -> nat
    decreases last - first,
{
    if first >= last {
        0
    } else if is_absent(r, ratio, first * r.geometry.block_size) {
        absent_blocks(r, ratio, first + 1, last) + 1
    } else {
        absent_blocks(r, ratio, first + 1, last)
    }
}

/// A byte is absent with its block.
proof fn lemma_absent_with_its_block(r: ReaderView, ratio: int, at: int)
    requires
        r.wf(),
        0 <= at < r.geometry.virtual_size,
    ensures
        ({
            let bs = r.geometry.block_size as int;
            &&& is_absent(r, ratio, at / bs * bs) == is_absent(r, ratio, at)
            &&& entry_of(r, ratio, at / bs * bs) == entry_of(r, ratio, at)
        }),
{
    let bs = r.geometry.block_size as int;
    let b = at / bs;
    assert(b * bs == b * bs + 0);
    vstd::arithmetic::div_mod::lemma_fundamental_div_mod_converse(b * bs, bs, b, 0);
}

/// A boundary that is further on has a tail block that is no nearer.
proof fn lemma_tail_grows(a: int, b: int, bs: int)
    requires
        0 <= a <= b,
        0 < bs,
    ensures
        tail_block(a, bs) <= tail_block(b, bs),
{
    assert((a + bs - 1) / bs <= (b + bs - 1) / bs) by (nonlinear_arith)
        requires
            a <= b,
            0 < bs,
    ;
    assert((a + bs - 1) / bs * bs <= (b + bs - 1) / bs * bs) by (nonlinear_arith)
        requires
            (a + bs - 1) / bs <= (b + bs - 1) / bs,
            0 < bs,
    ;
}

/// A multiple of the block size is its own tail block.
proof fn lemma_tail_of_a_boundary(t: int, bs: int)
    requires
        0 <= t,
        0 < bs,
        t % bs == 0,
    ensures
        tail_block(t, bs) == t,
        (t + bs) % bs == 0,
{
    lemma_tail_block(t, bs);
    vstd::arithmetic::div_mod::lemma_mod_add_multiples_vanish(t, bs);
}

/// The only multiple of the block size in a stretch of that length is the tail block.
proof fn lemma_tail_is(m: int, t: int, bs: int)
    requires
        0 <= m <= t < m + bs,
        0 < bs,
        t % bs == 0,
    ensures
        tail_block(m, bs) == t,
{
    lemma_tail_block(m, bs);
    let u = tail_block(m, bs);
    vstd::arithmetic::div_mod::lemma_fundamental_div_mod(t, bs);
    vstd::arithmetic::div_mod::lemma_fundamental_div_mod(u, bs);
    let p = t / bs;
    let q = u / bs;
    assert(p == q) by (nonlinear_arith)
        requires
            t == bs * p,
            u == bs * q,
            -bs < t - u < bs,
            0 < bs,
    ;
}

/// An entry of a BAT on the 8-byte grid lies within one sector.
proof fn lemma_entry_on_the_grid(from: int, index: int)
    requires
        from % 8 == 0,
    ensures
        (from + 8 * index) % 4096 <= 4088,
{
    let at = from + 8 * index;
    assert(at % 8 == 0);
    assert(at % 4096 % 8 == at % 8);
}

/// The blocks of an access from `cursor` on: the one of `cursor`, and those of the rest.
proof fn lemma_blocks_of_access(r: ReaderView, ratio: int, cursor: int, end: int)
    requires
        r.wf(),
        0 <= cursor < end <= r.geometry.virtual_size,
    ensures
        ({
            let bs = r.geometry.block_size as int;
            let next = cursor + piece_length(bs, cursor, end);
            let last = (end - 1) / bs + 1;
            let rest = if next < end {
                absent_blocks(r, ratio, next / bs, last)
            } else {
                0
            };
            absent_blocks(r, ratio, cursor / bs, last) == rest + (if is_absent(r, ratio, cursor) {
                1nat
            } else {
                0
            })
        }),
{
    let bs = r.geometry.block_size as int;
    let n = piece_length(bs, cursor, end);
    let last = (end - 1) / bs + 1;
    lemma_next_piece(bs, cursor, end);
    lemma_absent_with_its_block(r, ratio, cursor);
    if cursor + n < end {
        assert((cursor + n) / bs <= (end - 1) / bs) by (nonlinear_arith)
            requires
                cursor + n <= end - 1,
                0 < bs,
        ;
    } else {
        lemma_piece_in_block(bs, cursor, end, n - 1);
        assert(absent_blocks(r, ratio, cursor / bs + 1, last) == 0);
    }
}

/// There is room from `cursor` on, on a device of `dev_size` bytes, where neither it nor a block
/// that is written to reaches past `m`, and as many blocks as are absent fit behind `m`.
proof fn lemma_room(
    r: ReaderView,
    ratio: int,
    dev_size: int,
    m: int,
    cursor: int,
    end: int,
)
    requires
        r.wf(),
        fills_a_chunk(r.geometry, ratio),
        0 <= cursor <= end <= r.geometry.virtual_size,
        0 <= dev_size <= m,
        forall|at: int|
            cursor <= at < end && #[trigger] is_absent(r, ratio, at) ==> entry_place(r, ratio, at)
                % 4096 <= 4088,
        forall|at: int|
            cursor <= at < end && (#[trigger] entry_of(r, ratio, at)).state is FullyPresent
                ==> entry_of(r, ratio, at).file_offset + r.geometry.block_size <= m,
        tail_block(m, r.geometry.block_size as int) + absent_blocks(
            r,
            ratio,
            cursor / r.geometry.block_size as int,
            (end - 1) / r.geometry.block_size as int + 1,
        ) * r.geometry.block_size <= u64::MAX,
    ensures
        has_room_from(r, dev_size, cursor, end),
    decreases end - cursor,
{
    reveal_with_fuel(has_room_from, 1);
    let bs = r.geometry.block_size as int;
    if cursor < end {
        let n = piece_length(bs, cursor, end);
        let next = cursor + n;
        let last = (end - 1) / bs + 1;
        lemma_next_piece(bs, cursor, end);
        lemma_blocks_of_access(r, ratio, cursor, end);
        lemma_entry_of(r, ratio, cursor);
        lemma_block_of(r, cursor);
        lemma_tail_block(m, bs);
        lemma_tail_block(dev_size, bs);
        lemma_tail_grows(dev_size, m, bs);
        let count = absent_blocks(r, ratio, cursor / bs, last) as int;
        let rest = if next < end {
            absent_blocks(r, ratio, next / bs, last) as int
        } else {
            0
        };
        if is_absent(r, ratio, cursor) {
            let t = tail_block(m, bs);
            assert(t + bs + rest * bs == t + count * bs) by (nonlinear_arith)
                requires
                    count == rest + 1,
            ;
            assert(0 <= rest * bs) by (nonlinear_arith)
                requires
                    0 <= rest,
                    0 < bs,
            ;
            lemma_tail_of_a_boundary(t, bs);
            lemma_tail_of_a_boundary(t + bs, bs);
            lemma_chunk_ratio_is(r.geometry, ratio);
            lemma_bat_index(cursor / bs, ratio);
            assert(entry_place(r, ratio, cursor) % 4096 <= 4088);
            if next < end {
                lemma_room(r, ratio, tail_block(dev_size, bs) + bs, t + bs, next, end);
            }
        } else if r.entry_at(cursor).state is FullyPresent {
            assert(count == rest);
            let reach = piece_end(r, cursor, n);
            assert(entry_of(r, ratio, cursor).file_offset + bs <= m);
            assert(reach <= m);
            assert(0 <= count * bs) by (nonlinear_arith)
                requires
                    0 <= count,
                    0 < bs,
            ;
            if next < end {
                lemma_room(r, ratio, stretched(dev_size, reach), m, next, end);
            }
        }
        if next >= end {
            reveal_with_fuel(has_room_from, 2);
        }
    }
}

/// There is room for every write on an image whose BAT lies on the 8-byte grid, or of which each
/// entry that has to change lies within one sector, as long as the device stays in the 64-bit
/// range: `m` bounds the device and the blocks that the write finds on
/// it, `t` is the first block boundary from there on, and the blocks that the write finds absent
/// go behind `t`. A write that is refused outright always has room.
pub proof fn there_is_room_for_every_write(
    r: &VhdxReader,
    offset: u64,
    len: usize,
    room: bool,
    ratio: int,
    m: int,
    t: int,
)
    requires
        r.wf(),
        call_ensures(VhdxReader::has_room_for, (r, offset, len), room),
        fills_a_chunk(r@.geometry, ratio),
        r@.bat_region_off % 8 == 0 || forall|at: int|
            offset <= at < offset + len && #[trigger] is_absent(r@, ratio, at) ==> entry_place(
                r@,
                ratio,
                at,
            ) % 4096 <= 4088,
        r@.dev_size <= m,
        forall|at: int|
            offset <= at < offset + len && (#[trigger] entry_of(r@, ratio, at)).state
                is FullyPresent ==> entry_of(r@, ratio, at).file_offset + r@.geometry.block_size
                <= m,
        m <= t < m + r@.geometry.block_size,
        t % r@.geometry.block_size as int == 0,
        t + absent_blocks(
            r@,
            ratio,
            offset as int / r@.geometry.block_size as int,
            (offset + len - 1) / r@.geometry.block_size as int + 1,
        ) * r@.geometry.block_size <= u64::MAX,
    ensures
        call_requires(VhdxReader::has_room_for, (r, offset, len)),
        room,
{
    let bs = r@.geometry.block_size as int;
    lemma_tail_is(m, t, bs);
    if access_fault(r@.geometry.virtual_size as int, offset as int, len as int) is None {
        if len == 0 {
            reveal_with_fuel(has_room_from, 1);
        } else {
            assert forall|at: int|
                offset <= at < offset + len && #[trigger] is_absent(
                    r@,
                    ratio,
                    at,
                ) implies entry_place(r@, ratio, at) % 4096 <= 4088 by {
                if r@.bat_region_off % 8 == 0 {
                    let block = at / bs;
                    lemma_entry_on_the_grid(r@.bat_region_off, block + block / ratio);
                }
            }
            lemma_room(r@, ratio, r@.dev_size, m, offset as int, offset + len);
        }
    }
}

/// A write that is refused outright, and one that nothing is asked of, has room whatever the image.
pub proof fn a_refused_write_needs_no_room(r: &VhdxReader, offset: u64, len: usize, room: bool)
    requires
        r.wf(),
        call_ensures(VhdxReader::has_room_for, (r, offset, len), room),
        !r@.writable || len == 0 || offset + len > r@.geometry.virtual_size,
    ensures
        room,
{
    reveal_with_fuel(has_room_from, 1);
}

/// What room there is from `cursor` on is needed: see [`room_that_is_needed`].
proof fn lemma_room_needed(r: ReaderView, ratio: int, dev_size: int, cursor: int, end: int)
    requires
        r.wf(),
        fills_a_chunk(r.geometry, ratio),
        0 <= cursor <= end <= r.geometry.virtual_size,
        0 <= dev_size,
        forall|at: int|
            cursor <= at < end ==> is_absent(r, ratio, at) || (#[trigger] entry_of(
                r,
                ratio,
                at,
            )).state is FullyPresent,
        has_room_from(r, dev_size, cursor, end),
    ensures
        ({
            let count = absent_blocks(
                r,
                ratio,
                cursor / r.geometry.block_size as int,
                (end - 1) / r.geometry.block_size as int + 1,
            );
            cursor < end && count > 0 ==> tail_block(dev_size, r.geometry.block_size as int) + count
                * r.geometry.block_size <= u64::MAX
        }),
        forall|at: int|
            cursor <= at < end && #[trigger] is_absent(r, ratio, at) ==> entry_place(r, ratio, at)
                % 4096 <= 4088,
        forall|at: int|
            cursor <= at < end && #[trigger] is_named(r, ratio, at) ==> place_of(r, ratio, at)
                < u64::MAX,
    decreases end - cursor,
{
    reveal_with_fuel(has_room_from, 1);
    let bs = r.geometry.block_size as int;
    if cursor < end {
        let n = piece_length(bs, cursor, end);
        let next = cursor + n;
        let last = (end - 1) / bs + 1;
        lemma_next_piece(bs, cursor, end);
        lemma_blocks_of_access(r, ratio, cursor, end);
        lemma_entry_of(r, ratio, cursor);
        lemma_block_of(r, cursor);
        lemma_tail_block(dev_size, bs);
        let t = tail_block(dev_size, bs);
        let count = absent_blocks(r, ratio, cursor / bs, last) as int;
        let rest = if next < end {
            absent_blocks(r, ratio, next / bs, last) as int
        } else {
            0
        };
        assert(is_absent(r, ratio, cursor) || entry_of(r, ratio, cursor).state is FullyPresent);
        if is_absent(r, ratio, cursor) {
            assert(t + bs + rest * bs == t + count * bs) by (nonlinear_arith)
                requires
                    count == rest + 1,
            ;
            lemma_tail_of_a_boundary(t, bs);
            lemma_tail_of_a_boundary(t + bs, bs);
            if next < end {
                lemma_room_needed(r, ratio, t + bs, next, end);
            }
            assert(rest == 0 ==> rest * bs == 0) by (nonlinear_arith);
        } else if next < end {
            let grown = stretched(dev_size, piece_end(r, cursor, n));
            lemma_tail_grows(dev_size, grown, bs);
            lemma_room_needed(r, ratio, grown, next, end);
        }
        lemma_chunk_ratio_is(r.geometry, ratio);
        lemma_bat_index(cursor / bs, ratio);
        assert forall|at: int| cursor <= at < end && #[trigger] is_absent(r, ratio, at) implies
            entry_place(r, ratio, at) % 4096 <= 4088 by {
            if at < next {
                lemma_piece_in_block(bs, cursor, end, at - cursor);
            }
        }
        assert forall|at: int| cursor <= at < end && #[trigger] is_named(r, ratio, at) implies
            place_of(r, ratio, at) < u64::MAX by {
            if at < next {
                lemma_piece_in_block(bs, cursor, end, at - cursor);
            }
        }
    }
}

/// Where the BAT entry of the byte `at` of the virtual disk lies on the device.
pub open spec fn entry_place(r: ReaderView, ratio: int, at: int) -> int {
    let block = at / r.geometry.block_size as int;
    r.bat_region_off + 8 * (block + block / ratio)
}

/// Whether the BAT names a place for the byte `at` of the virtual disk.
pub open spec fn is_named(r: ReaderView, ratio: int, at: int) -> bool {
    entry_of(r, ratio, at).state is FullyPresent
}

/// Room is never promised where there is none: a write for which there is room, and which no block
/// refuses, leaves the device in the 64-bit range once every block that it finds absent went
/// behind the end of the device. Each BAT entry that has to change lies within one sector, and
/// each byte that is written in place has one.
pub proof fn room_that_is_needed(
    r: &VhdxReader,
    offset: u64,
    len: usize,
    ratio: int,
    t: int,
)
    requires
        r.wf(),
        call_ensures(VhdxReader::has_room_for, (r, offset, len), true),
        fills_a_chunk(r@.geometry, ratio),
        r@.writable,
        0 < len,
        offset + len <= r@.geometry.virtual_size,
        forall|at: int|
            offset <= at < offset + len ==> is_absent(r@, ratio, at) || (#[trigger] entry_of(
                r@,
                ratio,
                at,
            )).state is FullyPresent,
        r@.dev_size <= t < r@.dev_size + r@.geometry.block_size,
        t % r@.geometry.block_size as int == 0,
    ensures
        ({
            let count = absent_blocks(
                r@,
                ratio,
                offset as int / r@.geometry.block_size as int,
                (offset + len - 1) / r@.geometry.block_size as int + 1,
            );
            count > 0 ==> t + count * r@.geometry.block_size <= u64::MAX
        }),
        forall|at: int|
            offset <= at < offset + len && #[trigger] is_absent(r@, ratio, at) ==> entry_place(
                r@,
                ratio,
                at,
            ) % 4096 <= 4088,
        forall|at: int|
            offset <= at < offset + len && #[trigger] is_named(r@, ratio, at) ==> place_of(
                r@,
                ratio,
                at,
            ) < u64::MAX,
{
    lemma_tail_is(r@.dev_size, t, r@.geometry.block_size as int);
    lemma_room_needed(r@, ratio, r@.dev_size, offset as int, offset + len);
}

/// Whether the block of the byte `at` takes writes: it is absent, or fully present.
pub open spec fn takes_writes(r: ReaderView, ratio: int, at: int) -> bool {
    is_absent(r, ratio, at) || entry_of(r, ratio, at).state is FullyPresent
}

/// How far a write gets: to the first byte whose block takes no writes.
pub proof fn a_write_gets_to_the_first_block_that_takes_none(
    r: ReaderView,
    ratio: int,
    cursor: int,
    end: int,
)
    requires
        r.wf(),
        fills_a_chunk(r.geometry, ratio),
        0 <= cursor <= end <= r.geometry.virtual_size,
    ensures
        cursor <= accepted_until(r, cursor, end) <= end,
        forall|at: int|
            cursor <= at < accepted_until(r, cursor, end) ==> #[trigger] takes_writes(r, ratio, at),
        accepted_until(r, cursor, end) < end ==> !takes_writes(
            r,
            ratio,
            accepted_until(r, cursor, end),
        ),
    decreases end - cursor,
{
    reveal_with_fuel(accepted_until, 1);
    let bs = r.geometry.block_size as int;
    if cursor < end {
        let n = piece_length(bs, cursor, end);
        lemma_next_piece(bs, cursor, end);
        lemma_entry_of(r, ratio, cursor);
        if takes_writes(r, ratio, cursor) {
            a_write_gets_to_the_first_block_that_takes_none(r, ratio, cursor + n, end);
            assert forall|at: int|
                cursor <= at < accepted_until(r, cursor, end) implies #[trigger] takes_writes(
                r,
                ratio,
                at,
            ) by {
                if at < cursor + n {
                    lemma_piece_in_block(bs, cursor, end, at - cursor);
                    lemma_entry_of(r, ratio, at);
                }
            }
        }
    }
}

/// Allocating a block for the piece at `cursor` leaves the BAT entries of the pieces after it.
proof fn lemma_entries_after_allocating(
    v: Volume,
    r: ReaderView,
    offset: int,
    data: Seq<u8>,
    cursor: int,
)
    requires
        r.wf(),
        v.reader.geometry == r.geometry,
        v.reader.bat.len() == r.bat.len(),
        0 <= offset <= cursor < offset + data.len() <= r.geometry.virtual_size,
        forall|at: int|
            cursor <= at < offset + data.len() ==> #[trigger] v.reader.entry_at(at) == r.entry_at(
                at,
            ),
    ensures
        ({
            let bs = r.geometry.block_size as int;
            let end = offset + data.len();
            let index = bat_index(cursor / bs, r.geometry.chunk_ratio());
            let block = tail_block(v.reader.dev_size, bs);
            let s = paid(allocated(v, index), offset, data, cursor, block).reader;
            &&& s.geometry == r.geometry
            &&& s.bat.len() == r.bat.len()
            &&& forall|at: int|
                cursor + piece_length(bs, cursor, end) <= at < end ==> #[trigger] s.entry_at(at)
                    == r.entry_at(at)
        }),
{
    let bs = r.geometry.block_size as int;
    let cr = r.geometry.chunk_ratio();
    let end = offset + data.len();
    let next = cursor + piece_length(bs, cursor, end);
    let index = bat_index(cursor / bs, cr);
    let block = tail_block(v.reader.dev_size, bs);
    let s = paid(allocated(v, index), offset, data, cursor, block).reader;
    lemma_next_piece(bs, cursor, end);
    lemma_geometry(r.geometry);
    lemma_index_in_bat(r, cursor);
    assert(s.bat == v.reader.bat.update(index, bat_entry(present_entry(block))));
    assert forall|at: int| next <= at < end implies #[trigger] s.entry_at(at) == r.entry_at(at) by {
        assert(v.reader.entry_at(at) == r.entry_at(at));
        lemma_index_in_bat(r, at);
        assert(next / bs <= at / bs) by (nonlinear_arith)
            requires
                next <= at,
                0 < bs,
        ;
        bat_index_is_strictly_increasing(cursor / bs, at / bs, cr);
    }
}

/// What a write from `cursor` on fails with, and that it ends in a flush when it does not: the BAT
/// entries of `r` decide, which the write has left as they were from `cursor` on.
proof fn lemma_stops(
    v: Volume,
    r: ReaderView,
    ratio: int,
    offset: int,
    data: Seq<u8>,
    cursor: int,
)
    requires
        r.wf(),
        fills_a_chunk(r.geometry, ratio),
        v.reader.geometry == r.geometry,
        v.reader.bat.len() == r.bat.len(),
        0 <= offset <= cursor <= offset + data.len() <= r.geometry.virtual_size,
        forall|at: int|
            cursor <= at < offset + data.len() ==> #[trigger] v.reader.entry_at(at) == r.entry_at(
                at,
            ),
    ensures
        ({
            let end = offset + data.len();
            let w = wrote_from(v, offset, data, cursor);
            let stop = accepted_until(r, cursor, end);
            &&& stop == end ==> w.failure is None && w.ops.len() > 0 && w.ops.last()
                == OpView::Flush
            &&& stop < end ==> stopped_by(w, r.entry_at(stop).state)
        }),
    decreases offset + data.len() - cursor,
{
    reveal_with_fuel(wrote_from, 1);
    reveal_with_fuel(accepted_until, 1);
    let bs = r.geometry.block_size as int;
    let cr = r.geometry.chunk_ratio();
    let end = offset + data.len();
    if cursor < end {
        let n = piece_length(bs, cursor, end);
        let next = cursor + n;
        let index = bat_index(cursor / bs, cr);
        let entry = v.reader.bat[index];
        lemma_next_piece(bs, cursor, end);
        assert(v.reader.entry_at(cursor) == r.entry_at(cursor));
        a_write_gets_to_the_first_block_that_takes_none(r, ratio, next, end);
        if entry.state.reads_as_zero() {
            let block = tail_block(v.reader.dev_size, bs);
            let after = paid(allocated(v, index), offset, data, cursor, block);
            lemma_entries_after_allocating(v, r, offset, data, cursor);
            lemma_stops(after, r, ratio, offset, data, next);
        } else if entry.state is FullyPresent {
            let after = paid(v, offset, data, cursor, entry.file_offset as int);
            assert forall|at: int| next <= at < end implies #[trigger] after.reader.entry_at(at)
                == r.entry_at(at) by {
                assert(v.reader.entry_at(at) == r.entry_at(at));
            }
            lemma_stops(after, r, ratio, offset, data, next);
        }
    }
}

/// Whether a write was stopped by a block in this state.
pub open spec fn stopped_by(w: WriteOutcome, state: PayloadState) -> bool {
    match state {
        PayloadState::PartiallyPresent => w.failure == Some(
            Error::Unsupported(
                "write to a PartiallyPresent block (sector-bitmap walking not implemented)",
            ),
        ),
        PayloadState::Reserved(s) => w.failure == Some(Error::Unsupported(reserved_state_text(s))),
        _ => false,
    }
}

/// What a write comes to: it succeeds when every block of it takes writes, and then ends in a
/// flush; otherwise the first block that takes none says why. One that nothing is asked of does
/// nothing.
pub proof fn a_write_stops_only_at_a_block_that_takes_none(
    v: Volume,
    ratio: int,
    offset: int,
    data: Seq<u8>,
)
    requires
        v.reader.wf(),
        fills_a_chunk(v.reader.geometry, ratio),
        v.reader.writable,
        0 <= offset,
        offset + data.len() <= v.reader.geometry.virtual_size,
    ensures
        ({
            let end = offset + data.len();
            let w = wrote(v, offset, data);
            &&& data.len() == 0 ==> w.failure is None && w.ops.len() == 0 && w.volume == v
            &&& data.len() > 0 && (forall|at: int|
                offset <= at < end ==> #[trigger] takes_writes(v.reader, ratio, at)) ==> {
                &&& w.failure is None
                &&& w.ops.len() > 0
                &&& w.ops.last() == OpView::Flush
            }
            &&& forall|at: int|
                #![trigger takes_writes(v.reader, ratio, at)]
                offset <= at < end && !takes_writes(v.reader, ratio, at) && (forall|k: int|
                    offset <= k < at ==> #[trigger] takes_writes(v.reader, ratio, k))
                    ==> stopped_by(w, entry_of(v.reader, ratio, at).state)
        }),
{
    let r = v.reader;
    let end = offset + data.len();
    let stop = accepted_until(r, offset, end);
    a_write_gets_to_the_first_block_that_takes_none(r, ratio, offset, end);
    lemma_stops(v, r, ratio, offset, data, offset);
    assert forall|at: int|
        #![trigger takes_writes(r, ratio, at)]
        offset <= at < end && !takes_writes(r, ratio, at) && (forall|k: int|
            offset <= k < at ==> #[trigger] takes_writes(r, ratio, k)) implies stopped_by(
        wrote(v, offset, data),
        entry_of(r, ratio, at).state,
    ) by {
        if stop < at {
            assert(takes_writes(r, ratio, stop));
        }
        assert(stop == at);
        lemma_entry_of(r, ratio, at);
    }
}

/// An image that takes no writes says so, whatever is asked of it; one that does refuses what is
/// past its end.
pub proof fn what_a_write_is_refused_for(v: Volume, offset: u64, data: Seq<u8>)
    requires
        data.len() <= u64::MAX,
    ensures
        ({
            let w = wrote(v, offset as int, data);
            let size = v.reader.geometry.virtual_size;
            &&& !v.reader.writable ==> w.failure == Some(Error::ReadOnly)
            &&& v.reader.writable && data.len() > 0 && size < offset + data.len() <= u64::MAX
                ==> w.failure == Some(
                Error::OutOfBounds { offset, len: data.len() as u64, size },
            )
            &&& v.reader.writable && data.len() > 0 && offset + data.len() > u64::MAX ==> (
            w.failure matches Some(e) && e is Corrupt)
        }),
{
}

/// Allocating a block goes in steps, each of them a write and then a flush: the zeroed block, the
/// emptied log, the log entry, the header in the slot that is not in use, and the BAT sector. An
/// image without a usable log goes without the three in between. `t` is the first block boundary
/// behind the end of the device.
pub proof fn every_step_of_an_allocation_is_flushed(v: Volume, index: int, t: int)
    requires
        v.reader.wf(),
        v.reader.dev_size <= t < v.reader.dev_size + v.reader.geometry.block_size,
        t % v.reader.geometry.block_size as int == 0,
    ensures
        ({
            let r = v.reader;
            let bs = r.geometry.block_size as int;
            let ops = allocation_ops(v, index);
            let journals = r.header.log_length >= 8192 && r.header.log_offset > 0;
            &&& ops.len() == if journals {
                10nat
            } else {
                4
            }
            &&& forall|i: int| 0 <= i < ops.len() ==> (#[trigger] ops[i] is Flush <==> i % 2 == 1)
            &&& ops[0] == (OpView::Zeros { offset: t, len: bs })
            &&& journals ==> {
                &&& ops[2] == (OpView::Zeros {
                    offset: r.header.log_offset,
                    len: r.header.log_length,
                })
                &&& ops[4] is Write && ops[4]->Write_offset == r.header.log_offset
                &&& ops[6] == (OpView::Write {
                    offset: if r.active_slot == HeaderSlot::One {
                        0x2_0000int
                    } else {
                        0x1_0000
                    },
                    data: header_bytes(next_header(r.header)),
                })
            }
            &&& ops[ops.len() - 2] is Write
            &&& ops[ops.len() - 2]->Write_offset == (r.bat_region_off + 8 * index) / 4096 * 4096
        }),
{
    lemma_tail_is(v.reader.dev_size, t, v.reader.geometry.block_size as int);
    lemma_steps(v, index);
    lemma_every_second(allocation_ops(v, index));
}

/// Whether every second one of the operations is a flush, and no other.
spec fn alternates(ops: Seq<OpView>) -> bool {
    forall|i: int| 0 <= i < ops.len() ==> (#[trigger] ops[i] is Flush <==> i % 2 == 1)
}

/// Where four or ten operations alternate.
proof fn lemma_every_second(ops: Seq<OpView>)
    requires
        ops.len() == 4 || ops.len() == 10,
        !(ops[0] is Flush),
        ops[1] is Flush,
        !(ops[2] is Flush),
        ops[3] is Flush,
        ops.len() == 10 ==> !(ops[4] is Flush) && ops[5] is Flush && !(ops[6] is Flush)
            && ops[7] is Flush && !(ops[8] is Flush) && ops[9] is Flush,
    ensures
        alternates(ops),
{
    assert forall|i: int| 0 <= i < ops.len() implies (#[trigger] ops[i] is Flush <==> i % 2
        == 1) by {
        assert(i == 0 || i == 1 || i == 2 || i == 3 || i == 4 || i == 5 || i == 6 || i == 7 || i
            == 8 || i == 9);
    }
}

/// The operations of an allocation, one by one.
proof fn lemma_steps(v: Volume, index: int)
    ensures
        ({
            let r = appended(v).reader;
            let at = r.sector_position(index);
            let block = tail_block(v.reader.dev_size, v.reader.geometry.block_size as int);
            let sector = published_sector(r, appended(v).disk.subrange(at, at + 4096), index, block);
            allocation_ops(v, index) == if has_room_to_journal(v.reader.header) {
                seq![
                    append_op(v.reader),
                    OpView::Flush,
                    OpView::Zeros { offset: r.header.log_offset, len: r.header.log_length },
                    OpView::Flush,
                    OpView::Write {
                        offset: r.header.log_offset,
                        data: journal_entry(r, at, sector),
                    },
                    OpView::Flush,
                    OpView::Write {
                        offset: r.active_slot.opposite().position(),
                        data: header_bytes(next_header(r.header)),
                    },
                    OpView::Flush,
                    OpView::Write { offset: at, data: sector },
                    OpView::Flush,
                ]
            } else {
                seq![
                    append_op(v.reader),
                    OpView::Flush,
                    OpView::Write { offset: at, data: sector },
                    OpView::Flush,
                ]
            }
        }),
{
    let r = appended(v).reader;
    let at = r.sector_position(index);
    let block = tail_block(v.reader.dev_size, v.reader.geometry.block_size as int);
    let sector = published_sector(r, appended(v).disk.subrange(at, at + 4096), index, block);
    let journal = journal_ops(r, at, sector);
    let last = seq![OpView::Write { offset: at, data: sector }, OpView::Flush];
    assert(allocation_ops(v, index) =~= seq![append_op(v.reader), OpView::Flush] + (journal + last));
}

/// What the BAT sector says that an allocation writes: at the place of the entry the number of a
/// fully present block at `t`, and everywhere else what the device holds.
pub proof fn the_bat_sector_of_an_allocation(v: Volume, index: int, t: int)
    requires
        v.reader.wf(),
        v.disk.len() == v.reader.dev_size,
        0 <= index < v.reader.bat.len(),
        (v.reader.bat_region_off + 8 * index) % 4096 <= 4088,
        v.reader.dev_size <= t < v.reader.dev_size + v.reader.geometry.block_size,
        t % v.reader.geometry.block_size as int == 0,
        t <= u64::MAX,
    ensures
        ({
            let ops = allocation_ops(v, index);
            let at = (v.reader.bat_region_off + 8 * index) / 4096 * 4096;
            let p = (v.reader.bat_region_off + 8 * index) % 4096;
            let data = ops[ops.len() - 2]->data;
            &&& data.len() == 4096
            &&& data.subrange(p, p + 8) == le64_bytes(t + 6)
            &&& forall|k: int|
                0 <= k < 4096 && !(p <= k < p + 8) ==> #[trigger] data[k] == if at + k
                    < v.disk.len() {
                    v.disk[at + k]
                } else {
                    0
                }
        }),
{
    let r = v.reader;
    let bs = r.geometry.block_size as int;
    let a = appended(v);
    let e = r.bat_region_off + 8 * index;
    let at = e / 4096 * 4096;
    let s = a.disk.subrange(at, at + 4096);
    let sector = published_sector(a.reader, s, index, t);
    lemma_tail_is(r.dev_size, t, bs);
    lemma_geometry(r.geometry);
    lemma_megabyte_boundary(t, bs);
    lemma_appended_bytes(v, t);
    assert(at + 4096 <= a.disk.len());
    lemma_published_bytes(a.reader, s, index, t);
    assert(allocation_ops(v, index)[allocation_ops(v, index).len() - 2]->data == sector) by {
        lemma_steps(v, index);
    }
    let p = e % 4096;
    assert forall|k: int| 0 <= k < 4096 && !(p <= k < p + 8) implies #[trigger] sector[k] == if at
        + k < v.disk.len() {
        v.disk[at + k]
    } else {
        0
    } by {
        assert(s[k] == a.disk[at + k]);
    }
}

/// The device once a zeroed block was appended to it.
proof fn lemma_appended_bytes(v: Volume, t: int)
    requires
        0 < v.reader.geometry.block_size,
        v.disk.len() == v.reader.dev_size,
        t == tail_block(v.reader.dev_size, v.reader.geometry.block_size as int),
    ensures
        ({
            let disk = appended(v).disk;
            &&& disk.len() == t + v.reader.geometry.block_size
            &&& forall|k: int|
                0 <= k < disk.len() ==> #[trigger] disk[k] == if k < v.disk.len() {
                    v.disk[k]
                } else {
                    0
                }
        }),
{
    lemma_tail_block(v.reader.dev_size, v.reader.geometry.block_size as int);
}

/// A BAT sector with the entry of a block in it.
proof fn lemma_published_bytes(r: ReaderView, s: Seq<u8>, index: int, t: int)
    requires
        s.len() == 4096,
        0 <= r.bat_region_off + 8 * index,
        (r.bat_region_off + 8 * index) % 4096 <= 4088,
        0 <= t,
        t % 0x10_0000 == 0,
    ensures
        ({
            let p = (r.bat_region_off + 8 * index) % 4096;
            let sector = published_sector(r, s, index, t);
            &&& sector.len() == 4096
            &&& sector.subrange(p, p + 8) == le64_bytes(t + 6)
            &&& forall|k: int| 0 <= k < 4096 && !(p <= k < p + 8) ==> #[trigger] sector[k] == s[k]
        }),
{
    let e = r.bat_region_off + 8 * index;
    let p = e % 4096;
    let sector = published_sector(r, s, index, t);
    assert(e / 4096 * 4096 + p == e);
    assert(present_entry(t) == t + 6);
    assert(le64_bytes(t + 6).len() == 8);
    assert(sector.subrange(p, p + 8) =~= le64_bytes(t + 6));
}

/// A multiple of the block size is a multiple of a megabyte.
proof fn lemma_megabyte_boundary(t: int, bs: int)
    requires
        0 < bs,
        bs % 0x10_0000 == 0,
        t % bs == 0,
    ensures
        t % 0x10_0000 == 0,
{
    vstd::arithmetic::div_mod::lemma_fundamental_div_mod(t, bs);
    vstd::arithmetic::div_mod::lemma_fundamental_div_mod(bs, 0x10_0000);
    let p = t / bs;
    let q = bs / 0x10_0000;
    assert(t == p * q * 0x10_0000) by (nonlinear_arith)
        requires
            t == bs * p,
            bs == 0x10_0000 * q,
    ;
    vstd::arithmetic::div_mod::lemma_mod_multiples_basic(p * q, 0x10_0000);
}

/// A write to one block goes to where the block is: to the place that the BAT names, or, where it
/// names none, to the block that is allocated for it at `t`. Then it is flushed.
pub proof fn a_write_to_one_block_goes_to_its_place(
    v: Volume,
    ratio: int,
    offset: int,
    data: Seq<u8>,
    t: int,
)
    requires
        v.reader.wf(),
        fills_a_chunk(v.reader.geometry, ratio),
        v.reader.writable,
        0 <= offset,
        0 < data.len(),
        offset + data.len() <= v.reader.geometry.virtual_size,
        offset % v.reader.geometry.block_size as int + data.len() <= v.reader.geometry.block_size,
        v.reader.dev_size <= t < v.reader.dev_size + v.reader.geometry.block_size,
        t % v.reader.geometry.block_size as int == 0,
    ensures
        ({
            let r = v.reader;
            let bs = r.geometry.block_size as int;
            let entry = entry_of(r, ratio, offset);
            let index = offset / bs + offset / bs / ratio;
            let w = wrote(v, offset, data);
            let end = entry.file_offset + offset % bs + data.len();
            &&& entry.state is FullyPresent ==> {
                &&& w.ops == seq![
                    OpView::Write { offset: entry.file_offset + offset % bs, data },
                    OpView::Flush,
                ]
                &&& w.failure is None
                &&& w.volume.reader == (ReaderView {
                    dev_size: if end > r.dev_size {
                        end
                    } else {
                        r.dev_size
                    },
                    ..r
                })
            }
            &&& is_absent(r, ratio, offset) ==> {
                &&& w.ops == allocation_ops(v, index) + seq![
                    OpView::Write { offset: t + offset % bs, data },
                    OpView::Flush,
                ]
                &&& w.failure is None
                &&& w.volume.reader == allocated(v, index).reader
            }
        }),
{
    let r = v.reader;
    let bs = r.geometry.block_size as int;
    let index = bat_index(offset / bs, r.geometry.chunk_ratio());
    lemma_tail_is(r.dev_size, t, bs);
    lemma_entry_of(r, ratio, offset);
    lemma_block_of(r, offset);
    lemma_chunk_ratio_is(r.geometry, ratio);
    lemma_bat_index(offset / bs, ratio);
    if is_absent(r, ratio, offset) {
        lemma_one_new_block(v, offset, data);
    } else if r.entry_at(offset).state is FullyPresent {
        lemma_one_stored_block(v, offset, data);
    }
}

/// A write that is complete is flushed.
proof fn lemma_complete(v: Volume, offset: int, data: Seq<u8>)
    ensures
        wrote_from(v, offset, data, offset + data.len()) == (WriteOutcome {
            ops: seq![OpView::Flush],
            volume: v,
            failure: None,
        }),
{
    reveal_with_fuel(wrote_from, 1);
    assert(seq![OpView::Flush] + Seq::<OpView>::empty() =~= seq![OpView::Flush]);
}

/// A write to one block that is there.
proof fn lemma_one_stored_block(v: Volume, offset: int, data: Seq<u8>)
    requires
        0 <= offset,
        0 < data.len(),
        0 < v.reader.geometry.block_size,
        offset + data.len() <= v.reader.geometry.virtual_size,
        offset % v.reader.geometry.block_size as int + data.len() <= v.reader.geometry.block_size,
        v.reader.writable,
        v.reader.entry_at(offset).state is FullyPresent,
    ensures
        ({
            let bs = v.reader.geometry.block_size as int;
            let place = v.reader.entry_at(offset).file_offset + offset % bs;
            let w = wrote(v, offset, data);
            &&& w.ops == seq![OpView::Write { offset: place, data }, OpView::Flush]
            &&& w.failure is None
            &&& w.volume.reader == v.reader.reaching(place + data.len())
        }),
{
    let bs = v.reader.geometry.block_size as int;
    let entry = v.reader.entry_at(offset);
    let n = piece_length(bs, offset, offset + data.len());
    let after = paid(v, offset, data, offset, entry.file_offset as int);
    assert(n == data.len());
    assert(data.subrange(0, n) =~= data);
    reveal_with_fuel(wrote_from, 1);
    lemma_complete(after, offset, data);
    let pay = payment_op(v.reader, offset, data, offset, entry.file_offset as int);
    assert(seq![pay] + seq![OpView::Flush] =~= seq![pay, OpView::Flush]);
}

/// A write to one block that is not there.
proof fn lemma_one_new_block(v: Volume, offset: int, data: Seq<u8>)
    requires
        v.reader.wf(),
        0 <= offset,
        0 < data.len(),
        offset + data.len() <= v.reader.geometry.virtual_size,
        offset % v.reader.geometry.block_size as int + data.len() <= v.reader.geometry.block_size,
        v.reader.writable,
        v.reader.entry_at(offset).state.reads_as_zero(),
    ensures
        ({
            let bs = v.reader.geometry.block_size as int;
            let index = bat_index(offset / bs, v.reader.geometry.chunk_ratio());
            let place = tail_block(v.reader.dev_size, bs) + offset % bs;
            let w = wrote(v, offset, data);
            &&& w.ops == allocation_ops(v, index) + seq![
                OpView::Write { offset: place, data },
                OpView::Flush,
            ]
            &&& w.failure is None
            &&& w.volume.reader == allocated(v, index).reader
        }),
{
    let bs = v.reader.geometry.block_size as int;
    let index = bat_index(offset / bs, v.reader.geometry.chunk_ratio());
    let block = tail_block(v.reader.dev_size, bs);
    let n = piece_length(bs, offset, offset + data.len());
    let after = paid(allocated(v, index), offset, data, offset, block);
    let first = allocation_ops(v, index);
    assert(n == data.len());
    assert(data.subrange(0, n) =~= data);
    lemma_complete(after, offset, data);
    let pay = payment_op(v.reader, offset, data, offset, block);
    assert(wrote(v, offset, data) == wrote_from(after, offset, data, offset + n).preceded_by(
        first.push(pay),
    )) by {
        reveal_with_fuel(wrote_from, 1);
    }
    assert(first.push(pay) + seq![OpView::Flush] =~= first + seq![pay, OpView::Flush]);
    lemma_tail_block(v.reader.dev_size, bs);
    assert(allocated(v, index).reader.dev_size == block + bs);
}

/// What an image is once a block was allocated: the block lies at `t`, the first block boundary
/// behind the end of the device, which now ends with it; the BAT names it as fully present and is
/// otherwise what it was.
pub proof fn a_new_block_goes_behind_the_end(v: Volume, index: int, t: int)
    requires
        v.reader.wf(),
        0 <= index < v.reader.bat.len(),
        v.reader.dev_size <= t < v.reader.dev_size + v.reader.geometry.block_size,
        t % v.reader.geometry.block_size as int == 0,
        t <= u64::MAX,
    ensures
        ({
            let r = v.reader;
            let s = allocated(v, index).reader;
            &&& s.dev_size == t + r.geometry.block_size
            &&& s.bat.len() == r.bat.len()
            &&& s.bat[index] == (BatEntry {
                state: PayloadState::FullyPresent,
                file_offset: t as u64,
            })
            &&& forall|i: int|
                0 <= i < r.bat.len() && i != index ==> #[trigger] s.bat[i] == r.bat[i]
            &&& s.geometry == r.geometry
            &&& s.bat_region_off == r.bat_region_off
            &&& s.writable == r.writable
            &&& if r.header.log_length >= 8192 && r.header.log_offset > 0 {
                s.header == next_header(r.header) && s.active_slot != r.active_slot
            } else {
                s.header == r.header && s.active_slot == r.active_slot
            }
        }),
{
    let bs = v.reader.geometry.block_size as int;
    lemma_tail_is(v.reader.dev_size, t, bs);
    lemma_geometry(v.reader.geometry);
    lemma_megabyte_boundary(t, bs);
    present_entry_decodes_back(t as u64);
}

/// What the log says of an allocation: its entry parses under the GUID of the header that announces
/// it, has that header's sequence number, names the size that the device has by then, and carries
/// one sector, which is the BAT sector that is written in place afterwards.
pub proof fn the_log_announces_the_bat_sector(
    v: Volume,
    index: int,
    t: int,
    log_bytes: &[u8],
    guid: &[u8; 16],
    outcome: ParseOutcome,
)
    requires
        v.reader.wf(),
        v.disk.len() == v.reader.dev_size,
        0 <= index < v.reader.bat.len(),
        v.reader.header.log_length >= 8192,
        v.reader.header.log_offset > 0,
        v.reader.dev_size <= t < v.reader.dev_size + v.reader.geometry.block_size,
        t % v.reader.geometry.block_size as int == 0,
        t + v.reader.geometry.block_size <= u64::MAX,
        guid@ == next_header(v.reader.header).log_guid,
        log_bytes@.len() >= 8192,
        log_bytes@.subrange(0, 8192) == allocation_ops(v, index)[4]->data,
        call_ensures(parse_log_entry, (log_bytes, 0usize, guid), outcome),
    ensures
        outcome matches Ok(x) && {
            let ops = allocation_ops(v, index);
            &&& x.header.entry_length == 8192
            &&& x.header.tail == 0
            &&& x.header.sequence_number == next_header(v.reader.header).sequence_number
            &&& x.header.flushed_file_offset == t + v.reader.geometry.block_size
            &&& x.header.last_file_offset == t + v.reader.geometry.block_size
            &&& x.descriptors@.len() == 1
            &&& x.descriptors@[0] matches Descriptor::Data { file_offset, sector, .. }
                && file_offset == ops[8]->Write_offset && sector@ == ops[8]->data
        },
{
    let r = v.reader;
    let bs = r.geometry.block_size as int;
    let a = appended(v);
    let at = a.reader.sector_position(index);
    let sector = published_sector(a.reader, a.disk.subrange(at, at + 4096), index, t);
    let fields = EntryFields {
        sequence_number: next_header(r.header).sequence_number,
        tail: 0,
        log_guid: next_header(r.header).log_guid,
        flushed_file_offset: t + bs,
        last_file_offset: t + bs,
    };
    let writes = seq![WriteView { file_offset: at, sector }];
    lemma_tail_is(r.dev_size, t, bs);
    lemma_next_header_fits(r.header);
    assert(at + 4096 <= a.disk.len()) by {
        lemma_geometry(r.geometry);
    }
    assert(sector.len() == 4096);
    assert(whole_sectors(writes));
    lemma_entry_length(fields, writes);
    assert(encoded_length(1) == 8192);
    lemma_announced(v, index, fields, WriteView { file_offset: at, sector });
    encoded_entry_parses_back(log_bytes@, 0, fields, writes);
    let x = outcome->Ok_0;
    assert(x@.descriptors.len() == x.descriptors@.len());
    assert(x@.descriptors[0] == x.descriptors@[0]@);
}

/// Which of the operations of an allocation announces the BAT sector, and which writes it.
proof fn lemma_announced(v: Volume, index: int, fields: EntryFields, w: WriteView)
    requires
        has_room_to_journal(v.reader.header),
        ({
            let r = appended(v).reader;
            let h = next_header(v.reader.header);
            let at = r.sector_position(index);
            &&& fields == (EntryFields {
                sequence_number: h.sequence_number,
                tail: 0,
                log_guid: h.log_guid,
                flushed_file_offset: r.dev_size,
                last_file_offset: r.dev_size,
            })
            &&& w == (WriteView {
                file_offset: at,
                sector: published_sector(
                    r,
                    appended(v).disk.subrange(at, at + 4096),
                    index,
                    tail_block(v.reader.dev_size, v.reader.geometry.block_size as int),
                ),
            })
        }),
    ensures
        allocation_ops(v, index)[4] == (OpView::Write {
            offset: v.reader.header.log_offset,
            data: entry_bytes(fields, seq![w]),
        }),
        allocation_ops(v, index)[8] == (OpView::Write { offset: w.file_offset, data: w.sector }),
{
    lemma_steps(v, index);
}

} // verus!

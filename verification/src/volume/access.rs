//! Which accesses of the virtual disk go through, byte by byte: what the BAT entry of a byte has to
//! say for a read of it to succeed, and where the bytes that a read gives then come from.
use crate::bat::{lemma_bat_index, BatEntry, PayloadState};
use crate::device::{op_views, DeviceOp, OpView};
use crate::error::{Error, Result};
use crate::layout::{lemma_chunk_ratio_is, Geometry};
use crate::reader::{piece_length, reserved_state_message, reserved_state_text, ReadPiece, ReadPlan};
use crate::reader::{ReaderView, Source, VhdxReader};
use crate::volume::{lemma_block_of, lemma_piece_in_block};
use crate::write::lemma_next_piece;
use vstd::prelude::*;

verus! {

/// Whether `ratio` blocks fill a chunk, which is 2^23 sectors.
pub open spec fn fills_a_chunk(g: Geometry, ratio: int) -> bool {
    ratio * g.block_size == 0x80_0000 * g.sector_size
}

/// The BAT entry of the byte `at` of the virtual disk. Behind every `ratio` entries of the BAT
/// stands one that belongs to no block.
pub open spec fn entry_of(r: ReaderView, ratio: int, at: int) -> BatEntry {
    let block = at / r.geometry.block_size as int;
    r.bat[block + block / ratio]
}

/// Whether the byte `at` of the virtual disk is not on the device, and reads as zero.
pub open spec fn is_absent(r: ReaderView, ratio: int, at: int) -> bool {
    let state = entry_of(r, ratio, at).state;
    ||| state == PayloadState::NotPresent
    ||| state == PayloadState::Undefined
    ||| state == PayloadState::Zero
    ||| state == PayloadState::Unmapped
}

/// Where the byte `at` of the virtual disk lies on the device, should its block be there.
pub open spec fn place_of(r: ReaderView, ratio: int, at: int) -> int {
    entry_of(r, ratio, at).file_offset + at % r.geometry.block_size as int
}

/// Whether the byte `at` of the virtual disk lies on the device.
pub open spec fn is_stored(r: ReaderView, ratio: int, at: int) -> bool {
    &&& entry_of(r, ratio, at).state == PayloadState::FullyPresent
    &&& place_of(r, ratio, at) < r.dev_size
}

/// The entry of a byte, by the ratio and by the geometry.
pub proof fn lemma_entry_of(r: ReaderView, ratio: int, at: int)
    requires
        r.wf(),
        fills_a_chunk(r.geometry, ratio),
        0 <= at,
    ensures
        entry_of(r, ratio, at) == r.entry_at(at),
        ratio > 0,
{
    let bs = r.geometry.block_size as int;
    lemma_chunk_ratio_is(r.geometry, ratio);
    assert(0 <= at / bs) by (nonlinear_arith)
        requires
            0 <= at,
            0 < bs,
    ;
    lemma_bat_index(at / bs, ratio);
}

/// How far the pieces of a read get from `cursor` on.
spec fn reach_of(pieces: Seq<ReadPiece>, offset: int, cursor: int) -> int {
    if pieces.len() == 0 {
        cursor
    } else {
        offset + pieces.last().at + pieces.last().len
    }
}

/// Whether a piece of a read at `offset` stands for bytes of one block that can be read, and says
/// where they come from.
pub open spec fn piece_is_right(r: ReaderView, ratio: int, offset: int, p: ReadPiece) -> bool {
    let bs = r.geometry.block_size as int;
    let first = offset + p.at;
    &&& 0 < p.len
    &&& first / bs == (first + p.len - 1) / bs
    &&& match p.source {
        Source::Zeros => is_absent(r, ratio, first),
        Source::Host(host) => {
            &&& is_stored(r, ratio, first)
            &&& is_stored(r, ratio, first + p.len - 1)
            &&& host == place_of(r, ratio, first)
        },
    }
}

/// The pieces of a read from `cursor` on: they adjoin, each is right, and they end where the first
/// block that cannot be read starts.
proof fn lemma_pieces(r: ReaderView, ratio: int, offset: int, cursor: int, end: int)
    requires
        r.wf(),
        fills_a_chunk(r.geometry, ratio),
        0 <= offset <= cursor <= end <= r.geometry.virtual_size,
        end - offset <= usize::MAX,
    ensures
        ({
            let ps = r.pieces_from(offset, cursor, end);
            let reach = reach_of(ps, offset, cursor);
            &&& ps.len() > 0 ==> ps[0].at == cursor - offset
            &&& forall|i: int|
                0 <= i < ps.len() ==> piece_is_right(r, ratio, offset, #[trigger] ps[i])
            &&& forall|i: int, j: int|
                #![trigger ps[i], ps[j]]
                0 <= i && j == i + 1 && j < ps.len() ==> ps[j].at == ps[i].at + ps[i].len
            &&& cursor <= reach <= end
            &&& forall|at: int|
                cursor <= at < reach ==> #[trigger] is_absent(r, ratio, at) || is_stored(
                    r,
                    ratio,
                    at,
                )
            &&& reach == end ==> r.refusal_from(cursor, end) is None
            &&& reach < end ==> {
                let n = piece_length(r.geometry.block_size as int, reach, end);
                &&& r.source_of(reach, n) is Err
                &&& r.refusal_from(cursor, end) == Some(r.source_of(reach, n)->Err_0)
            }
        }),
    decreases end - cursor,
{
    let bs = r.geometry.block_size as int;
    let ps = r.pieces_from(offset, cursor, end);
    if cursor < end {
        let n = piece_length(bs, cursor, end);
        lemma_next_piece(bs, cursor, end);
        lemma_entry_of(r, ratio, cursor);
        match r.source_of(cursor, n) {
            Err(_) => {},
            Ok(source) => {
                let piece = ReadPiece { at: (cursor - offset) as usize, len: n as usize, source };
                let rest = r.pieces_from(offset, cursor + n, end);
                lemma_pieces(r, ratio, offset, cursor + n, end);
                assert(ps =~= seq![piece] + rest);
                lemma_piece_in_block(bs, cursor, end, n - 1);
                lemma_block_of(r, cursor);
                lemma_entry_of(r, ratio, cursor + n - 1);
                assert(piece_is_right(r, ratio, offset, piece));
                assert forall|i: int| 0 <= i < ps.len() implies piece_is_right(
                    r,
                    ratio,
                    offset,
                    #[trigger] ps[i],
                ) by {
                    if i > 0 {
                        assert(ps[i] == rest[i - 1]);
                    }
                }
                assert forall|i: int, j: int|
                    #![trigger ps[i], ps[j]]
                    0 <= i && j == i + 1 && j < ps.len() implies ps[j].at == ps[i].at
                    + ps[i].len by {
                    assert(ps[j] == rest[j - 1]);
                    if i > 0 {
                        assert(ps[i] == rest[i - 1]);
                    }
                }
                if rest.len() > 0 {
                    assert(ps.last() == rest.last());
                } else {
                    assert(ps.last() == piece);
                }
                assert(reach_of(ps, offset, cursor) == reach_of(rest, offset, cursor + n));
                assert forall|at: int|
                    cursor <= at < reach_of(ps, offset, cursor) implies #[trigger] is_absent(
                    r,
                    ratio,
                    at,
                ) || is_stored(r, ratio, at) by {
                    if at < cursor + n {
                        lemma_piece_in_block(bs, cursor, end, at - cursor);
                        lemma_entry_of(r, ratio, at);
                    }
                }
            },
        }
    } else {
        assert(ps.len() == 0);
    }
}

/// The bytes of a piece that is refused: the last of them cannot be read, and all are of one block.
proof fn lemma_refused_piece(r: ReaderView, ratio: int, cursor: int, end: int)
    requires
        r.wf(),
        fills_a_chunk(r.geometry, ratio),
        0 <= cursor < end <= r.geometry.virtual_size,
        r.source_of(cursor, piece_length(r.geometry.block_size as int, cursor, end)) is Err,
    ensures
        ({
            let bs = r.geometry.block_size as int;
            let last = cursor + piece_length(bs, cursor, end) - 1;
            &&& cursor <= last < end
            &&& !is_absent(r, ratio, last)
            &&& !is_stored(r, ratio, last)
            &&& forall|at: int|
                cursor <= at <= last ==> #[trigger] entry_of(r, ratio, at) == r.entry_at(cursor)
            &&& forall|at: int| cursor <= at <= last ==> #[trigger] (at / bs) == cursor / bs
        }),
{
    let bs = r.geometry.block_size as int;
    let n = piece_length(bs, cursor, end);
    let last = cursor + n - 1;
    lemma_next_piece(bs, cursor, end);
    lemma_piece_in_block(bs, cursor, end, n - 1);
    lemma_entry_of(r, ratio, last);
    assert forall|at: int| cursor <= at <= last implies #[trigger] entry_of(r, ratio, at)
        == r.entry_at(cursor) by {
        lemma_piece_in_block(bs, cursor, end, at - cursor);
        lemma_entry_of(r, ratio, at);
    }
    assert forall|at: int| cursor <= at <= last implies #[trigger] (at / bs) == cursor / bs by {
        lemma_piece_in_block(bs, cursor, end, at - cursor);
    }
}

/// A read inside the disk is refused only where it must be: it succeeds exactly when each of its
/// bytes is absent and so reads as zero, in any of the four states that say so, or is stored on
/// the device. `ratio` is the number of data entries in a chunk.
pub proof fn a_read_succeeds_where_every_byte_can_be_read(
    r: &VhdxReader,
    offset: u64,
    len: usize,
    plan: ReadPlan,
    ratio: int,
)
    requires
        r.wf(),
        fills_a_chunk(r@.geometry, ratio),
        call_ensures(VhdxReader::read_at, (r, offset, len), plan),
        offset + len <= r@.geometry.virtual_size,
    ensures
        call_requires(VhdxReader::read_at, (r, offset, len)),
        plan.outcome is Ok <==> forall|at: int|
            offset <= at < offset + len ==> #[trigger] is_absent(r@, ratio, at) || is_stored(
                r@,
                ratio,
                at,
            ),
{
    let end = offset + len;
    lemma_pieces(r@, ratio, offset as int, offset as int, end);
    let reach = reach_of(plan.pieces@, offset as int, offset as int);
    if reach < end {
        lemma_refused_piece(r@, ratio, reach, end);
        let last = reach + piece_length(r@.geometry.block_size as int, reach, end) - 1;
        assert(!is_absent(r@, ratio, last));
    }
}

/// Why a read is refused: the first byte of it that can be neither read as zero nor from the device
/// says so. Its block is named past the end of the file, is only partially present, or is in a
/// reserved state. The blocks before are still read.
pub proof fn the_first_byte_that_cannot_be_read_is_the_reason(
    r: &VhdxReader,
    offset: u64,
    len: usize,
    plan: ReadPlan,
    ratio: int,
    bad: int,
)
    requires
        r.wf(),
        fills_a_chunk(r@.geometry, ratio),
        call_ensures(VhdxReader::read_at, (r, offset, len), plan),
        offset + len <= r@.geometry.virtual_size,
        offset <= bad < offset + len,
        !is_absent(r@, ratio, bad),
        !is_stored(r@, ratio, bad),
        forall|at: int|
            offset <= at < bad ==> #[trigger] is_absent(r@, ratio, at) || is_stored(r@, ratio, at),
    ensures
        match entry_of(r@, ratio, bad).state {
            PayloadState::FullyPresent => plan.outcome == Err::<(), Error>(
                Error::Corrupt("BAT entry points past the file"),
            ),
            PayloadState::PartiallyPresent => plan.outcome == Err::<(), Error>(
                Error::Unsupported("PartiallyPresent block (sector-bitmap walking not implemented)"),
            ),
            PayloadState::Reserved(v) => plan.outcome == Err::<(), Error>(
                Error::Unsupported(reserved_state_text(v)),
            ),
            _ => false,
        },
        ({
            let bs = r@.geometry.block_size as int;
            let ps = plan.pieces@;
            let reach = if ps.len() == 0 {
                offset as int
            } else {
                offset + ps.last().at + ps.last().len
            };
            &&& offset <= reach <= bad
            &&& reach / bs == bad / bs
        }),
{
    let bs = r@.geometry.block_size as int;
    let end = offset + len;
    lemma_pieces(r@, ratio, offset as int, offset as int, end);
    let reach = reach_of(plan.pieces@, offset as int, offset as int);
    assert(reach <= bad) by {
        if bad < reach {
            assert(is_absent(r@, ratio, bad) || is_stored(r@, ratio, bad));
        }
    }
    lemma_refused_piece(r@, ratio, reach, end);
    let last = reach + piece_length(bs, reach, end) - 1;
    assert(bad <= last) by {
        if last < bad {
            assert(is_absent(r@, ratio, last) || is_stored(r@, ratio, last));
        }
    }
    assert(entry_of(r@, ratio, bad) == r@.entry_at(reach));
    assert(bad / bs == reach / bs);
}

/// The bytes of a read come from where they are: the read is cut into pieces that adjoin, none of
/// them crosses a block, and each is zeros for a block that is absent, or the bytes at the place
/// that the BAT names. A read that succeeds is covered whole.
pub proof fn a_read_is_cut_into_adjoining_pieces(
    r: &VhdxReader,
    offset: u64,
    len: usize,
    plan: ReadPlan,
    ratio: int,
)
    requires
        r.wf(),
        fills_a_chunk(r@.geometry, ratio),
        call_ensures(VhdxReader::read_at, (r, offset, len), plan),
        offset + len <= r@.geometry.virtual_size,
    ensures
        plan.pieces@.len() > 0 ==> plan.pieces@[0].at == 0,
        forall|i: int|
            0 <= i < plan.pieces@.len() ==> piece_is_right(
                r@,
                ratio,
                offset as int,
                #[trigger] plan.pieces@[i],
            ),
        forall|i: int, j: int|
            #![trigger plan.pieces@[i], plan.pieces@[j]]
            0 <= i && j == i + 1 && j < plan.pieces@.len() ==> plan.pieces@[j].at
                == plan.pieces@[i].at + plan.pieces@[i].len,
        plan.outcome is Ok && len > 0 ==> plan.pieces@.len() > 0 && plan.pieces@.last().at
            + plan.pieces@.last().len == len,
        len == 0 ==> plan.pieces@.len() == 0 && plan.outcome is Ok,
{
    let end = offset + len;
    lemma_pieces(r@, ratio, offset as int, offset as int, end);
}

/// A read past the end of the disk is refused, and performs nothing; one that nothing is asked of
/// is never refused.
pub proof fn a_read_past_the_end_is_refused(
    r: &VhdxReader,
    offset: u64,
    len: usize,
    plan: ReadPlan,
)
    requires
        r.wf(),
        call_ensures(VhdxReader::read_at, (r, offset, len), plan),
    ensures
        len == 0 ==> plan.outcome is Ok && plan.pieces@.len() == 0,
        len > 0 && offset + len > r@.geometry.virtual_size ==> {
            &&& plan.pieces@.len() == 0
            &&& plan.outcome is Err
            &&& offset + len <= u64::MAX ==> plan.outcome == Err::<(), Error>(
                Error::OutOfBounds { offset, len: len as u64, size: r@.geometry.virtual_size },
            )
            &&& offset + len > u64::MAX ==> (plan.outcome matches Err(e) && e is Corrupt)
        },
{
}

/// The two reserved states have words of their own, and so has anything else.
pub proof fn reserved_states_are_told_apart(v: u8, w: u8, s: &'static str, t: &'static str)
    requires
        call_ensures(reserved_state_message, (v,), s),
        call_ensures(reserved_state_message, (w,), t),
        v != w,
        v == 4 || v == 5,
    ensures
        call_requires(reserved_state_message, (v,)),
        s@ != t@,
{
    reveal_strlit("BAT entry reserved state 4");
    reveal_strlit("BAT entry reserved state 5");
    reveal_strlit("BAT entry in a reserved payload state");
    let four = "BAT entry reserved state 4"@;
    let five = "BAT entry reserved state 5"@;
    let other = "BAT entry in a reserved payload state"@;
    assert(four[25] == '4');
    assert(five[25] == '5');
    assert(other.len() == 37);
}

/// What an open image says of itself is what it was opened with, and it never has a parent. What
/// takes no writes has nothing to flush; anything else flushes once.
pub proof fn an_open_image_says_what_it_is(
    r: &VhdxReader,
    size: u64,
    block: u32,
    sector: u32,
    parent: bool,
    writable: bool,
    ops: Vec<DeviceOp>,
)
    requires
        call_ensures(VhdxReader::virtual_size, (r,), size),
        call_ensures(VhdxReader::block_size, (r,), block),
        call_ensures(VhdxReader::sector_size, (r,), sector),
        call_ensures(VhdxReader::has_parent, (r,), parent),
        call_ensures(VhdxReader::is_writable, (r,), writable),
        call_ensures(VhdxReader::flush, (r,), ops),
    ensures
        r@.geometry == (Geometry { virtual_size: size, block_size: block, sector_size: sector }),
        !parent,
        writable == r@.writable,
        writable ==> ops@.len() == 1 && ops@[0] is Flush,
        !writable ==> ops@.len() == 0,
{
    let views = op_views(ops@);
    assert(views.len() == ops@.len());
    if writable {
        assert(views[0] == OpView::Flush);
        assert(views[0] == ops@[0]@);
    }
}

} // verus!

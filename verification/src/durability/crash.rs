//! What a crash in the middle of an allocation leaves of an image.
//!
//! An allocation appends a zeroed block, journals the change of the BAT, writes the header that
//! announces the log entry, and only then changes the BAT in place. The header is what commits
//! it: before, the image still reads as it did; after, opening the image finishes the job.
use crate::bat::bat_index;
use crate::bytes::{splice, zeros};
use crate::device::{after_ops, lemma_after_one_op, lemma_after_ops_split, lemma_after_two_ops};
use crate::device::{performed, written, OpView};
use crate::durability::{agree, announces, intact, journal_fields, kept, lemma_agree};
use crate::durability::{lemma_allocated_announces, lemma_allocated_bytes};
use crate::durability::{lemma_allocated_is_intact, lemma_contents_agree, lemma_front_agrees};
use crate::durability::{lemma_later_header_is_active, lemma_layout_follows_the_log_region};
use crate::durability::{lemma_log_apart, lemma_longer_device_is_clear, lemma_longer_device_is_kept};
use crate::durability::{lemma_new_block_is_intact, lemma_open_with_lone_sector};
use crate::durability::{lemma_paid_is_intact, lemma_sequence_after_allocating, lemma_slot_agrees};
use crate::durability::{lemma_structures_on_longer_device, lemma_write_frame, nothing_pending};
use crate::durability::{on_longer_device, reopening_gives_the_same_contents, slots_agree};
use crate::durability::{structures_apart, Placement};
use crate::header::{HeaderSlot, HeaderView};
use crate::layout::{layout_fault, log_region_fault};
use crate::log::EntryView;
use crate::log::chain::{lemma_zeros_end_the_scan, replay_chain};
use crate::log::encode::{lone_entry_of_another_chain_is_not_replayed, WriteView};
use crate::open::{is_dirty, opened, opened_with_log_settled, region_table_on, slot_header};
use crate::open::OpenMode;
use crate::reader::{has_room_to_journal, lemma_index_in_bat, lemma_tail_block, next_header};
use crate::reader::{next_log_guid_is_a_new_one, piece_length, tail_block, ReaderView};
use crate::volume::{apart, block_is_apart, blocks_apart, blocks_clear, claims_are_free};
use crate::volume::{claims_free_from, contents, lemma_allocated, lemma_allocated_clear};
use crate::volume::{lemma_allocation_ops, lemma_block_of, lemma_claims_after_allocating};
use crate::volume::{lemma_claims_after_paying, lemma_journal_entry_length, lemma_journal_frame};
use crate::volume::{lemma_next_header_fits, lemma_paid, lemma_sector_before_tail};
use crate::volume::{lemma_splices_meet, place_is_free};
use crate::write::{allocated, allocation_ops, allocations_from, append_op, appended, commit_ops};
use crate::write::{entry_in_one_sector, has_room, has_room_from, journal_entry, journal_ops};
use crate::write::{journalled, lemma_next_piece, lemma_rest_after_allocating};
use crate::write::{lemma_rest_after_paying, paid, payment_op, piece_end, published_sector, wrote};
use crate::write::{wrote_from, Volume};
use vstd::prelude::*;

verus! {

/// Whether the bytes by which a device has grown change no block: where the BAT names a place that
/// the device did not reach, they are zero.
pub open spec fn growth_is_unseen(v: Volume, disk: Seq<u8>) -> bool {
    let r = v.reader;
    forall|b: int, k: int|
        #[trigger] r.has_block(b) && v.disk.len() <= k < disk.len() && r.host_of(b) <= k
            < r.host_of(b) + r.geometry.block_size ==> #[trigger] disk[k] == 0
}

/// The blocks of a volume do not depend on what follows them on the device.
proof fn lemma_longer_device_has_the_same_contents(v: Volume, disk: Seq<u8>)
    requires
        blocks_clear(v),
        v.disk.len() <= disk.len() <= u64::MAX,
        agree(disk, v.disk, 0, v.disk.len() as int),
        growth_is_unseen(v, disk),
    ensures
        blocks_clear(on_longer_device(v, disk)),
        blocks_apart(v) ==> blocks_apart(on_longer_device(v, disk)),
        contents(on_longer_device(v, disk)) == contents(v),
{
    let r = v.reader;
    let bs = r.geometry.block_size as int;
    let w = on_longer_device(v, disk);
    let s = w.reader;
    lemma_longer_device_is_clear(v, disk);
    if blocks_apart(v) {
        assert forall|b: int, c: int|
            #[trigger] s.has_block(b) && #[trigger] s.has_block(c) && b != c implies apart(
            s.host_of(b),
            bs,
            s.host_of(c),
            bs,
        ) by {
            assert(r.has_block(b) && r.has_block(c));
        }
    }
    assert forall|at: int| 0 <= at < r.geometry.virtual_size implies #[trigger] contents(w)[at]
        == contents(v)[at] by {
        lemma_block_of(r, at);
        if r.has_block(at / bs) {
            assert(block_is_apart(r, at / bs));
            let k = r.host_of(at / bs) + at % bs;
            if v.disk.len() <= k < disk.len() {
                assert(disk[k] == 0);
            }
        }
    }
    assert(contents(w) =~= contents(v));
}

/// A crash while a block is appended loses only the write: whatever part of the block reached the
/// device, the image opens as it was. That no block sees the new bytes holds of every image whose
/// blocks lie inside its device; of any other, while the new bytes are zero.
pub proof fn crash_while_appending_loses_only_the_write(
    v: Volume,
    p: Placement,
    disk: Seq<u8>,
    mode: OpenMode,
)
    requires
        kept(v, p),
        structures_apart(v.reader, p),
        blocks_clear(v),
        v.disk.len() <= disk.len() <= u64::MAX,
        agree(disk, v.disk, 0, v.disk.len() as int),
        growth_is_unseen(v, disk),
        mode.replay_capable,
    ensures
        ({
            let o = opened(disk, mode);
            &&& o.result is Ok
            &&& o.result->Ok_0.geometry == v.reader.geometry
            &&& o.result->Ok_0.bat == v.reader.bat
            &&& contents(Volume { reader: o.result->Ok_0, disk: o.disk }) == contents(v)
        }),
{
    lemma_longer_device_is_kept(v, p, disk);
    lemma_longer_device_has_the_same_contents(v, disk);
    assert(structures_apart(on_longer_device(v, disk).reader, p)) by {
        lemma_structures_on_longer_device(v.reader, p, disk.len() as int);
    }
    reopening_gives_the_same_contents(on_longer_device(v, disk), p, mode);
}

/// Whether two devices hold the same bytes everywhere but in a span.
pub open spec fn agree_outside(a: Seq<u8>, b: Seq<u8>, from: int, len: int) -> bool {
    &&& a.len() == b.len()
    &&& forall|k: int| 0 <= k < a.len() && !(from <= k < from + len) ==> #[trigger] a[k] == b[k]
}

/// What a device keeps of an image when only its log changes.
proof fn lemma_log_changed(v: Volume, p: Placement, disk: Seq<u8>)
    requires
        kept(v, p),
        structures_apart(v.reader, p),
        blocks_clear(v),
        v.reader.header.log_length > 0,
        agree_outside(disk, v.disk, v.reader.header.log_offset, v.reader.header.log_length),
    ensures
        ({
            let r = v.reader;
            let m = p.metadata;
            &&& disk.len() >= 0x10_0000
            &&& disk.subrange(0, 8) == v.disk.subrange(0, 8)
            &&& region_table_on(disk) == region_table_on(v.disk)
            &&& slot_header(disk, HeaderSlot::One) == slot_header(v.disk, HeaderSlot::One)
            &&& slot_header(disk, HeaderSlot::Two) == slot_header(v.disk, HeaderSlot::Two)
            &&& slot_header(disk, r.active_slot) == slot_header(v.disk, r.active_slot)
            &&& disk.subrange(m.file_offset, m.file_offset + m.length) == v.disk.subrange(
                m.file_offset,
                m.file_offset + m.length,
            )
            &&& disk.subrange(r.bat_region_off, r.bat_region_off + 8 * r.bat.len())
                == v.disk.subrange(r.bat_region_off, r.bat_region_off + 8 * r.bat.len())
            &&& blocks_clear(Volume { reader: r, disk })
            &&& contents(Volume { reader: r, disk }) == contents(v)
        }),
{
    let r = v.reader;
    let m = p.metadata;
    lemma_log_apart(v, p);
    lemma_front_agrees(disk, v.disk);
    lemma_slot_agrees(disk, v.disk, HeaderSlot::One);
    lemma_slot_agrees(disk, v.disk, HeaderSlot::Two);
    lemma_slot_agrees(disk, v.disk, r.active_slot);
    lemma_agree(disk, v.disk, m.file_offset, m.length);
    lemma_agree(disk, v.disk, r.bat_region_off, 8 * r.bat.len() as int);
    lemma_contents_agree(v, disk);
}

/// An image whose log was lost opens as it was: a log with nothing in it to replay is not
/// needed, since every change that it announced has been made.
pub proof fn image_without_its_log_opens_as_it_was(
    v: Volume,
    p: Placement,
    disk: Seq<u8>,
    mode: OpenMode,
)
    requires
        kept(v, p),
        structures_apart(v.reader, p),
        blocks_clear(v),
        v.reader.header.log_length > 0,
        agree_outside(disk, v.disk, v.reader.header.log_offset, v.reader.header.log_length),
        replay_chain(
            disk.subrange(
                v.reader.header.log_offset,
                v.reader.header.log_offset + v.reader.header.log_length,
            ),
            v.reader.header.log_guid,
        ) == Seq::<EntryView>::empty(),
        mode.replay_capable,
    ensures
        ({
            let o = opened(disk, mode);
            &&& o.result is Ok
            &&& o.result->Ok_0.geometry == v.reader.geometry
            &&& o.result->Ok_0.bat == v.reader.bat
            &&& contents(Volume { reader: o.result->Ok_0, disk: o.disk }) == contents(v)
        }),
{
    let r = v.reader;
    let h = r.header;
    let w = Volume { reader: r, disk };
    lemma_log_changed(v, p, disk);
    assert(nothing_pending(w));
    assert(slots_agree(w));
    reopening_gives_the_same_contents(w, p, mode);
}

/// A zeroed log has nothing to replay.
proof fn lemma_zeroed_log(log: Seq<u8>, guid: Seq<u8>)
    requires
        forall|k: int| 0 <= k < log.len() ==> log[k] == 0,
    ensures
        replay_chain(log, guid) == Seq::<EntryView>::empty(),
{
    lemma_zeros_end_the_scan(log, guid, 0);
}

/// The device after the first operations that journal a write: the log is erased, and then it
/// holds the new entry.
proof fn lemma_before_the_new_header(
    r: ReaderView,
    disk: Seq<u8>,
    at: int,
    sector: Seq<u8>,
    k: int,
)
    requires
        has_room_to_journal(r.header),
        0 <= k <= 4,
    ensures
        ({
            let from = r.header.log_offset;
            let erased = written(disk, from, zeros(r.header.log_length as nat));
            after_ops(disk, journal_ops(r, at, sector).take(k)) == if k == 0 {
                disk
            } else if k <= 2 {
                erased
            } else {
                written(erased, from, journal_entry(r, at, sector))
            }
        }),
{
    let ops = journal_ops(r, at, sector);
    let erase = OpView::Zeros { offset: r.header.log_offset, len: r.header.log_length };
    let erased = written(disk, r.header.log_offset, zeros(r.header.log_length as nat));
    let entry = OpView::Write {
        offset: r.header.log_offset,
        data: journal_entry(r, at, sector),
    };
    lemma_after_one_op(disk, erase);
    lemma_after_two_ops(disk, erase, entry);
    if k == 0 {
        assert(ops.take(0) =~= Seq::<OpView>::empty());
    } else if k == 1 {
        assert(ops.take(1) =~= seq![erase]);
    } else if k == 2 {
        assert(ops.take(2) =~= seq![erase, OpView::Flush]);
    } else if k == 3 {
        assert(ops.take(3).drop_last() =~= seq![erase, OpView::Flush]);
        assert(ops.take(3).last() == entry);
    } else {
        assert(ops.take(4) =~= seq![erase, OpView::Flush, entry, OpView::Flush]);
    }
}

/// A crash before the header of a journalled write is written loses only the write: after each of
/// the operations up to there the image opens as it was.
pub proof fn crash_before_the_new_header_loses_only_the_write(
    v: Volume,
    p: Placement,
    at: int,
    sector: Seq<u8>,
    k: int,
    mode: OpenMode,
)
    requires
        kept(v, p),
        structures_apart(v.reader, p),
        blocks_clear(v),
        v.reader.header.log_length > 0,
        v.reader.header.sequence_number < u64::MAX,
        0 <= at <= u64::MAX,
        sector.len() == 4096,
        0 <= k <= 4,
        mode.replay_capable,
    ensures
        ({
            let disk = after_ops(v.disk, journal_ops(v.reader, at, sector).take(k));
            let o = opened(disk, mode);
            &&& o.result is Ok
            &&& o.result->Ok_0.geometry == v.reader.geometry
            &&& o.result->Ok_0.bat == v.reader.bat
            &&& contents(Volume { reader: o.result->Ok_0, disk: o.disk }) == contents(v)
        }),
{
    let r = v.reader;
    let h = r.header;
    let from = h.log_offset;
    let len = h.log_length;
    let erased = written(v.disk, from, zeros(len as nat));
    let e = journal_entry(r, at, sector);
    let disk = after_ops(v.disk, journal_ops(r, at, sector).take(k));
    let log = disk.subrange(from, from + len);
    lemma_log_apart(v, p);
    lemma_before_the_new_header(r, v.disk, at, sector, k);
    lemma_journal_entry_length(r, at, sector);
    lemma_next_header_fits(h);
    if k == 0 {
        reopening_gives_the_same_contents(v, p, mode);
    } else if k <= 2 {
        lemma_zeroed_log(log, h.log_guid);
        image_without_its_log_opens_as_it_was(v, p, disk, mode);
    } else {
        let w = WriteView { file_offset: at, sector };
        next_log_guid_is_a_new_one(h.log_guid, next_header(h).sequence_number);
        assert(log.subrange(0, 8192) =~= e);
        lone_entry_of_another_chain_is_not_replayed(log, journal_fields(r), w, h.log_guid);
        image_without_its_log_opens_as_it_was(v, p, disk, mode);
    }
}

/// A crash while the BAT is changed in place is made good by the next open: whatever part of the
/// BAT sector reached the device, the image opens exactly as if all of it had.
pub proof fn crash_while_publishing_is_made_good(
    v: Volume,
    p: Placement,
    cursor: int,
    disk: Seq<u8>,
    mode: OpenMode,
)
    requires
        kept(v, p),
        structures_apart(v.reader, p),
        blocks_apart(v),
        v.reader.header.log_length > 0,
        v.reader.header.sequence_number < u64::MAX,
        0 <= cursor < v.reader.geometry.virtual_size,
        v.reader.entry_at(cursor).state.reads_as_zero(),
        v.reader.grown().dev_size <= u64::MAX,
        place_is_free(
            v.reader,
            tail_block(v.reader.dev_size, v.reader.geometry.block_size as int),
        ),
        mode.replay_capable,
        ({
            let r = v.reader;
            let bs = r.geometry.block_size as int;
            let index = bat_index(cursor / bs, r.geometry.chunk_ratio());
            let at = r.sector_position(index);
            let a = appended(v);
            let sector = published_sector(
                a.reader,
                a.disk.subrange(at, at + 4096),
                index,
                tail_block(r.dev_size, bs),
            );
            &&& entry_in_one_sector(r, index)
            &&& agree_outside(disk, journalled(a, index, sector).disk, at, 4096)
        }),
    ensures
        ({
            let bs = v.reader.geometry.block_size as int;
            let index = bat_index(cursor / bs, v.reader.geometry.chunk_ratio());
            let w = allocated(v, index);
            let o = opened(disk, mode);
            &&& o.disk == opened(w.disk, mode).disk
            &&& o.result == opened(w.disk, mode).result
            &&& o.result is Ok
            &&& o.result->Ok_0.geometry == v.reader.geometry
            &&& o.result->Ok_0.bat == w.reader.bat
            &&& contents(Volume { reader: o.result->Ok_0, disk: o.disk }) == contents(v)
        }),
{
    let r = v.reader;
    let h = r.header;
    let bs = r.geometry.block_size as int;
    let index = bat_index(cursor / bs, r.geometry.chunk_ratio());
    let w = allocated(v, index);
    lemma_index_in_bat(r, cursor);
    lemma_allocated(v, cursor);
    assert(kept(w, p) && structures_apart(w.reader, p) && blocks_clear(w)) by {
        reveal(intact);
        lemma_allocated_is_intact(v, p, cursor);
    }
    lemma_torn_allocation_is_made_good(v, p, index, disk, mode);
    reveal(open_alike);
    reopening_gives_the_same_contents(w, p, mode);
}

/// Opening an image on which an allocation was torn comes to the same as opening it afterwards.
proof fn lemma_torn_allocation_is_made_good(
    v: Volume,
    p: Placement,
    index: int,
    disk: Seq<u8>,
    mode: OpenMode,
)
    requires
        kept(v, p),
        structures_apart(v.reader, p),
        v.reader.header.log_length > 0,
        v.reader.header.sequence_number < u64::MAX,
        0 <= index < v.reader.bat.len(),
        entry_in_one_sector(v.reader, index),
        v.reader.grown().dev_size <= u64::MAX,
        mode.replay_capable,
        ({
            let r = v.reader;
            let at = r.sector_position(index);
            let a = appended(v);
            let sector = published_sector(
                a.reader,
                a.disk.subrange(at, at + 4096),
                index,
                tail_block(r.dev_size, r.geometry.block_size as int),
            );
            agree_outside(disk, journalled(a, index, sector).disk, at, 4096)
        }),
    ensures
        open_alike(disk, allocated(v, index).disk, mode),
{
    let r = v.reader;
    let w = allocated(v, index);
    lemma_log_apart(v, p);
    lemma_tail_block(r.dev_size, r.geometry.block_size as int);
    lemma_sector_before_tail(r, index);
    lemma_published_in_one_sector(v, p, index);
    lemma_allocated_bytes(v, p, index);
    lemma_allocated_announces(v, p, index);
    assert(agree_outside(disk, w.disk, r.sector_position(index), 4096));
    lemma_torn_sector_is_rewritten(r, p, index, w.disk, disk, mode);
}

/// Whether opening two devices comes to the same image and leaves the same contents.
#[verifier::opaque]
spec fn open_alike(a: Seq<u8>, b: Seq<u8>, mode: OpenMode) -> bool {
    &&& opened(a, mode).disk == opened(b, mode).disk
    &&& opened(a, mode).result == opened(b, mode).result
}

/// Whether opening a device comes to settling the log on another, with a header in a slot.
#[verifier::opaque]
spec fn opens_settled(
    disk: Seq<u8>,
    settled: Seq<u8>,
    h: HeaderView,
    slot: HeaderSlot,
    mode: OpenMode,
) -> bool {
    let s = opened_with_log_settled(settled, h, slot, true, mode);
    &&& opened(disk, mode).disk == s.disk
    &&& opened(disk, mode).result == s.result
}

/// Devices that come to settling the log on the same one open alike.
proof fn lemma_open_alike(
    a: Seq<u8>,
    b: Seq<u8>,
    settled: Seq<u8>,
    h: HeaderView,
    slot: HeaderSlot,
    mode: OpenMode,
)
    requires
        opens_settled(a, settled, h, slot, mode),
        opens_settled(b, settled, h, slot, mode),
    ensures
        open_alike(a, b, mode),
{
    reveal(open_alike);
    reveal(opens_settled);
}

/// What an allocation leaves, and what was there before the BAT sector was written, differ in
/// that sector alone.
proof fn lemma_published_in_one_sector(v: Volume, p: Placement, index: int)
    requires
        kept(v, p),
        structures_apart(v.reader, p),
        0 <= index < v.reader.bat.len(),
        entry_in_one_sector(v.reader, index),
        v.reader.grown().dev_size <= u64::MAX,
    ensures
        ({
            let r = v.reader;
            let at = r.sector_position(index);
            let a = appended(v);
            let sector = published_sector(
                a.reader,
                a.disk.subrange(at, at + 4096),
                index,
                tail_block(r.dev_size, r.geometry.block_size as int),
            );
            agree_outside(allocated(v, index).disk, journalled(a, index, sector).disk, at, 4096)
        }),
{
    let r = v.reader;
    let bs = r.geometry.block_size as int;
    let at = r.sector_position(index);
    let a = appended(v);
    let sector = published_sector(
        a.reader,
        a.disk.subrange(at, at + 4096),
        index,
        tail_block(r.dev_size, bs),
    );
    let j = journalled(a, index, sector);
    if r.header.log_length > 0 {
        lemma_log_apart(v, p);
    }
    lemma_tail_block(r.dev_size, bs);
    lemma_sector_before_tail(r, index);
    lemma_journal_frame(a.reader, a.disk, at, sector);
    assert(allocated(v, index).disk == written(j.disk, at, sector));
    lemma_write_frame(j.disk, at, sector);
}

/// Opening a device that announces a BAT sector does not depend on what the sector holds.
proof fn lemma_torn_sector_is_rewritten(
    r: ReaderView,
    p: Placement,
    index: int,
    x: Seq<u8>,
    disk: Seq<u8>,
    mode: OpenMode,
)
    requires
        r.wf(),
        r.header.version == 1,
        r.header.log_version == 0,
        r.header.sequence_number < u64::MAX,
        has_room_to_journal(r.header),
        log_region_fault(r.header, r.dev_size) is None,
        layout_fault(r.header, p.regions) is None,
        r.dev_size <= r.grown().dev_size == x.len() <= u64::MAX,
        0x10_0000 <= r.dev_size,
        0x10_0000 <= r.sector_position(index),
        r.sector_position(index) + 4096 <= x.len(),
        apart(r.sector_position(index), 4096, r.header.log_offset, r.header.log_length),
        announces(
            r,
            p,
            index,
            x,
            x.subrange(r.sector_position(index), r.sector_position(index) + 4096),
        ),
        agree_outside(disk, x, r.sector_position(index), 4096),
        mode.replay_capable,
    ensures
        open_alike(disk, x, mode),
{
    let at = r.sector_position(index);
    let sector = x.subrange(at, at + 4096);
    lemma_announced_outside_the_sector(r, p, index, x, disk, sector);
    lemma_announced_sector_opens(r, p, index, x, sector, mode);
    lemma_announced_sector_opens(r, p, index, disk, sector, mode);
    assert(written(disk, at, sector) =~= x);
    assert(written(x, at, sector) =~= x);
    lemma_open_alike(disk, x, x, next_header(r.header), r.active_slot.opposite(), mode);
}

/// The announcement lies outside the sector.
proof fn lemma_announced_outside_the_sector(
    r: ReaderView,
    p: Placement,
    index: int,
    x: Seq<u8>,
    disk: Seq<u8>,
    sector: Seq<u8>,
)
    requires
        announces(r, p, index, x, sector),
        agree_outside(disk, x, r.sector_position(index), 4096),
        x.len() >= 0x10_0000,
        0x10_0000 <= r.sector_position(index),
        0 <= r.header.log_offset,
        0 <= r.header.log_length,
        r.header.log_offset + r.header.log_length <= x.len(),
        apart(r.sector_position(index), 4096, r.header.log_offset, r.header.log_length),
    ensures
        announces(r, p, index, disk, sector),
{
    reveal(announces);
    lemma_front_agrees(disk, x);
    lemma_slot_agrees(disk, x, r.active_slot);
    lemma_slot_agrees(disk, x, r.active_slot.opposite());
    lemma_agree(disk, x, r.header.log_offset, r.header.log_length);
}

/// Opening a device that announces a BAT sector: the sector is written, and the log is settled.
proof fn lemma_announced_sector_opens(
    r: ReaderView,
    p: Placement,
    index: int,
    disk: Seq<u8>,
    sector: Seq<u8>,
    mode: OpenMode,
)
    requires
        r.wf(),
        r.header.version == 1,
        r.header.log_version == 0,
        r.header.sequence_number < u64::MAX,
        has_room_to_journal(r.header),
        log_region_fault(r.header, r.dev_size) is None,
        layout_fault(r.header, p.regions) is None,
        r.dev_size <= r.grown().dev_size <= u64::MAX,
        0 <= r.sector_position(index),
        r.sector_position(index) + 4096 <= r.grown().dev_size,
        mode.replay_capable,
        announces(r, p, index, disk, sector),
        sector.len() == 4096,
    ensures
        opens_settled(
            disk,
            written(disk, r.sector_position(index), sector),
            next_header(r.header),
            r.active_slot.opposite(),
            mode,
        ),
{
    reveal(announces);
    reveal(opens_settled);
    let h = r.header;
    let nh = next_header(h);
    lemma_next_header_fits(h);
    next_log_guid_is_a_new_one(h.log_guid, nh.sequence_number);
    lemma_layout_follows_the_log_region(h, nh, p.regions);
    lemma_later_header_is_active(disk, r.active_slot, h, nh);
    assert(is_dirty(nh));
    assert(log_region_fault(nh, disk.len() as int) is None);
    assert(journal_fields(r.grown()).fits());
    lemma_open_with_lone_sector(
        disk,
        mode,
        nh,
        r.active_slot.opposite(),
        p.regions,
        journal_fields(r.grown()),
        r.sector_position(index),
        sector,
    );
}

/// Whether an image on a device with these contents opens, and its virtual disk then holds
/// `bytes`.
#[verifier::opaque]
pub open spec fn opens_with(disk: Seq<u8>, mode: OpenMode, bytes: Seq<u8>) -> bool {
    let o = opened(disk, mode);
    &&& o.result is Ok
    &&& contents(Volume { reader: o.result->Ok_0, disk: o.disk }) == bytes
}

/// The first operations of two runs of operations, one after the other.
proof fn lemma_first_of_two(disk: Seq<u8>, a: Seq<OpView>, b: Seq<OpView>, k: int)
    requires
        0 <= k <= a.len() + b.len(),
    ensures
        after_ops(disk, (a + b).take(k)) == if k <= a.len() {
            after_ops(disk, a.take(k))
        } else {
            after_ops(after_ops(disk, a), b.take(k - a.len()))
        },
        k == a.len() ==> after_ops(disk, (a + b).take(k)) == after_ops(disk, a),
{
    if k <= a.len() {
        assert((a + b).take(k) =~= a.take(k));
        assert(k == a.len() ==> a.take(k) =~= a);
    } else {
        assert((a + b).take(k) =~= a + b.take(k - a.len()));
        lemma_after_ops_split(disk, a, b.take(k - a.len()));
    }
}

/// A write and a flush leave one thing, however far they got.
proof fn lemma_first_of_write_and_flush(disk: Seq<u8>, op: OpView, k: int)
    requires
        0 <= k <= 2,
    ensures
        after_ops(disk, seq![op, OpView::Flush].take(k)) == if k == 0 {
            disk
        } else {
            performed(disk, op)
        },
{
    let ops = seq![op, OpView::Flush];
    lemma_after_one_op(disk, op);
    if k == 0 {
        assert(ops.take(0) =~= Seq::<OpView>::empty());
    } else if k == 1 {
        assert(ops.take(1) =~= seq![op]);
    } else {
        assert(ops.take(2) =~= ops);
    }
}

/// What keeps a write safe at every step: the image is intact, and its blocks lie apart.
#[verifier::opaque]
spec fn sound(v: Volume, p: Placement) -> bool {
    &&& intact(v, p)
    &&& blocks_apart(v)
}

/// A kept image opens again.
proof fn lemma_intact_opens(v: Volume, p: Placement, mode: OpenMode)
    requires
        intact(v, p),
        mode.replay_capable,
    ensures
        opens_with(v.disk, mode, contents(v)),
{
    reveal(intact);
    reveal(opens_with);
    reopening_gives_the_same_contents(v, p, mode);
}

/// An image with a new block at the tail of its device is the same image.
proof fn lemma_appended_is_intact(v: Volume, p: Placement)
    requires
        intact(v, p),
        v.reader.grown().dev_size <= u64::MAX,
    ensures
        intact(appended(v), p),
        contents(appended(v)) == contents(v),
{
    reveal(intact);
    let r = v.reader;
    let a = appended(v);
    lemma_tail_block(r.dev_size, r.geometry.block_size as int);
    assert(a == on_longer_device(v, a.disk));
    lemma_longer_device_is_kept(v, p, a.disk);
    lemma_longer_device_has_the_same_contents(v, a.disk);
    lemma_structures_on_longer_device(r, p, a.disk.len() as int);
}

/// The crash before the new header, for an intact image.
proof fn lemma_crash_before_the_new_header(
    v: Volume,
    p: Placement,
    at: int,
    sector: Seq<u8>,
    k: int,
    mode: OpenMode,
)
    requires
        intact(v, p),
        v.reader.header.log_length > 0,
        v.reader.header.sequence_number < u64::MAX,
        0 <= at <= u64::MAX,
        sector.len() == 4096,
        0 <= k <= 4,
        mode.replay_capable,
    ensures
        opens_with(
            after_ops(v.disk, journal_ops(v.reader, at, sector).take(k)),
            mode,
            contents(v),
        ),
{
    reveal(intact);
    reveal(opens_with);
    crash_before_the_new_header_loses_only_the_write(v, p, at, sector, k, mode);
}

/// Once the header was written, the journal is complete.
proof fn lemma_journal_done(r: ReaderView, disk: Seq<u8>, at: int, sector: Seq<u8>, k: int)
    requires
        has_room_to_journal(r.header),
        5 <= k <= 6,
    ensures
        after_ops(disk, journal_ops(r, at, sector).take(k)) == after_ops(
            disk,
            journal_ops(r, at, sector),
        ),
{
    let ops = journal_ops(r, at, sector);
    if k == 5 {
        assert(ops.drop_last() =~= ops.take(5));
        assert(ops.last() == OpView::Flush);
    } else {
        assert(ops.take(6) =~= ops);
    }
}

/// The crash after the header and before the BAT sector is written.
proof fn lemma_crash_before_publishing(v: Volume, p: Placement, cursor: int, mode: OpenMode)
    requires
        sound(v, p),
        v.reader.header.log_length > 0,
        v.reader.header.sequence_number < u64::MAX,
        0 <= cursor < v.reader.geometry.virtual_size,
        v.reader.entry_at(cursor).state.reads_as_zero(),
        v.reader.grown().dev_size <= u64::MAX,
        place_is_free(
            v.reader,
            tail_block(v.reader.dev_size, v.reader.geometry.block_size as int),
        ),
        entry_in_one_sector(
            v.reader,
            bat_index(
                cursor / v.reader.geometry.block_size as int,
                v.reader.geometry.chunk_ratio(),
            ),
        ),
        mode.replay_capable,
    ensures
        ({
            let r = v.reader;
            let bs = r.geometry.block_size as int;
            let index = bat_index(cursor / bs, r.geometry.chunk_ratio());
            let at = r.sector_position(index);
            let a = appended(v);
            let sector = published_sector(
                a.reader,
                a.disk.subrange(at, at + 4096),
                index,
                tail_block(r.dev_size, bs),
            );
            opens_with(journalled(a, index, sector).disk, mode, contents(v))
        }),
{
    reveal(sound);
    reveal(intact);
    reveal(opens_with);
    let r = v.reader;
    let bs = r.geometry.block_size as int;
    let index = bat_index(cursor / bs, r.geometry.chunk_ratio());
    let at = r.sector_position(index);
    let a = appended(v);
    let sector = published_sector(
        a.reader,
        a.disk.subrange(at, at + 4096),
        index,
        tail_block(r.dev_size, bs),
    );
    crash_while_publishing_is_made_good(v, p, cursor, journalled(a, index, sector).disk, mode);
}

/// The device after the first operations that allocate a block.
proof fn lemma_first_of_allocation(v: Volume, index: int, k: int)
    requires
        has_room_to_journal(v.reader.header),
        0 <= k <= allocation_ops(v, index).len(),
    ensures
        allocation_ops(v, index).len() == 10,
        ({
            let r = v.reader;
            let a = appended(v);
            let at = r.sector_position(index);
            let sector = published_sector(
                a.reader,
                a.disk.subrange(at, at + 4096),
                index,
                tail_block(r.dev_size, r.geometry.block_size as int),
            );
            after_ops(v.disk, allocation_ops(v, index).take(k)) == if k == 0 {
                v.disk
            } else if k <= 2 {
                a.disk
            } else if k <= 6 {
                after_ops(a.disk, journal_ops(a.reader, at, sector).take(k - 2))
            } else if k <= 8 {
                journalled(a, index, sector).disk
            } else {
                allocated(v, index).disk
            }
        }),
{
    let r = v.reader;
    let a = appended(v);
    let at = a.reader.sector_position(index);
    let sector = published_sector(
        a.reader,
        a.disk.subrange(at, at + 4096),
        index,
        tail_block(r.dev_size, r.geometry.block_size as int),
    );
    let append = seq![append_op(r), OpView::Flush];
    let journal = journal_ops(a.reader, at, sector);
    let place = OpView::Write { offset: at, data: sector };
    lemma_first_of_two(v.disk, append, commit_ops(a.reader, index, sector), k);
    lemma_after_one_op(v.disk, append_op(r));
    if k <= 2 {
        lemma_first_of_write_and_flush(v.disk, append_op(r), k);
    } else {
        lemma_first_of_two(a.disk, journal, seq![place, OpView::Flush], k - 2);
        if 6 < k <= 8 {
            lemma_journal_done(a.reader, a.disk, at, sector, k - 2);
        } else if k > 8 {
            lemma_first_of_write_and_flush(after_ops(a.disk, journal), place, k - 8);
        }
    }
}

/// The BAT sector that an allocation changes lies on the device.
proof fn lemma_sector_to_publish(v: Volume, index: int)
    requires
        v.reader.wf(),
        v.disk.len() == v.reader.dev_size,
        0 <= index < v.reader.bat.len(),
        entry_in_one_sector(v.reader, index),
        v.reader.grown().dev_size <= u64::MAX,
    ensures
        ({
            let r = v.reader;
            let a = appended(v);
            let at = r.sector_position(index);
            &&& 0 <= at <= u64::MAX
            &&& published_sector(
                a.reader,
                a.disk.subrange(at, at + 4096),
                index,
                tail_block(r.dev_size, r.geometry.block_size as int),
            ).len() == 4096
        }),
{
    let r = v.reader;
    lemma_tail_block(r.dev_size, r.geometry.block_size as int);
    lemma_sector_before_tail(r, index);
}

/// After each operation that allocates a block the image opens as it was.
proof fn lemma_crash_in_allocation(
    v: Volume,
    p: Placement,
    cursor: int,
    index: int,
    k: int,
    mode: OpenMode,
)
    requires
        sound(v, p),
        v.reader.wf(),
        v.reader.header.log_length > 0,
        v.reader.header.sequence_number < u64::MAX,
        0 <= cursor < v.reader.geometry.virtual_size,
        v.reader.entry_at(cursor).state.reads_as_zero(),
        v.reader.grown().dev_size <= u64::MAX,
        place_is_free(
            v.reader,
            tail_block(v.reader.dev_size, v.reader.geometry.block_size as int),
        ),
        index == bat_index(
            cursor / v.reader.geometry.block_size as int,
            v.reader.geometry.chunk_ratio(),
        ),
        entry_in_one_sector(v.reader, index),
        mode.replay_capable,
        0 <= k <= allocation_ops(v, index).len(),
    ensures
        opens_with(after_ops(v.disk, allocation_ops(v, index).take(k)), mode, contents(v)),
{
    let r = v.reader;
    assert(has_room_to_journal(r.header) && v.disk.len() == r.dev_size) by {
        reveal(sound);
        reveal(intact);
        lemma_log_apart(v, p);
    }
    assert(intact(v, p)) by {
        reveal(sound);
    }
    lemma_index_in_bat(r, cursor);
    lemma_first_of_allocation(v, index, k);
    lemma_sector_to_publish(v, index);
    if k == 0 {
        lemma_intact_opens(v, p, mode);
    } else if k <= 6 {
        let a = appended(v);
        let at = r.sector_position(index);
        let sector = published_sector(
            a.reader,
            a.disk.subrange(at, at + 4096),
            index,
            tail_block(r.dev_size, r.geometry.block_size as int),
        );
        lemma_appended_is_intact(v, p);
        if k <= 2 {
            lemma_intact_opens(a, p, mode);
        } else {
            lemma_crash_before_the_new_header(a, p, at, sector, k - 2, mode);
        }
    } else if k <= 8 {
        lemma_crash_before_publishing(v, p, cursor, mode);
    } else {
        lemma_allocated_is_intact(v, p, cursor);
        lemma_intact_opens(allocated(v, index), p, mode);
        assert(contents(allocated(v, index)) == contents(v)) by {
            reveal(sound);
            lemma_allocated(v, cursor);
        }
    }
}

/// Nothing spliced in changes nothing.
proof fn lemma_empty_splice(s: Seq<u8>, at: int, data: Seq<u8>, from: int)
    requires
        0 <= from <= data.len(),
    ensures
        splice(s, at, data.subrange(from, from)) == s,
{
    assert(splice(s, at, data.subrange(from, from)) =~= s);
}

/// The pieces of a write meet.
proof fn lemma_pieces_meet(s: Seq<u8>, offset: int, data: Seq<u8>, a: int, b: int, c: int)
    requires
        0 <= offset <= a <= b <= c <= offset + data.len(),
    ensures
        splice(
            splice(s, a, data.subrange(a - offset, b - offset)),
            b,
            data.subrange(b - offset, c - offset),
        ) == splice(s, a, data.subrange(a - offset, c - offset)),
{
    let t = data.subrange(a - offset, c - offset);
    lemma_splices_meet(s, a, t, b - a);
    assert(t.subrange(0, b - a) =~= data.subrange(a - offset, b - offset));
    assert(t.subrange(b - a, t.len() as int) =~= data.subrange(b - offset, c - offset));
}

/// Once the operations `done` wrote a piece, what holds of the operations `rest` holds of all of
/// them.
proof fn lemma_crash_after_piece(
    v: Volume,
    disk: Seq<u8>,
    done: Seq<OpView>,
    rest: Seq<OpView>,
    offset: int,
    data: Seq<u8>,
    cursor: int,
    next: int,
    reached: int,
    k: int,
    mode: OpenMode,
)
    requires
        0 <= offset <= cursor <= next <= reached <= offset + data.len(),
        done.len() <= k <= done.len() + rest.len(),
        after_ops(v.disk, done) == disk,
        opens_with(
            after_ops(disk, rest.take(k - done.len())),
            mode,
            splice(
                splice(contents(v), cursor, data.subrange(cursor - offset, next - offset)),
                next,
                data.subrange(next - offset, reached - offset),
            ),
        ),
    ensures
        opens_with(
            after_ops(v.disk, (done + rest).take(k)),
            mode,
            splice(contents(v), cursor, data.subrange(cursor - offset, reached - offset)),
        ),
{
    lemma_first_of_two(v.disk, done, rest, k);
    lemma_pieces_meet(contents(v), offset, data, cursor, next, reached);
    assert(rest.take(0) =~= Seq::<OpView>::empty());
}

/// After each operation of a write from `cursor` on, the image opens with some of the write in
/// it: up to `reached`.
proof fn lemma_crash_from(
    v: Volume,
    p: Placement,
    offset: int,
    data: Seq<u8>,
    cursor: int,
    k: int,
    mode: OpenMode,
) -> (reached: int)
    requires
        sound(v, p),
        v.reader.wf(),
        0 <= offset <= cursor <= offset + data.len() <= v.reader.geometry.virtual_size,
        has_room_from(v.reader, v.reader.dev_size, cursor, offset + data.len()),
        claims_free_from(v.reader, v.reader.dev_size, cursor, offset + data.len()),
        v.reader.header.log_length > 0,
        v.reader.header.sequence_number + allocations_from(v.reader, cursor, offset + data.len())
            <= u64::MAX,
        mode.replay_capable,
        0 <= k <= wrote_from(v, offset, data, cursor).ops.len(),
    ensures
        cursor <= reached <= offset + data.len(),
        opens_with(
            after_ops(v.disk, wrote_from(v, offset, data, cursor).ops.take(k)),
            mode,
            splice(contents(v), cursor, data.subrange(cursor - offset, reached - offset)),
        ),
    decreases offset + data.len() - cursor,
{
    reveal_with_fuel(wrote_from, 1);
    reveal_with_fuel(allocations_from, 1);
    let r = v.reader;
    let bs = r.geometry.block_size as int;
    let end = offset + data.len();
    let n = piece_length(bs, cursor, end);
    let index = bat_index(cursor / bs, r.geometry.chunk_ratio());
    let state = r.bat[index].state;
    let ops = wrote_from(v, offset, data, cursor).ops;
    lemma_empty_splice(contents(v), cursor, data, cursor - offset);
    assert(intact(v, p)) by {
        reveal(sound);
    }
    lemma_intact_opens(v, p, mode);
    assert(ops.take(0) =~= Seq::<OpView>::empty());
    if cursor >= end {
        if k == 1 {
            lemma_after_one_op(v.disk, OpView::Flush);
            assert(ops.take(1) =~= seq![OpView::Flush]);
        }
        cursor
    } else {
        lemma_next_piece(bs, cursor, end);
        lemma_index_in_bat(r, cursor);
        let next = cursor + n;
        if state.reads_as_zero() {
            let w = allocated(v, index);
            let block = tail_block(r.dev_size, bs);
            let first = allocation_ops(v, index);
            let pay = payment_op(r, offset, data, cursor, block);
            let after = paid(w, offset, data, cursor, block);
            let rest = wrote_from(after, offset, data, next).ops;
            lemma_ready_after_allocating(v, p, offset, data, cursor);
            if k <= first.len() {
                lemma_first_of_two(v.disk, first.push(pay), rest, k);
                assert(first.push(pay).take(k) =~= first.take(k));
                lemma_crash_in_allocation(v, p, cursor, index, k, mode);
                cursor
            } else {
                lemma_paid_after_allocating(v, p, offset, data, cursor);
                let reached = lemma_crash_from(
                    after,
                    p,
                    offset,
                    data,
                    next,
                    k - first.len() - 1,
                    mode,
                );
                lemma_crash_after_piece(
                    v,
                    after.disk,
                    first.push(pay),
                    rest,
                    offset,
                    data,
                    cursor,
                    next,
                    reached,
                    k,
                    mode,
                );
                reached
            }
        } else if state is FullyPresent {
            let host = r.bat[index].file_offset as int;
            let pay = payment_op(r, offset, data, cursor, host);
            let after = paid(v, offset, data, cursor, host);
            let rest = wrote_from(after, offset, data, next).ops;
            if k == 0 {
                cursor
            } else {
                lemma_after_one_op(v.disk, pay);
                lemma_ready_after_paying(v, p, offset, data, cursor);
                let reached = lemma_crash_from(after, p, offset, data, next, k - 1, mode);
                lemma_crash_after_piece(
                    v,
                    after.disk,
                    seq![pay],
                    rest,
                    offset,
                    data,
                    cursor,
                    next,
                    reached,
                    k,
                    mode,
                );
                reached
            }
        } else {
            cursor
        }
    }
}

/// Once the payload of a piece was written to its block, the image is sound and there is what the
/// rest of the write needs.
proof fn lemma_ready_after_paying(v: Volume, p: Placement, offset: int, data: Seq<u8>, cursor: int)
    requires
        sound(v, p),
        v.reader.wf(),
        0 <= offset <= cursor < offset + data.len() <= v.reader.geometry.virtual_size,
        v.reader.entry_at(cursor).state is FullyPresent,
        has_room_from(v.reader, v.reader.dev_size, cursor, offset + data.len()),
        claims_free_from(v.reader, v.reader.dev_size, cursor, offset + data.len()),
    ensures
        ({
            let r = v.reader;
            let end = offset + data.len();
            let n = piece_length(r.geometry.block_size as int, cursor, end);
            let after = paid(v, offset, data, cursor, r.entry_at(cursor).file_offset as int);
            let s = after.reader;
            &&& sound(after, p)
            &&& s.wf()
            &&& s == r.reaching(piece_end(r, cursor, n))
            &&& has_room_from(s, s.dev_size, cursor + n, end)
            &&& claims_free_from(s, s.dev_size, cursor + n, end)
            &&& allocations_from(s, cursor + n, end) == allocations_from(r, cursor, end)
            &&& contents(after) == splice(
                contents(v),
                cursor,
                data.subrange(cursor - offset, cursor - offset + n),
            )
        }),
{
    reveal(sound);
    reveal_with_fuel(allocations_from, 1);
    let end = offset + data.len();
    lemma_next_piece(v.reader.geometry.block_size as int, cursor, end);
    lemma_rest_after_paying(v.reader, cursor, end);
    lemma_claims_after_paying(v.reader, cursor, end);
    lemma_paid_is_intact(v, p, offset, data, cursor);
    lemma_paid(v, offset, data, cursor);
}

/// What a block that was allocated for a piece holds once the payload was written to it.
proof fn lemma_paid_after_allocating(
    v: Volume,
    p: Placement,
    offset: int,
    data: Seq<u8>,
    cursor: int,
)
    requires
        sound(v, p),
        v.reader.wf(),
        0 <= offset <= cursor < offset + data.len() <= v.reader.geometry.virtual_size,
        v.reader.entry_at(cursor).state.reads_as_zero(),
        v.reader.grown().dev_size <= u64::MAX,
        place_is_free(
            v.reader,
            tail_block(v.reader.dev_size, v.reader.geometry.block_size as int),
        ),
        entry_in_one_sector(
            v.reader,
            bat_index(
                cursor / v.reader.geometry.block_size as int,
                v.reader.geometry.chunk_ratio(),
            ),
        ),
    ensures
        ({
            let r = v.reader;
            let bs = r.geometry.block_size as int;
            let n = piece_length(bs, cursor, offset + data.len());
            let index = bat_index(cursor / bs, r.geometry.chunk_ratio());
            let block = tail_block(r.dev_size, bs);
            let first = allocation_ops(v, index);
            let pay = payment_op(r, offset, data, cursor, block);
            let after = paid(allocated(v, index), offset, data, cursor, block);
            &&& contents(after) == splice(
                contents(v),
                cursor,
                data.subrange(cursor - offset, cursor - offset + n),
            )
            &&& after_ops(v.disk, first.push(pay)) == after.disk
        }),
{
    reveal(sound);
    let r = v.reader;
    let bs = r.geometry.block_size as int;
    let index = bat_index(cursor / bs, r.geometry.chunk_ratio());
    let first = allocation_ops(v, index);
    let pay = payment_op(r, offset, data, cursor, tail_block(r.dev_size, bs));
    lemma_allocated(v, cursor);
    lemma_allocated_clear(v, cursor);
    lemma_next_piece(bs, cursor, offset + data.len());
    lemma_tail_block(r.dev_size, bs);
    lemma_paid(allocated(v, index), offset, data, cursor);
    lemma_index_in_bat(r, cursor);
    lemma_allocation_ops(v, index);
    lemma_after_ops_split(v.disk, first, seq![pay]);
    assert(first.push(pay) =~= first + seq![pay]);
    lemma_after_one_op(allocated(v, index).disk, pay);
}

/// Once a block was allocated for a piece and its payload was written, the image is sound and
/// there is what the rest of the write needs.
proof fn lemma_ready_after_allocating(
    v: Volume,
    p: Placement,
    offset: int,
    data: Seq<u8>,
    cursor: int,
)
    requires
        sound(v, p),
        v.reader.wf(),
        0 <= offset <= cursor < offset + data.len() <= v.reader.geometry.virtual_size,
        v.reader.entry_at(cursor).state.reads_as_zero(),
        has_room_from(v.reader, v.reader.dev_size, cursor, offset + data.len()),
        claims_free_from(v.reader, v.reader.dev_size, cursor, offset + data.len()),
        v.reader.header.log_length > 0,
        v.reader.header.sequence_number + allocations_from(v.reader, cursor, offset + data.len())
            <= u64::MAX,
    ensures
        v.reader.grown().dev_size <= u64::MAX,
        v.reader.header.sequence_number < u64::MAX,
        place_is_free(
            v.reader,
            tail_block(v.reader.dev_size, v.reader.geometry.block_size as int),
        ),
        ({
            let r = v.reader;
            let bs = r.geometry.block_size as int;
            let end = offset + data.len();
            let next = cursor + piece_length(bs, cursor, end);
            let index = bat_index(cursor / bs, r.geometry.chunk_ratio());
            let after = paid(allocated(v, index), offset, data, cursor, tail_block(r.dev_size, bs));
            let s = after.reader;
            &&& entry_in_one_sector(r, index)
            &&& sound(after, p)
            &&& s.wf()
            &&& s.geometry == r.geometry
            &&& has_room_from(s, s.dev_size, next, end)
            &&& claims_free_from(s, s.dev_size, next, end)
            &&& s.header.log_length > 0
            &&& s.header.sequence_number + allocations_from(s, next, end) <= u64::MAX
        }),
{
    reveal_with_fuel(allocations_from, 1);
    let r = v.reader;
    let bs = r.geometry.block_size as int;
    let end = offset + data.len();
    let index = bat_index(cursor / bs, r.geometry.chunk_ratio());
    let block = tail_block(r.dev_size, bs);
    let w = allocated(v, index);
    lemma_next_piece(bs, cursor, end);
    lemma_index_in_bat(r, cursor);
    lemma_rest_after_allocating(r, cursor, end);
    assert(intact(v, p)) by {
        reveal(sound);
    }
    lemma_allocated_is_intact(v, p, cursor);
    lemma_new_block_is_intact(r, w, p, offset, data, cursor);
    lemma_sequence_after_allocating(r, index, block);
    lemma_apart_after_allocating_and_paying(v, p, offset, data, cursor);
}

/// Once a block was allocated for a piece and its payload was written, the blocks lie apart and
/// what the rest of the write claims is free.
proof fn lemma_apart_after_allocating_and_paying(
    v: Volume,
    p: Placement,
    offset: int,
    data: Seq<u8>,
    cursor: int,
)
    requires
        sound(v, p),
        0 <= offset <= cursor < offset + data.len() <= v.reader.geometry.virtual_size,
        v.reader.entry_at(cursor).state.reads_as_zero(),
        v.reader.grown().dev_size <= u64::MAX,
        entry_in_one_sector(
            v.reader,
            bat_index(
                cursor / v.reader.geometry.block_size as int,
                v.reader.geometry.chunk_ratio(),
            ),
        ),
        claims_free_from(v.reader, v.reader.dev_size, cursor, offset + data.len()),
        intact(
            paid(
                allocated(
                    v,
                    bat_index(
                        cursor / v.reader.geometry.block_size as int,
                        v.reader.geometry.chunk_ratio(),
                    ),
                ),
                offset,
                data,
                cursor,
                tail_block(v.reader.dev_size, v.reader.geometry.block_size as int),
            ),
            p,
        ),
    ensures
        place_is_free(
            v.reader,
            tail_block(v.reader.dev_size, v.reader.geometry.block_size as int),
        ),
        ({
            let r = v.reader;
            let bs = r.geometry.block_size as int;
            let end = offset + data.len();
            let next = cursor + piece_length(bs, cursor, end);
            let index = bat_index(cursor / bs, r.geometry.chunk_ratio());
            let after = paid(allocated(v, index), offset, data, cursor, tail_block(r.dev_size, bs));
            let s = after.reader;
            &&& sound(after, p)
            &&& s.wf()
            &&& claims_free_from(s, s.dev_size, next, end)
        }),
{
    reveal(sound);
    let r = v.reader;
    let bs = r.geometry.block_size as int;
    let end = offset + data.len();
    let index = bat_index(cursor / bs, r.geometry.chunk_ratio());
    lemma_next_piece(bs, cursor, end);
    lemma_tail_block(r.dev_size, bs);
    lemma_claims_after_allocating(v, cursor, end);
    lemma_allocated(v, cursor);
    lemma_allocated_clear(v, cursor);
    lemma_paid(allocated(v, index), offset, data, cursor);
}

/// A crash in the middle of a write: after each of its operations the image opens, and its virtual
/// disk holds what it held, with the bytes of the write up to `reached` in place. So whatever was
/// there before is kept, and the write is lost in part at most.
///
/// The image must have a log; one without is not crash-safe. The sequence numbers of the headers
/// must not run out on the way.
pub proof fn crash_in_a_write_loses_its_rest_at_most(
    v: Volume,
    p: Placement,
    offset: int,
    data: Seq<u8>,
    k: int,
    mode: OpenMode,
) -> (reached: int)
    requires
        kept(v, p),
        structures_apart(v.reader, p),
        blocks_apart(v),
        v.reader.writable,
        0 <= offset,
        offset + data.len() <= v.reader.geometry.virtual_size,
        has_room(v.reader, offset, data.len() as int),
        claims_are_free(v.reader, offset, data.len() as int),
        v.reader.header.log_length > 0,
        v.reader.header.sequence_number + allocations_from(v.reader, offset, offset + data.len())
            <= u64::MAX,
        mode.replay_capable,
        0 <= k <= wrote(v, offset, data).ops.len(),
    ensures
        offset <= reached <= offset + data.len(),
        opens_with(
            after_ops(v.disk, wrote(v, offset, data).ops.take(k)),
            mode,
            splice(contents(v), offset, data.take(reached - offset)),
        ),
{
    reveal(intact);
    reveal(sound);
    if data.len() == 0 {
        lemma_intact_opens(v, p, mode);
        assert(wrote(v, offset, data).ops.take(0) =~= Seq::<OpView>::empty());
        lemma_empty_splice(contents(v), offset, data, 0);
        assert(data.take(0) =~= data.subrange(0, 0));
        offset
    } else {
        let reached = lemma_crash_from(v, p, offset, data, offset, k, mode);
        assert(data.take(reached - offset) =~= data.subrange(0, reached - offset));
        reached
    }
}

} // verus!

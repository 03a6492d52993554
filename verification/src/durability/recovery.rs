//! What a crash leaves of an image while it is being opened.
//!
//! Opening an image may replay its log, and then marks the log as consumed: the log region is
//! erased, and a header that says so goes to the slot that is not in use. A crash at any point
//! leaves an image that the next open brings to the same end.
use crate::bytes::zeros;
use crate::device::{after_ops, lemma_after_one_op, lemma_after_ops_spares, lemma_after_ops_split};
use crate::device::{lemma_after_two_ops, written, OpView};
use crate::durability::{chain_found, kept, lemma_agree, lemma_clearing_frame};
use crate::durability::{lemma_consumed_reopens, lemma_erased_log_is_empty, lemma_front_agrees};
use crate::durability::{lemma_header_read, lemma_opened_log, lemma_opened_settled};
use crate::durability::{lemma_opened_with_header, lemma_operations_mean_replay, lemma_region_read};
use crate::durability::{lemma_settles, lemma_slot_agrees, lemma_write_frame, opened_image_is_kept};
use crate::durability::Placement;
use crate::header::{active_header, header_bytes, lemma_header_length, HeaderSlot, HeaderView};
use crate::layout::log_region_fault;
use crate::log::EntryView;
use crate::log::chain::lemma_zeros_end_the_scan;
use crate::log::replay::{chain_ops, chain_spares, interrupted_replay_can_be_repeated};
use crate::log::replay::{lemma_chain_ops_replay, lemma_chain_ops_spare, lemma_extent_grows};
use crate::log::replay::replayed;
use crate::open::{clearing_ops, is_dirty, log_cleared, opened, opened_dirty, opened_with_header};
use crate::open::{opened_with_log, opened_with_log_settled, region_table_on, slot_header, OpenMode};
use crate::open::FILE_IDENTIFIER_SIGNATURE;
use crate::reader::ReaderView;
use crate::region_table::{guids, region_named};
use crate::volume::{contents, lemma_block_of};
use crate::write::Volume;
use vstd::prelude::*;

verus! {

/// Whether a chain leaves alone what the next open needs to find it again: the file identifier,
/// the header slots, the region tables, and the log.
pub open spec fn can_be_found_again(chain: Seq<EntryView>, h: HeaderView) -> bool {
    &&& chain_spares(chain, 0, 8)
    &&& chain_spares(chain, HeaderSlot::One.position(), 4096)
    &&& chain_spares(chain, HeaderSlot::Two.position(), 4096)
    &&& chain_spares(chain, 0x3_0000, 0x2_0000)
    &&& chain_spares(chain, h.log_offset, h.log_length)
}

/// Whether the metadata region, the BAT and the blocks of an image lie behind the header section.
pub open spec fn lies_behind_headers(v: Volume) -> bool {
    let r = v.reader;
    let regions = region_table_on(v.disk)->Some_0;
    &&& region_named(regions, guids::METADATA@) is Some ==> 0x10_0000 <= (region_named(
        regions,
        guids::METADATA@,
    )->Some_0).file_offset
    &&& 0x10_0000 <= r.bat_region_off
    &&& forall|b: int| #[trigger] r.has_block(b) ==> 0x10_0000 <= r.host_of(b)
}

/// Whether two readers know the same image: they differ at most in which header they read, and in
/// what they were opened for.
pub open spec fn same_image(a: ReaderView, b: ReaderView) -> bool {
    a == (ReaderView {
        header: a.header,
        active_slot: a.active_slot,
        writable: a.writable,
        ..b
    })
}

/// Whether opening a device comes to the image of `v`, and leaves what `v` holds behind the header
/// section.
#[verifier::opaque]
spec fn comes_to(disk: Seq<u8>, mode: OpenMode, v: Volume) -> bool {
    let o = opened(disk, mode);
    &&& o.result is Ok
    &&& same_image(o.result->Ok_0, v.reader)
    &&& o.disk.len() == v.disk.len()
    &&& forall|k: int| 0x10_0000 <= k < o.disk.len() ==> #[trigger] o.disk[k] == v.disk[k]
}

/// What an open comes to does not depend on what it is for, once it may replay.
proof fn lemma_opened_for_anything(disk: Seq<u8>, a: OpenMode, b: OpenMode)
    requires
        opened(disk, a).result is Ok,
        b.replay_capable,
    ensures
        comes_to(
            disk,
            b,
            Volume { reader: opened(disk, a).result->Ok_0, disk: opened(disk, a).disk },
        ),
{
    reveal(comes_to);
}

/// What the next open finds on a device on which the log was replayed in part.
proof fn lemma_found_again(disk: Seq<u8>, d: Seq<u8>, h: HeaderView, k: int)
    requires
        disk.len() >= 0x10_0000,
        log_region_fault(h, disk.len() as int) is None,
        is_dirty(h),
        can_be_found_again(chain_found(disk, h), h),
        0 <= k <= chain_ops(chain_found(disk, h)).len(),
        d == after_ops(disk, chain_ops(chain_found(disk, h)).take(k)),
    ensures
        d.len() >= disk.len(),
        d.subrange(0, 8) == disk.subrange(0, 8),
        slot_header(d, HeaderSlot::One) == slot_header(disk, HeaderSlot::One),
        slot_header(d, HeaderSlot::Two) == slot_header(disk, HeaderSlot::Two),
        region_table_on(d) == region_table_on(disk),
        chain_found(d, h) == chain_found(disk, h),
        log_region_fault(h, d.len() as int) is None,
        replayed(d, chain_found(disk, h)) == replayed(disk, chain_found(disk, h)),
{
    let chain = chain_found(disk, h);
    let ops = chain_ops(chain).take(k);
    lemma_chain_ops_spare(chain, 0, 8);
    lemma_chain_ops_spare(chain, HeaderSlot::One.position(), 4096);
    lemma_chain_ops_spare(chain, HeaderSlot::Two.position(), 4096);
    lemma_chain_ops_spare(chain, 0x3_0000, 0x2_0000);
    lemma_chain_ops_spare(chain, h.log_offset, h.log_length);
    lemma_after_ops_spares(disk, ops, 0, 8);
    lemma_after_ops_spares(disk, ops, HeaderSlot::One.position(), 4096);
    lemma_after_ops_spares(disk, ops, HeaderSlot::Two.position(), 4096);
    lemma_after_ops_spares(disk, ops, 0x3_0000, 0x2_0000);
    lemma_after_ops_spares(disk, ops, h.log_offset, h.log_length);
    lemma_front_agrees(d, disk);
    lemma_slot_agrees(d, disk, HeaderSlot::One);
    lemma_slot_agrees(d, disk, HeaderSlot::Two);
    lemma_agree(d, disk, h.log_offset, h.log_length);
    interrupted_replay_can_be_repeated(disk, chain, k);
}

/// Once the log was replayed in part, the next open replays all of it and comes to the same.
proof fn lemma_crash_in_replay(
    disk: Seq<u8>,
    mode: OpenMode,
    v: Volume,
    h: HeaderView,
    slot: HeaderSlot,
    k: int,
)
    requires
        comes_to(disk, mode, v),
        mode.replay_capable,
        active_header(slot_header(disk, HeaderSlot::One), slot_header(disk, HeaderSlot::Two))
            == Some((h, slot)),
        log_region_fault(h, disk.len() as int) is None,
        is_dirty(h),
        chain_found(disk, h).len() > 0,
        can_be_found_again(chain_found(disk, h), h),
        0 <= k <= chain_ops(chain_found(disk, h)).len(),
    ensures
        comes_to(after_ops(disk, chain_ops(chain_found(disk, h)).take(k)), mode, v),
{
    reveal(comes_to);
    let chain = chain_found(disk, h);
    let d = after_ops(disk, chain_ops(chain).take(k));
    lemma_found_again(disk, d, h, k);
    lemma_extent_grows(chain, disk.len() as int, d.len() as int);
    assert(opened_with_log(d, h, slot, mode) == opened_with_log(disk, h, slot, mode));
    assert(opened(d, mode) == opened(disk, mode));
}

/// The device after the first operations of an open that replayed the log.
proof fn lemma_first_of_open(
    disk: Seq<u8>,
    chain: Seq<EntryView>,
    h: HeaderView,
    slot: HeaderSlot,
    k: int,
)
    requires
        0 <= k <= chain_ops(chain).len() + 4,
    ensures
        ({
            let ops = chain_ops(chain) + clearing_ops(h, slot);
            let x = replayed(disk, chain);
            after_ops(disk, ops.take(k)) == if k <= chain_ops(chain).len() {
                after_ops(disk, chain_ops(chain).take(k))
            } else if k <= chain_ops(chain).len() + 2 {
                written(x, h.log_offset, zeros(h.log_length as nat))
            } else {
                after_ops(x, clearing_ops(h, slot))
            }
        }),
{
    let first = chain_ops(chain);
    let second = clearing_ops(h, slot);
    let ops = first + second;
    let j = k - first.len();
    if j <= 0 {
        assert(ops.take(k) =~= first.take(k));
    } else {
        assert(ops.take(k) =~= first + second.take(j));
        lemma_after_ops_split(disk, first, second.take(j));
        lemma_chain_ops_replay(disk, chain);
        let x = replayed(disk, chain);
        if j <= 2 {
            if j == 1 {
                assert(second.take(1) =~= seq![second[0]]);
                lemma_after_one_op(x, second[0]);
            } else {
                assert(second.take(2) =~= seq![second[0], OpView::Flush]);
                lemma_after_one_op(x, second[0]);
            }
        } else if j == 3 {
            assert(second.drop_last() =~= second.take(3));
            assert(second.last() == OpView::Flush);
        } else {
            assert(second.take(4) =~= second);
        }
    }
}

/// What a device holds once its log was erased, and what it holds once the log was marked as
/// consumed.
proof fn lemma_erased(x: Seq<u8>, h: HeaderView, slot: HeaderSlot)
    requires
        h.fits(),
        h.version == 1,
        h.log_length > 0,
        log_region_fault(h, x.len() as int) is None,
    ensures
        ({
            let e = written(x, h.log_offset, zeros(h.log_length as nat));
            let after = after_ops(x, clearing_ops(h, slot));
            &&& e.len() == x.len()
            &&& after.len() == x.len()
            &&& forall|k: int| 0x10_0000 <= k < e.len() ==> #[trigger] e[k] == after[k]
            &&& e.subrange(0, 8) == x.subrange(0, 8)
            &&& slot_header(e, HeaderSlot::One) == slot_header(x, HeaderSlot::One)
            &&& slot_header(e, HeaderSlot::Two) == slot_header(x, HeaderSlot::Two)
            &&& region_table_on(e) == region_table_on(x)
            &&& chain_found(e, h).len() == 0
        }),
{
    let e = written(x, h.log_offset, zeros(h.log_length as nat));
    let at = slot.opposite().position();
    let cleared = log_cleared(h);
    assert(cleared.fits() && cleared.version == 1);
    lemma_header_length(cleared);
    lemma_after_two_ops(
        x,
        OpView::Zeros { offset: h.log_offset, len: h.log_length },
        OpView::Write { offset: at, data: header_bytes(cleared) },
    );
    lemma_write_frame(x, h.log_offset, zeros(h.log_length as nat));
    lemma_write_frame(e, at, header_bytes(cleared));
    lemma_front_agrees(e, x);
    lemma_slot_agrees(e, x, HeaderSlot::One);
    lemma_slot_agrees(e, x, HeaderSlot::Two);
    let log = e.subrange(h.log_offset, h.log_offset + h.log_length);
    assert forall|k: int| 0 <= k < log.len() implies #[trigger] log[k] == 0 by {
        assert(log[k] == e[h.log_offset + k]);
    }
    lemma_zeros_end_the_scan(log, h.log_guid, 0);
}

/// What opening a device comes to that holds the structures of a kept image behind its header
/// section, and an empty log.
proof fn lemma_opens_with_empty_log(v: Volume, p: Placement, e: Seq<u8>, mode: OpenMode)
    requires
        kept(v, p),
        mode.replay_capable,
        is_dirty(v.reader.header),
        lies_behind_headers(v),
        e.len() == v.disk.len(),
        forall|k: int| 0x10_0000 <= k < e.len() ==> #[trigger] e[k] == v.disk[k],
        e.subrange(0, 8) == FILE_IDENTIFIER_SIGNATURE@,
        active_header(slot_header(e, HeaderSlot::One), slot_header(e, HeaderSlot::Two)) == Some(
            (v.reader.header, v.reader.active_slot),
        ),
        region_table_on(e) == Some(p.regions),
        chain_found(e, v.reader.header).len() == 0,
    ensures
        comes_to(e, mode, v),
{
    reveal(comes_to);
    let r = v.reader;
    let h = r.header;
    let slot = r.active_slot;
    let m = p.metadata;
    lemma_region_read(v.disk, p.regions, guids::METADATA@);
    lemma_agree(e, v.disk, m.file_offset, m.length);
    lemma_agree(e, v.disk, r.bat_region_off, 8 * r.bat.len() as int);
    lemma_settles(e, h, slot, false, mode, r, p);
    assert(opened_with_log(e, h, slot, mode) == opened_with_log_settled(e, h, slot, false, mode));
    assert(opened_with_header(e, h, slot, mode) == opened_dirty(e, h, slot, mode));
}

/// Readers of one image give its device the same contents, as far as the device is the same behind
/// the header section.
proof fn lemma_same_image_same_contents(a: Volume, b: Volume)
    requires
        b.reader.wf(),
        same_image(a.reader, b.reader),
        lies_behind_headers(b),
        a.disk.len() == b.disk.len(),
        forall|k: int| 0x10_0000 <= k < a.disk.len() ==> #[trigger] a.disk[k] == b.disk[k],
    ensures
        contents(a) == contents(b),
{
    let bs = b.reader.geometry.block_size as int;
    assert forall|at: int| 0 <= at < b.reader.geometry.virtual_size implies #[trigger] contents(
        a,
    )[at] == contents(b)[at] by {
        lemma_block_of(b.reader, at);
        assert(a.reader.entry_at(at) == b.reader.entry_at(at));
        if b.reader.entry_at(at).state is FullyPresent {
            assert(b.reader.has_block(at / bs));
        }
    }
    assert(contents(a) =~= contents(b));
}

/// An open that performs nothing leaves the device alone and comes to a well-formed reader.
proof fn lemma_opened_without_replay(
    disk: Seq<u8>,
    h: HeaderView,
    slot: HeaderSlot,
    mode: OpenMode,
)
    requires
        opened_with_header(disk, h, slot, mode).result is Ok,
        opened_with_header(disk, h, slot, mode).ops.len() == 0,
        opened_with_header(disk, h, slot, mode).disk.len() <= u64::MAX,
        h.fits(),
    ensures
        opened_with_header(disk, h, slot, mode).result->Ok_0.wf(),
{
    lemma_opened_log(disk, h, slot, mode);
    if opened_with_header(disk, h, slot, mode) == opened_with_log_settled(
        disk,
        h,
        slot,
        false,
        mode,
    ) {
        lemma_opened_settled(disk, h, slot, false, mode);
        lemma_region_read(disk, region_table_on(disk)->Some_0, guids::BAT@);
    }
}

/// What an open went through that replayed the log, and what it left.
proof fn lemma_open_replayed(disk: Seq<u8>, first: OpenMode, h: HeaderView, slot: HeaderSlot)
    requires
        opened(disk, first).result is Ok,
        opened(disk, first).ops.len() > 0,
        opened(disk, first).disk.len() <= u64::MAX,
        disk.subrange(0, 8) == FILE_IDENTIFIER_SIGNATURE@,
        active_header(slot_header(disk, HeaderSlot::One), slot_header(disk, HeaderSlot::Two))
            == Some((h, slot)),
        slot_header(disk, slot) == Some(h),
        opened(disk, first) == opened_with_header(disk, h, slot, first),
        can_be_found_again(
            chain_found(disk, opened(disk, first).result->Ok_0.header),
            opened(disk, first).result->Ok_0.header,
        ),
    ensures
        ({
            let o = opened(disk, first);
            let r = o.result->Ok_0;
            let chain = chain_found(disk, h);
            let x = replayed(disk, chain);
            &&& r.header == h
            &&& r.active_slot == slot
            &&& chain.len() > 0
            &&& is_dirty(h)
            &&& h.fits()
            &&& h.version == 1
            &&& log_region_fault(h, disk.len() as int) is None
            &&& log_region_fault(h, x.len() as int) is None
            &&& x.len() >= disk.len()
            &&& o.ops == chain_ops(chain) + clearing_ops(h, slot)
            &&& o.disk == after_ops(x, clearing_ops(h, slot))
            &&& x.subrange(0, 8) == FILE_IDENTIFIER_SIGNATURE@
            &&& slot_header(x, HeaderSlot::One) == slot_header(disk, HeaderSlot::One)
            &&& slot_header(x, HeaderSlot::Two) == slot_header(disk, HeaderSlot::Two)
            &&& region_table_on(x) is Some
            &&& region_named(region_table_on(x)->Some_0, guids::METADATA@) is Some
            &&& region_named(region_table_on(x)->Some_0, guids::BAT@) is Some
        }),
{
    lemma_operations_mean_replay(disk, first, h, slot);
    let chain = chain_found(disk, h);
    let n = chain_ops(chain).len();
    let x = replayed(disk, chain);
    lemma_opened_settled(x, h, slot, true, first);
    lemma_operations_of_open(disk, first, h, slot);
    assert(after_ops(disk, chain_ops(chain).take(n as int)) == x) by {
        assert(chain_ops(chain).take(n as int) =~= chain_ops(chain));
        lemma_chain_ops_replay(disk, chain);
    }
    lemma_found_again(disk, x, h, n as int);
    lemma_header_read(disk, slot);
}

/// The image that an open left that replayed the log is kept.
proof fn lemma_replayed_is_kept(
    disk: Seq<u8>,
    first: OpenMode,
    h: HeaderView,
    slot: HeaderSlot,
    p: Placement,
)
    requires
        opened(disk, first).result is Ok,
        opened(disk, first).ops.len() > 0,
        opened(disk, first).disk.len() <= u64::MAX,
        disk.subrange(0, 8) == FILE_IDENTIFIER_SIGNATURE@,
        active_header(slot_header(disk, HeaderSlot::One), slot_header(disk, HeaderSlot::Two))
            == Some((h, slot)),
        slot_header(disk, slot) == Some(h),
        opened(disk, first) == opened_with_header(disk, h, slot, first),
        can_be_found_again(
            chain_found(disk, opened(disk, first).result->Ok_0.header),
            opened(disk, first).result->Ok_0.header,
        ),
        ({
            let regions = region_table_on(replayed(disk, chain_found(disk, h)))->Some_0;
            p == (Placement {
                regions,
                metadata: region_named(regions, guids::METADATA@)->Some_0,
                bat: region_named(regions, guids::BAT@)->Some_0,
            })
        }),
    ensures
        kept(
            Volume { reader: opened(disk, first).result->Ok_0, disk: opened(disk, first).disk },
            p,
        ),
        opened(disk, first).disk.subrange(0, 8) == FILE_IDENTIFIER_SIGNATURE@,
        slot_header(opened(disk, first).disk, slot) == Some(h),
{
    let o = opened(disk, first);
    let x = replayed(disk, chain_found(disk, h));
    lemma_open_replayed(disk, first, h, slot);
    lemma_clearing_frame(x, h, slot);
    lemma_front_agrees(o.disk, x);
    lemma_slot_agrees(o.disk, x, slot);
    opened_image_is_kept(disk, first, p);
}

/// A crash after each of the operations that replay a log and mark it as consumed, which leave the
/// device of `v`.
proof fn lemma_crash_while_replaying(
    disk: Seq<u8>,
    v: Volume,
    p: Placement,
    k: int,
    mode: OpenMode,
)
    requires
        comes_to(disk, mode, v),
        mode.replay_capable,
        kept(v, p),
        lies_behind_headers(v),
        is_dirty(v.reader.header),
        v.reader.header.version == 1,
        slot_header(v.disk, v.reader.active_slot) == Some(v.reader.header),
        active_header(slot_header(disk, HeaderSlot::One), slot_header(disk, HeaderSlot::Two))
            == Some((v.reader.header, v.reader.active_slot)),
        log_region_fault(v.reader.header, disk.len() as int) is None,
        chain_found(disk, v.reader.header).len() > 0,
        can_be_found_again(chain_found(disk, v.reader.header), v.reader.header),
        ({
            let h = v.reader.header;
            let x = replayed(disk, chain_found(disk, h));
            &&& v.disk == after_ops(x, clearing_ops(h, v.reader.active_slot))
            &&& log_region_fault(h, x.len() as int) is None
            &&& x.subrange(0, 8) == FILE_IDENTIFIER_SIGNATURE@
            &&& slot_header(x, HeaderSlot::One) == slot_header(disk, HeaderSlot::One)
            &&& slot_header(x, HeaderSlot::Two) == slot_header(disk, HeaderSlot::Two)
            &&& region_table_on(x) == Some(p.regions)
        }),
        0 <= k <= chain_ops(chain_found(disk, v.reader.header)).len() + 4,
    ensures
        comes_to(
            after_ops(
                disk,
                (chain_ops(chain_found(disk, v.reader.header)) + clearing_ops(
                    v.reader.header,
                    v.reader.active_slot,
                )).take(k),
            ),
            mode,
            v,
        ),
{
    let h = v.reader.header;
    let slot = v.reader.active_slot;
    let chain = chain_found(disk, h);
    let n = chain_ops(chain).len();
    let x = replayed(disk, chain);
    lemma_first_of_open(disk, chain, h, slot, k);
    if k <= n {
        lemma_crash_in_replay(disk, mode, v, h, slot, k);
    } else if k <= n + 2 {
        lemma_erased(x, h, slot);
        let e = written(x, h.log_offset, zeros(h.log_length as nat));
        lemma_opens_with_empty_log(v, p, e, mode);
    } else {
        lemma_clearing_frame(x, h, slot);
        lemma_erased_log_is_empty(x, h, slot);
        lemma_consumed_reopens(v, p, mode);
        lemma_comes_to_itself(v, mode);
    }
}

/// A device that opens as `v` without an operation comes to `v`.
proof fn lemma_comes_to_itself(v: Volume, mode: OpenMode)
    requires
        opened(v.disk, mode).result is Ok,
        opened(v.disk, mode).disk == v.disk,
        same_image(opened(v.disk, mode).result->Ok_0, v.reader),
    ensures
        comes_to(v.disk, mode, v),
{
    reveal(comes_to);
}

/// The operations of an open that replays the log.
proof fn lemma_operations_of_open(disk: Seq<u8>, mode: OpenMode, h: HeaderView, slot: HeaderSlot)
    requires
        opened_with_header(disk, h, slot, mode).result is Ok,
        opened_with_header(disk, h, slot, mode).ops.len() > 0,
    ensures
        opened_with_header(disk, h, slot, mode).ops == chain_ops(chain_found(disk, h))
            + clearing_ops(h, slot),
{
    lemma_operations_mean_replay(disk, mode, h, slot);
    let x = replayed(disk, chain_found(disk, h));
    let settled = opened_with_log_settled(x, h, slot, true, mode);
    assert(settled.result is Ok);
    assert(settled.ops =~= clearing_ops(h, slot));
}

/// An open that performs nothing can be repeated.
proof fn lemma_nothing_to_make_good(disk: Seq<u8>, first: OpenMode, k: int, again: OpenMode)
    requires
        opened(disk, first).result is Ok,
        opened(disk, first).disk.len() <= u64::MAX,
        opened(disk, first).ops.len() == 0,
        0 <= k <= opened(disk, first).ops.len(),
        again.replay_capable,
    ensures
        opened(disk, first).result->Ok_0.wf(),
        comes_to(
            after_ops(disk, opened(disk, first).ops.take(k)),
            again,
            Volume { reader: opened(disk, first).result->Ok_0, disk: opened(disk, first).disk },
        ),
{
    let (h, slot) = lemma_opened_with_header(disk, first);
    lemma_header_read(disk, slot);
    lemma_opened_without_replay(disk, h, slot, first);
    lemma_opened_for_anything(disk, first, again);
    assert(opened(disk, first).ops.take(k) =~= Seq::<OpView>::empty());
}

/// A crash after each of the operations of an open that replays the log.
proof fn lemma_replay_is_made_good(disk: Seq<u8>, first: OpenMode, k: int, again: OpenMode)
    requires
        opened(disk, first).result is Ok,
        opened(disk, first).disk.len() <= u64::MAX,
        opened(disk, first).ops.len() > 0,
        can_be_found_again(
            chain_found(disk, opened(disk, first).result->Ok_0.header),
            opened(disk, first).result->Ok_0.header,
        ),
        lies_behind_headers(
            Volume { reader: opened(disk, first).result->Ok_0, disk: opened(disk, first).disk },
        ),
        0 <= k <= opened(disk, first).ops.len(),
        again.replay_capable,
    ensures
        opened(disk, first).result->Ok_0.wf(),
        comes_to(
            after_ops(disk, opened(disk, first).ops.take(k)),
            again,
            Volume { reader: opened(disk, first).result->Ok_0, disk: opened(disk, first).disk },
        ),
{
    let v = Volume { reader: opened(disk, first).result->Ok_0, disk: opened(disk, first).disk };
    let (h, slot) = lemma_opened_with_header(disk, first);
    lemma_opened_for_anything(disk, first, again);
    lemma_open_replayed(disk, first, h, slot);
    let regions = region_table_on(replayed(disk, chain_found(disk, h)))->Some_0;
    let p = Placement {
        regions,
        metadata: region_named(regions, guids::METADATA@)->Some_0,
        bat: region_named(regions, guids::BAT@)->Some_0,
    };
    lemma_replayed_is_kept(disk, first, h, slot, p);
    lemma_crash_while_replaying(disk, v, p, k, again);
}

/// A crash while an image is opened is made good by the next open: after each of the operations of
/// an open that would succeed, the next one succeeds, and comes to the same image with the same
/// contents.
///
/// The chain that is replayed must leave alone what is needed to find it again. The image must lie
/// behind the header section, in which the open writes. The next open needs a device that takes
/// writes, as the first one did.
pub proof fn crash_while_opening_is_made_good(
    disk: Seq<u8>,
    first: OpenMode,
    k: int,
    again: OpenMode,
)
    requires
        opened(disk, first).result is Ok,
        opened(disk, first).disk.len() <= u64::MAX,
        can_be_found_again(
            chain_found(disk, opened(disk, first).result->Ok_0.header),
            opened(disk, first).result->Ok_0.header,
        ),
        lies_behind_headers(
            Volume { reader: opened(disk, first).result->Ok_0, disk: opened(disk, first).disk },
        ),
        0 <= k <= opened(disk, first).ops.len(),
        again.replay_capable,
    ensures
        ({
            let o = opened(disk, first);
            let a = opened(after_ops(disk, o.ops.take(k)), again);
            &&& a.result is Ok
            &&& same_image(a.result->Ok_0, o.result->Ok_0)
            &&& contents(Volume { reader: a.result->Ok_0, disk: a.disk }) == contents(
                Volume { reader: o.result->Ok_0, disk: o.disk },
            )
        }),
{
    let o = opened(disk, first);
    let v = Volume { reader: o.result->Ok_0, disk: o.disk };
    if o.ops.len() == 0 {
        lemma_nothing_to_make_good(disk, first, k, again);
    } else {
        lemma_replay_is_made_good(disk, first, k, again);
    }
    lemma_same_contents(after_ops(disk, o.ops.take(k)), again, v);
}

/// What comes to the image of `v` has its contents.
proof fn lemma_same_contents(disk: Seq<u8>, mode: OpenMode, v: Volume)
    requires
        comes_to(disk, mode, v),
        v.reader.wf(),
        lies_behind_headers(v),
    ensures
        opened(disk, mode).result is Ok,
        same_image(opened(disk, mode).result->Ok_0, v.reader),
        contents(Volume { reader: opened(disk, mode).result->Ok_0, disk: opened(disk, mode).disk })
            == contents(v),
{
    reveal(comes_to);
    let o = opened(disk, mode);
    lemma_same_image_same_contents(Volume { reader: o.result->Ok_0, disk: o.disk }, v);
}

} // verus!

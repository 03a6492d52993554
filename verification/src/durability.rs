//! What closing and reopening an image, or a crash, leaves of it.
use crate::bat::{bat_entry, bat_index, present_entry, present_entry_decodes_back};
use crate::bytes::{all_zero, splice, zeros};
use crate::device::{after_ops, lemma_after_three_ops, lemma_after_two_ops, written, OpView};
use crate::endian::{le64, le64_bytes, lemma_le64_bytes, lemma_le64_of_equal_bytes};
use crate::error::Error;
use crate::header::{active_header, encoded_header_parses_back, header_bytes, lemma_header_length};
use crate::header::{HeaderSlot, HeaderView};
use crate::layout::{any_overlaps_log, bat_entries, bat_length_fault, geometry_meaning};
use crate::layout::{layout_fault, lemma_geometry, log_region_fault, overlaps_log, region_in_file};
use crate::layout::Geometry;
use crate::log::{DescriptorView, EntryView};
use crate::log::chain::{lemma_zeros_end_the_scan, replay_chain};
use crate::log::encode::{encoded_length, encoded_view, entry_bytes, lemma_entry_length};
use crate::log::encode::{lone_entry_is_the_chain, whole_sectors, EntryFields, WriteView};
use crate::log::replay::{allowed_extent, chain_ops, chain_within, descriptor_reach, replayed};
use crate::log::replay::{replayed_descriptor, replayed_descriptors};
use crate::open::{clearing_ops, is_dirty, log_cleared, opened, opened_dirty, opened_with_bat};
use crate::open::{opened_with_header, opened_with_log, opened_with_log_settled};
use crate::open::{opened_with_regions, region_table_on, slot_header, OpenMode, OpenOutcome};
use crate::open::FILE_IDENTIFIER_SIGNATURE;
use crate::reader::{has_room_to_journal, lemma_index_in_bat, lemma_tail_block, next_header};
use crate::reader::{piece_length, tail_block, ReaderView};
use crate::region_table::{guids, index_of_region, region_named, RegionView};
use crate::volume::{apart, block_is_apart, blocks_apart, blocks_clear, claims_are_free, contents};
use crate::volume::{filled, lemma_allocated_clear, lemma_allocated_frame, lemma_block_in_bat};
use crate::volume::{lemma_block_of, lemma_journal_entry_length, lemma_journal_frame};
use crate::volume::{lemma_next_header_fits, lemma_other_index, lemma_paid_clear};
use crate::volume::{lemma_readable_range, lemma_sector_before_tail};
use crate::volume::{read_gives_back_what_was_written, read_gives_the_contents};
use crate::volume::{write_changes_exactly_its_range, write_leaves_other_reads_alone};
use crate::volume::write_leaves_the_blocks_apart;
use crate::write::{accepted_until, allocated, allocations_from, appended, entry_in_one_sector};
use crate::write::{has_room, has_room_from, journal_entry, journal_ops, journalled};
use crate::write::{lemma_next_piece, lemma_rest_after_allocating, lemma_rest_after_paying, paid};
use crate::write::{piece_end, published_sector, wrote, wrote_from, Volume};
use vstd::prelude::*;

pub mod crash;
pub mod recovery;

verus! {

/// Where the structures of an image lie: all of its regions, and the two that are read.
#[verifier::ext_equal]
pub struct Placement {
    pub regions: Seq<RegionView>,
    pub metadata: RegionView,
    pub bat: RegionView,
}

/// Whether the log region holds exactly one entry, which announces a BAT sector as it stands on
/// the device.
pub open spec fn log_holds_bat_sector(v: Volume, index: int, fields: EntryFields) -> bool {
    let h = v.reader.header;
    let at = v.reader.sector_position(index);
    &&& 0 <= index < v.reader.bat.len()
    &&& at + 4096 <= v.disk.len()
    &&& fields.fits()
    &&& fields.log_guid == h.log_guid
    &&& v.disk.subrange(h.log_offset, h.log_offset + h.log_length) == splice(
        zeros(h.log_length as nat),
        0,
        entry_bytes(
            fields,
            seq![WriteView { file_offset: at, sector: v.disk.subrange(at, at + 4096) }],
        ),
    )
}

/// Whether the log that the reader's header declares has nothing left to do: it holds nothing to
/// replay, or nothing but a BAT sector that is already in place.
pub open spec fn nothing_pending(v: Volume) -> bool {
    let h = v.reader.header;
    let log = v.disk.subrange(h.log_offset, h.log_offset + h.log_length);
    ||| replay_chain(log, h.log_guid).len() == 0
    ||| exists|index: int, fields: EntryFields| log_holds_bat_sector(v, index, fields)
}

/// Whether the header slots say what the reader knows: the reader's header is the active one,
/// and a log that it declares dirty has nothing left to do; or the log was replayed when the image
/// was opened, and the other slot says so.
pub open spec fn slots_agree(v: Volume) -> bool {
    let r = v.reader;
    let one = slot_header(v.disk, HeaderSlot::One);
    let two = slot_header(v.disk, HeaderSlot::Two);
    &&& slot_header(v.disk, r.active_slot) == Some(r.header)
    &&& {
        ||| {
            &&& active_header(one, two) == Some((r.header, r.active_slot))
            &&& is_dirty(r.header) ==> nothing_pending(v)
        }
        ||| {
            &&& active_header(one, two) == Some(
                (log_cleared(r.header), r.active_slot.opposite()),
            )
            &&& r.header.log_length > 0
        }
    }
}

/// Whether a metadata region describes a disk of this geometry.
#[verifier::opaque]
pub open spec fn describes(region: Seq<u8>, geometry: Geometry) -> bool {
    geometry_meaning(region) == Ok::<Geometry, Error>(geometry)
}

/// Whether the structures on the device say what the reader knows of the image.
pub open spec fn kept(v: Volume, p: Placement) -> bool {
    let r = v.reader;
    &&& r.wf()
    &&& v.disk.len() == r.dev_size
    &&& v.disk.subrange(0, 8) == FILE_IDENTIFIER_SIGNATURE@
    &&& r.header.version == 1
    &&& r.header.log_version == 0
    &&& log_region_fault(r.header, r.dev_size) is None
    &&& slots_agree(v)
    &&& region_table_on(v.disk) == Some(p.regions)
    &&& layout_fault(r.header, p.regions) is None
    &&& region_named(p.regions, guids::METADATA@) == Some(p.metadata)
    &&& region_named(p.regions, guids::BAT@) == Some(p.bat)
    &&& region_in_file(p.metadata, r.dev_size)
    &&& describes(
        v.disk.subrange(p.metadata.file_offset, p.metadata.file_offset + p.metadata.length),
        r.geometry,
    )
    &&& p.bat.file_offset == r.bat_region_off
    &&& p.bat.length == 8 * r.bat.len()
    &&& bat_entries(v.disk.subrange(r.bat_region_off, r.bat_region_off + 8 * r.bat.len())) == r.bat
}

/// Whether the metadata region and the BAT lie behind the header section, and apart from each
/// other and from the blocks. That both lie apart from the log is checked when an image is
/// opened.
pub open spec fn structures_apart(r: ReaderView, p: Placement) -> bool {
    let m = p.metadata;
    let bs = r.geometry.block_size as int;
    &&& 0 < m.length
    &&& 0x10_0000 <= m.file_offset
    &&& 0x10_0000 <= r.bat_region_off
    &&& forall|i: int|
        0 <= i < r.bat.len() ==> apart(
            m.file_offset,
            m.length,
            #[trigger] r.sector_position(i),
            4096,
        )
    &&& forall|b: int|
        #[trigger] r.has_block(b) ==> apart(r.host_of(b), bs, m.file_offset, m.length) && apart(
            r.host_of(b),
            bs,
            r.bat_region_off,
            8 * r.bat.len() as int,
        )
}

/// Whether two devices hold the same bytes in a span.
pub open spec fn agree(a: Seq<u8>, b: Seq<u8>, from: int, len: int) -> bool {
    forall|k: int| from <= k < from + len ==> #[trigger] a[k] == b[k]
}

/// Spans that agree are equal.
proof fn lemma_agree(a: Seq<u8>, b: Seq<u8>, from: int, len: int)
    requires
        0 <= from,
        0 <= len,
        from + len <= a.len(),
        from + len <= b.len(),
        agree(a, b, from, len),
    ensures
        a.subrange(from, from + len) == b.subrange(from, from + len),
{
    assert(a.subrange(from, from + len) =~= b.subrange(from, from + len));
}

/// The header section that is not a header slot: the file identifier and the region tables.
proof fn lemma_front_agrees(a: Seq<u8>, b: Seq<u8>)
    requires
        a.len() >= 0x10_0000,
        b.len() >= 0x10_0000,
        agree(a, b, 0, 8),
        agree(a, b, 0x3_0000, 0x2_0000),
    ensures
        a.subrange(0, 8) == b.subrange(0, 8),
        region_table_on(a) == region_table_on(b),
{
    reveal(region_table_on);
    lemma_agree(a, b, 0, 8);
    lemma_agree(a, b, 0x3_0000, 0x1_0000);
    lemma_agree(a, b, 0x4_0000, 0x1_0000);
}

/// A header slot that keeps its bytes keeps its header.
proof fn lemma_slot_agrees(a: Seq<u8>, b: Seq<u8>, slot: HeaderSlot)
    requires
        a.len() >= 0x10_0000,
        b.len() >= 0x10_0000,
        agree(a, b, slot.position(), 4096),
    ensures
        slot_header(a, slot) == slot_header(b, slot),
{
    reveal(slot_header);
    lemma_agree(a, b, slot.position(), 4096);
}

/// A header slot that was written holds the header that was written.
proof fn lemma_slot_written(disk: Seq<u8>, slot: HeaderSlot, h: HeaderView)
    requires
        disk.len() >= 0x10_0000,
        h.fits(),
        h.version == 1,
    ensures
        slot_header(written(disk, slot.position(), header_bytes(h)), slot) == Some(h),
{
    reveal(slot_header);
    encoded_header_parses_back(h);
    let after = written(disk, slot.position(), header_bytes(h));
    assert(after.subrange(slot.position(), slot.position() + 4096) =~= header_bytes(h));
}

/// What an image that got as far as its regions was opened as.
proof fn lemma_opened_with_regions(
    disk: Seq<u8>,
    h: HeaderView,
    slot: HeaderSlot,
    metadata: Option<RegionView>,
    bat: Option<RegionView>,
    mode: OpenMode,
)
    requires
        opened_with_regions(disk, h, slot, metadata, bat, mode).result is Ok,
    ensures
        ({
            let r = opened_with_regions(disk, h, slot, metadata, bat, mode).result->Ok_0;
            let m = metadata->Some_0;
            let b = bat->Some_0;
            &&& opened_with_regions(disk, h, slot, metadata, bat, mode).disk == disk
            &&& metadata is Some
            &&& bat is Some
            &&& region_in_file(m, disk.len() as int)
            &&& region_in_file(b, disk.len() as int)
            &&& describes(disk.subrange(m.file_offset, m.file_offset + m.length), r.geometry)
            &&& bat_length_fault(b.length, r.geometry) is None
            &&& r == (ReaderView {
                dev_size: disk.len() as int,
                header: h,
                active_slot: slot,
                geometry: r.geometry,
                bat_region_off: b.file_offset,
                bat: bat_entries(disk.subrange(b.file_offset, b.file_offset + b.length)),
                writable: mode.writable,
            })
        }),
{
    reveal(describes);
}

/// Sizes that are read from an image are permitted ones.
proof fn lemma_geometry_read(region: Seq<u8>, geometry: Geometry)
    requires
        describes(region, geometry),
    ensures
        geometry.wf(),
{
    reveal(describes);
}

/// The fields of a header that is read from an image have the right widths, and its version is
/// the supported one.
proof fn lemma_header_read(disk: Seq<u8>, slot: HeaderSlot)
    requires
        slot_header(disk, slot) is Some,
    ensures
        (slot_header(disk, slot)->Some_0).fits(),
        (slot_header(disk, slot)->Some_0).version == 1,
{
    reveal(slot_header);
}

/// Where a search for a region lands.
proof fn lemma_index_of_region(regions: Seq<RegionView>, guid: Seq<u8>, i: int)
    requires
        0 <= i,
        index_of_region(regions, guid, i) is Some,
    ensures
        0 <= index_of_region(regions, guid, i)->Some_0 < regions.len(),
    decreases regions.len() - i,
{
    if i < regions.len() && regions[i].guid != guid {
        lemma_index_of_region(regions, guid, i + 1);
    }
}

/// The regions that are read from an image have offsets and lengths that are not negative.
proof fn lemma_region_read(disk: Seq<u8>, regions: Seq<RegionView>, guid: Seq<u8>)
    requires
        region_table_on(disk) == Some(regions),
        region_named(regions, guid) is Some,
    ensures
        0 <= (region_named(regions, guid)->Some_0).file_offset,
        0 <= (region_named(regions, guid)->Some_0).length,
{
    reveal(region_table_on);
    lemma_index_of_region(regions, guid, 0);
}

/// An image that was opened got past its identifier and has an active header.
proof fn lemma_opened_with_header(disk: Seq<u8>, mode: OpenMode) -> (picked: (
    HeaderView,
    HeaderSlot,
))
    requires
        opened(disk, mode).result is Ok,
    ensures
        disk.subrange(0, 8) == FILE_IDENTIFIER_SIGNATURE@,
        active_header(slot_header(disk, HeaderSlot::One), slot_header(disk, HeaderSlot::Two))
            == Some(picked),
        slot_header(disk, picked.1) == Some(picked.0),
        opened(disk, mode) == opened_with_header(disk, picked.0, picked.1, mode),
{
    active_header(slot_header(disk, HeaderSlot::One), slot_header(disk, HeaderSlot::Two))->Some_0
}

/// What makes a clean image a kept one.
proof fn lemma_kept(v: Volume, p: Placement)
    requires
        v.disk.len() <= u64::MAX,
        v.disk.len() == v.reader.dev_size,
        v.disk.subrange(0, 8) == FILE_IDENTIFIER_SIGNATURE@,
        slots_agree(v),
        v.reader.header.fits(),
        v.reader.header.version == 1,
        v.reader.header.log_version == 0,
        log_region_fault(v.reader.header, v.reader.dev_size) is None,
        region_table_on(v.disk) == Some(p.regions),
        layout_fault(v.reader.header, p.regions) is None,
        region_named(p.regions, guids::METADATA@) == Some(p.metadata),
        region_named(p.regions, guids::BAT@) == Some(p.bat),
        region_in_file(p.metadata, v.reader.dev_size),
        region_in_file(p.bat, v.reader.dev_size),
        0 <= p.bat.file_offset,
        0 <= p.bat.length,
        describes(
            v.disk.subrange(p.metadata.file_offset, p.metadata.file_offset + p.metadata.length),
            v.reader.geometry,
        ),
        v.reader.geometry.wf(),
        bat_length_fault(p.bat.length, v.reader.geometry) is None,
        v.reader.bat_region_off == p.bat.file_offset,
        v.reader.bat == bat_entries(
            v.disk.subrange(p.bat.file_offset, p.bat.file_offset + p.bat.length),
        ),
    ensures
        kept(v, p),
{
    assert(v.reader.bat.len() == p.bat.length / 8);
}

/// What an opened image went through once its header was picked: nothing was replayed, because no
/// log was declared or it held nothing to replay; or the log was.
proof fn lemma_opened_log(disk: Seq<u8>, h: HeaderView, slot: HeaderSlot, mode: OpenMode)
    requires
        opened_with_header(disk, h, slot, mode).result is Ok,
    ensures
        ({
            let chain = replay_chain(
                disk.subrange(h.log_offset, h.log_offset + h.log_length),
                h.log_guid,
            );
            &&& h.log_version == 0
            &&& log_region_fault(h, disk.len() as int) is None
            &&& {
                ||| {
                    &&& is_dirty(h) ==> chain.len() == 0
                    &&& opened_with_header(disk, h, slot, mode) == opened_with_log_settled(
                        disk,
                        h,
                        slot,
                        false,
                        mode,
                    )
                }
                ||| {
                    &&& is_dirty(h)
                    &&& chain.len() > 0
                    &&& opened_with_header(disk, h, slot, mode) == opened_with_log_settled(
                        replayed(disk, chain),
                        h,
                        slot,
                        true,
                        mode,
                    ).preceded_by(chain_ops(chain))
                }
            }
        }),
{
}

/// What an image whose log was settled was opened as.
proof fn lemma_opened_settled(
    disk: Seq<u8>,
    h: HeaderView,
    slot: HeaderSlot,
    was_replayed: bool,
    mode: OpenMode,
)
    requires
        opened_with_log_settled(disk, h, slot, was_replayed, mode).result is Ok,
    ensures
        ({
            let o = opened_with_log_settled(disk, h, slot, was_replayed, mode);
            let r = o.result->Ok_0;
            let regions = region_table_on(disk)->Some_0;
            let m = region_named(regions, guids::METADATA@)->Some_0;
            let b = region_named(regions, guids::BAT@)->Some_0;
            &&& region_table_on(disk) is Some
            &&& layout_fault(h, regions) is None
            &&& region_named(regions, guids::METADATA@) is Some
            &&& region_named(regions, guids::BAT@) is Some
            &&& o.disk == if was_replayed {
                after_ops(disk, clearing_ops(h, slot))
            } else {
                disk
            }
            &&& region_in_file(m, o.disk.len() as int)
            &&& region_in_file(b, o.disk.len() as int)
            &&& describes(o.disk.subrange(m.file_offset, m.file_offset + m.length), r.geometry)
            &&& r.geometry.wf()
            &&& bat_length_fault(b.length, r.geometry) is None
            &&& r.dev_size == o.disk.len()
            &&& r.header == h
            &&& r.active_slot == slot
            &&& r.bat_region_off == b.file_offset
            &&& r.bat == bat_entries(o.disk.subrange(b.file_offset, b.file_offset + b.length))
        }),
{
    let o = opened_with_log_settled(disk, h, slot, was_replayed, mode);
    let regions = region_table_on(disk)->Some_0;
    let metadata = region_named(regions, guids::METADATA@);
    let bat = region_named(regions, guids::BAT@);
    let after = if was_replayed {
        after_ops(disk, clearing_ops(h, slot))
    } else {
        disk
    };
    lemma_opened_with_regions(after, h, slot, metadata, bat, mode);
    let m = metadata->Some_0;
    lemma_geometry_read(
        after.subrange(m.file_offset, m.file_offset + m.length),
        o.result->Ok_0.geometry,
    );
}

/// Replaying a log never shortens the device.
proof fn lemma_replay_keeps_the_length(disk: Seq<u8>, chain: Seq<EntryView>)
    ensures
        replayed(disk, chain).len() >= disk.len(),
    decreases chain.len(),
{
    if chain.len() > 0 {
        lemma_replay_keeps_the_length(disk, chain.drop_last());
        lemma_descriptors_keep_the_length(
            replayed(disk, chain.drop_last()),
            chain.last().descriptors,
        );
    }
}

/// Replaying descriptors never shortens the device.
proof fn lemma_descriptors_keep_the_length(disk: Seq<u8>, ds: Seq<DescriptorView>)
    ensures
        replayed_descriptors(disk, ds).len() >= disk.len(),
    decreases ds.len(),
{
    if ds.len() > 0 {
        lemma_descriptors_keep_the_length(disk, ds.drop_last());
    }
}

/// A log that was erased is all zero.
proof fn lemma_erased_log_is_zero(disk: Seq<u8>, h: HeaderView, slot: HeaderSlot)
    requires
        h.fits(),
        h.version == 1,
        h.log_length > 0,
        log_region_fault(h, disk.len() as int) is None,
    ensures
        after_ops(disk, clearing_ops(h, slot)).len() == disk.len(),
        forall|k: int|
            h.log_offset <= k < h.log_offset + h.log_length ==> #[trigger] after_ops(
                disk,
                clearing_ops(h, slot),
            )[k] == 0,
{
    let at = slot.opposite().position();
    let erased = written(disk, h.log_offset, zeros(h.log_length as nat));
    let cleared = log_cleared(h);
    assert(cleared.fits() && cleared.version == 1);
    lemma_header_length(cleared);
    lemma_after_two_ops(
        disk,
        OpView::Zeros { offset: h.log_offset, len: h.log_length },
        OpView::Write { offset: at, data: header_bytes(cleared) },
    );
    lemma_write_frame(erased, at, header_bytes(cleared));
}

/// A log that was erased holds nothing to replay.
proof fn lemma_erased_log_is_empty(disk: Seq<u8>, h: HeaderView, slot: HeaderSlot)
    requires
        h.fits(),
        h.version == 1,
        h.log_length > 0,
        log_region_fault(h, disk.len() as int) is None,
    ensures
        replay_chain(
            after_ops(disk, clearing_ops(h, slot)).subrange(
                h.log_offset,
                h.log_offset + h.log_length,
            ),
            h.log_guid,
        ).len() == 0,
{
    let after = after_ops(disk, clearing_ops(h, slot));
    let log = after.subrange(h.log_offset, h.log_offset + h.log_length);
    lemma_erased_log_is_zero(disk, h, slot);
    assert forall|k: int| 0 <= k < log.len() implies #[trigger] log[k] == 0 by {
        assert(log[k] == after[h.log_offset + k]);
    }
    lemma_zeros_end_the_scan(log, h.log_guid, 0);
}

/// The header slots of a volume whose log was consumed when it was opened.
proof fn lemma_slots_agree_with_log_consumed(v: Volume)
    requires
        v.reader.header.fits(),
        v.reader.header.log_length > 0,
        slot_header(v.disk, v.reader.active_slot) == Some(v.reader.header),
        slot_header(v.disk, v.reader.active_slot.opposite()) == Some(
            log_cleared(v.reader.header),
        ),
        replay_chain(
            v.disk.subrange(
                v.reader.header.log_offset,
                v.reader.header.log_offset + v.reader.header.log_length,
            ),
            v.reader.header.log_guid,
        ).len() == 0,
    ensures
        slots_agree(v),
{
    let h = v.reader.header;
    let slot = v.reader.active_slot;
    if h.sequence_number < u64::MAX {
        lemma_later_header_is_active(v.disk, slot, h, log_cleared(h));
    } else {
        assert(slot.opposite().opposite() == slot);
        lemma_later_header_is_active(v.disk, slot.opposite(), log_cleared(h), h);
        assert(nothing_pending(v));
    }
}

/// An image that was opened is kept: the structures on the device say what the reader knows.
///
/// Where a log was replayed, the replay must have left the file identifier and the header in use
/// alone.
pub proof fn opened_image_is_kept(disk: Seq<u8>, mode: OpenMode, p: Placement)
    requires
        opened(disk, mode).result is Ok,
        opened(disk, mode).disk.len() <= u64::MAX,
        region_table_on(opened(disk, mode).disk) == Some(p.regions),
        region_named(p.regions, guids::METADATA@) == Some(p.metadata),
        region_named(p.regions, guids::BAT@) == Some(p.bat),
        opened(disk, mode).disk != disk ==> {
            let o = opened(disk, mode);
            let r = o.result->Ok_0;
            &&& o.disk.subrange(0, 8) == FILE_IDENTIFIER_SIGNATURE@
            &&& slot_header(o.disk, r.active_slot) == Some(r.header)
        },
    ensures
        kept(Volume { reader: opened(disk, mode).result->Ok_0, disk: opened(disk, mode).disk }, p),
{
    let o = opened(disk, mode);
    let r = o.result->Ok_0;
    let w = Volume { reader: r, disk: o.disk };
    let (h, slot) = lemma_opened_with_header(disk, mode);
    lemma_header_read(disk, slot);
    lemma_opened_log(disk, h, slot, mode);
    lemma_region_read(o.disk, p.regions, guids::BAT@);
    let chain = replay_chain(
        disk.subrange(h.log_offset, h.log_offset + h.log_length),
        h.log_guid,
    );
    if o == opened_with_log_settled(disk, h, slot, false, mode) && (is_dirty(h) ==> chain.len()
        == 0) {
        lemma_opened_settled(disk, h, slot, false, mode);
        assert(slots_agree(w));
        lemma_kept(w, p);
    } else {
        let x = replayed(disk, chain);
        lemma_replay_keeps_the_length(disk, chain);
        lemma_opened_settled(x, h, slot, true, mode);
        lemma_clearing_frame(x, h, slot);
        lemma_front_agrees(o.disk, x);
        lemma_erased_log_is_empty(x, h, slot);
        lemma_slots_agree_with_log_consumed(w);
        lemma_kept(w, p);
    }
}

/// The log that an image was found with: what there is to replay of it.
pub open spec fn chain_found(disk: Seq<u8>, h: HeaderView) -> Seq<EntryView> {
    replay_chain(disk.subrange(h.log_offset, h.log_offset + h.log_length), h.log_guid)
}

/// An open that performed anything replayed the log.
proof fn lemma_operations_mean_replay(
    disk: Seq<u8>,
    mode: OpenMode,
    h: HeaderView,
    slot: HeaderSlot,
)
    requires
        opened_with_header(disk, h, slot, mode).result is Ok,
        opened_with_header(disk, h, slot, mode).ops.len() > 0,
    ensures
        h.log_version == 0,
        log_region_fault(h, disk.len() as int) is None,
        is_dirty(h),
        chain_found(disk, h).len() > 0,
        opened_with_header(disk, h, slot, mode) == opened_with_log_settled(
            replayed(disk, chain_found(disk, h)),
            h,
            slot,
            true,
            mode,
        ).preceded_by(chain_ops(chain_found(disk, h))),
{
    lemma_opened_log(disk, h, slot, mode);
}

/// What an open that replayed the log leaves on the device: what the replay left, but for the log
/// region, which is erased, and the header slot that was not in use, which says that the log was
/// consumed.
///
/// The file identifier and the header in use must still be there after the replay.
proof fn lemma_log_consumed(disk: Seq<u8>, mode: OpenMode)
    requires
        opened(disk, mode).result is Ok,
        opened(disk, mode).ops.len() > 0,
        opened(disk, mode).disk.subrange(0, 8) == FILE_IDENTIFIER_SIGNATURE@,
        slot_header(opened(disk, mode).disk, opened(disk, mode).result->Ok_0.active_slot) == Some(
            opened(disk, mode).result->Ok_0.header,
        ),
    ensures
        ({
            let o = opened(disk, mode);
            let r = o.result->Ok_0;
            let h = r.header;
            let other = r.active_slot.opposite();
            let x = replayed(disk, chain_found(disk, h));
            &&& chain_found(disk, h).len() > 0
            &&& is_dirty(h)
            &&& h.fits()
            &&& h.version == 1
            &&& o.disk.len() == x.len() >= disk.len()
            &&& forall|k: int|
                0 <= k < x.len() && !(h.log_offset <= k < h.log_offset + h.log_length) && !(
                other.position() <= k < other.position() + 4096) ==> #[trigger] o.disk[k] == x[k]
            &&& forall|k: int|
                h.log_offset <= k < h.log_offset + h.log_length ==> #[trigger] o.disk[k] == 0
            &&& slot_header(o.disk, other) == Some(log_cleared(h))
            &&& chain_found(o.disk, h).len() == 0
            &&& region_table_on(o.disk) is Some
            &&& region_named(region_table_on(o.disk)->Some_0, guids::METADATA@) is Some
            &&& region_named(region_table_on(o.disk)->Some_0, guids::BAT@) is Some
        }),
{
    let o = opened(disk, mode);
    let (h, slot) = lemma_opened_with_header(disk, mode);
    lemma_operations_mean_replay(disk, mode, h, slot);
    let chain = chain_found(disk, h);
    let x = replayed(disk, chain);
    lemma_header_read(disk, slot);
    lemma_replay_keeps_the_length(disk, chain);
    lemma_opened_settled(x, h, slot, true, mode);
    assert(o.result->Ok_0.header == h && o.result->Ok_0.active_slot == slot);
    lemma_clearing_frame(x, h, slot);
    lemma_erased_log_is_empty(x, h, slot);
    lemma_erased_log_is_zero(x, h, slot);
    lemma_front_agrees(o.disk, x);
}

/// The header that is active once a log was consumed, and its slot: the one that says so, unless
/// the sequence numbers ran out.
pub open spec fn header_after_replay(h: HeaderView, slot: HeaderSlot) -> (HeaderView, HeaderSlot) {
    if h.sequence_number < u64::MAX {
        (log_cleared(h), slot.opposite())
    } else {
        (h, slot)
    }
}

/// What opening an image comes to whose log was consumed.
proof fn lemma_consumed_reopens(v: Volume, p: Placement, mode: OpenMode)
    requires
        kept(v, p),
        is_dirty(v.reader.header),
        slot_header(v.disk, v.reader.active_slot) == Some(v.reader.header),
        slot_header(v.disk, v.reader.active_slot.opposite()) == Some(log_cleared(v.reader.header)),
        chain_found(v.disk, v.reader.header).len() == 0,
        v.reader.header.sequence_number < u64::MAX || mode.replay_capable,
    ensures
        ({
            let picked = header_after_replay(v.reader.header, v.reader.active_slot);
            &&& active_header(
                slot_header(v.disk, HeaderSlot::One),
                slot_header(v.disk, HeaderSlot::Two),
            ) == Some(picked)
            &&& opened(v.disk, mode) == (OpenOutcome {
                ops: Seq::empty(),
                disk: v.disk,
                result: Ok(
                    ReaderView {
                        header: picked.0,
                        active_slot: picked.1,
                        writable: mode.writable,
                        ..v.reader
                    },
                ),
            })
        }),
{
    let h = v.reader.header;
    let slot = v.reader.active_slot;
    if h.sequence_number < u64::MAX {
        lemma_later_header_is_active(v.disk, slot, h, log_cleared(h));
        lemma_reopen_clean(v, p, mode, log_cleared(h), slot.opposite());
    } else {
        assert(slot.opposite().opposite() == slot);
        lemma_later_header_is_active(v.disk, slot.opposite(), log_cleared(h), h);
        lemma_settles(v.disk, h, slot, false, mode, v.reader, p);
    }
}

/// A replayed log is not replayed again: after an open that replayed the log, the next open
/// succeeds, performs nothing, and comes to the same image. By then the log region is all zero,
/// and the header that says that the log was consumed is the active one.
///
/// The file identifier and the header in use must still be there after the replay, which the chain
/// of a sound image leaves alone. Once the sequence numbers have run out, the old header stays the
/// active one; the next open then finds the log empty, but needs a device that takes writes to
/// look.
pub proof fn replayed_log_is_not_replayed_again(disk: Seq<u8>, first: OpenMode, again: OpenMode)
    requires
        opened(disk, first).result is Ok,
        opened(disk, first).ops.len() > 0,
        opened(disk, first).disk.len() <= u64::MAX,
        opened(disk, first).disk.subrange(0, 8) == FILE_IDENTIFIER_SIGNATURE@,
        slot_header(opened(disk, first).disk, opened(disk, first).result->Ok_0.active_slot) == Some(
            opened(disk, first).result->Ok_0.header,
        ),
        opened(disk, first).result->Ok_0.header.sequence_number < u64::MAX || again.replay_capable,
    ensures
        ({
            let o = opened(disk, first);
            let r = o.result->Ok_0;
            let h = r.header;
            let other = r.active_slot.opposite();
            let x = replayed(disk, chain_found(disk, h));
            let picked = header_after_replay(h, r.active_slot);
            &&& chain_found(disk, h).len() > 0
            &&& o.disk.len() == x.len()
            &&& forall|k: int|
                0 <= k < x.len() && !(h.log_offset <= k < h.log_offset + h.log_length) && !(
                other.position() <= k < other.position() + 4096) ==> #[trigger] o.disk[k] == x[k]
            &&& forall|k: int|
                h.log_offset <= k < h.log_offset + h.log_length ==> #[trigger] o.disk[k] == 0
            &&& active_header(
                slot_header(o.disk, HeaderSlot::One),
                slot_header(o.disk, HeaderSlot::Two),
            ) == Some(picked)
            &&& opened(o.disk, again) == (OpenOutcome {
                ops: Seq::empty(),
                disk: o.disk,
                result: Ok(
                    ReaderView {
                        header: picked.0,
                        active_slot: picked.1,
                        writable: again.writable,
                        ..r
                    },
                ),
            })
        }),
{
    let o = opened(disk, first);
    let v = Volume { reader: o.result->Ok_0, disk: o.disk };
    lemma_log_consumed(disk, first);
    let regions = region_table_on(o.disk)->Some_0;
    let p = Placement {
        regions,
        metadata: region_named(regions, guids::METADATA@)->Some_0,
        bat: region_named(regions, guids::BAT@)->Some_0,
    };
    opened_image_is_kept(disk, first, p);
    lemma_consumed_reopens(v, p, again);
}

/// What replaying a chain of one entry that announces one sector does to a device.
proof fn lemma_replayed_one_sector(disk: Seq<u8>, entry: EntryView, d: DescriptorView)
    requires
        entry.descriptors == seq![d],
    ensures
        replayed(disk, seq![entry]) == replayed_descriptor(disk, d),
        allowed_extent(seq![entry], disk.len() as int) >= disk.len(),
        descriptor_reach(d) <= disk.len() ==> chain_within(
            seq![entry],
            allowed_extent(seq![entry], disk.len() as int),
        ),
{
    let chain = seq![entry];
    assert(chain.drop_last() =~= Seq::<EntryView>::empty());
    assert(entry.descriptors.drop_last() =~= Seq::<DescriptorView>::empty());
    reveal_with_fuel(replayed, 2);
    reveal_with_fuel(replayed_descriptors, 2);
    reveal_with_fuel(allowed_extent, 2);
}

/// A log region of zeros that starts with one entry, which announces the sector `sector` at
/// `at`, replays as the write of that sector and nothing else.
proof fn lemma_lone_sector(
    disk: Seq<u8>,
    h: HeaderView,
    fields: EntryFields,
    at: int,
    sector: Seq<u8>,
)
    requires
        is_dirty(h),
        log_region_fault(h, disk.len() as int) is None,
        fields.fits(),
        fields.log_guid == h.log_guid,
        0 <= at,
        at + 4096 <= disk.len() <= u64::MAX,
        sector.len() == 4096,
        disk.subrange(h.log_offset, h.log_offset + h.log_length) == splice(
            zeros(h.log_length as nat),
            0,
            entry_bytes(fields, seq![WriteView { file_offset: at, sector }]),
        ),
    ensures
        ({
            let chain = replay_chain(
                disk.subrange(h.log_offset, h.log_offset + h.log_length),
                h.log_guid,
            );
            &&& chain.len() == 1
            &&& chain_within(chain, allowed_extent(chain, disk.len() as int))
            &&& replayed(disk, chain) == written(disk, at, sector)
        }),
{
    let writes = seq![WriteView { file_offset: at, sector }];
    let log = disk.subrange(h.log_offset, h.log_offset + h.log_length);
    let e = entry_bytes(fields, writes);
    let view = encoded_view(fields, writes, 0);
    assert(whole_sectors(writes));
    lemma_entry_length(fields, writes);
    assert(encoded_length(1) == 8192);
    assert(log.subrange(0, 8192) =~= e);
    lone_entry_is_the_chain(log, 0, fields, writes);
    let d = view.descriptors[0];
    assert(view.descriptors =~= seq![d]);
    lemma_replayed_one_sector(disk, view, d);
}

/// What marking a replayed log as consumed changes: the log region, and the slot that is not in
/// use.
proof fn lemma_clearing_frame(disk: Seq<u8>, h: HeaderView, slot: HeaderSlot)
    requires
        h.fits(),
        h.version == 1,
        h.log_length > 0,
        log_region_fault(h, disk.len() as int) is None,
    ensures
        ({
            let after = after_ops(disk, clearing_ops(h, slot));
            let other = slot.opposite();
            &&& after.len() == disk.len()
            &&& slot_header(after, other) == Some(log_cleared(h))
            &&& forall|k: int|
                0 <= k < disk.len() && !(h.log_offset <= k < h.log_offset + h.log_length) && !(
                other.position() <= k < other.position() + 4096) ==> #[trigger] after[k] == disk[k]
        }),
{
    let at = slot.opposite().position();
    let erased = written(disk, h.log_offset, zeros(h.log_length as nat));
    let cleared = log_cleared(h);
    assert(cleared.fits() && cleared.version == 1);
    lemma_header_length(cleared);
    lemma_after_two_ops(
        disk,
        OpView::Zeros { offset: h.log_offset, len: h.log_length },
        OpView::Write { offset: at, data: header_bytes(cleared) },
    );
    lemma_write_frame(disk, h.log_offset, zeros(h.log_length as nat));
    lemma_slot_written(erased, slot.opposite(), cleared);
    lemma_write_frame(erased, at, header_bytes(cleared));
}

/// A write inside the device changes the bytes that it names and no others.
proof fn lemma_write_frame(disk: Seq<u8>, at: int, data: Seq<u8>)
    requires
        0 <= at,
        at + data.len() <= disk.len(),
    ensures
        written(disk, at, data).len() == disk.len(),
        forall|k: int|
            0 <= k < disk.len() && !(at <= k < at + data.len()) ==> #[trigger] written(
                disk,
                at,
                data,
            )[k] == disk[k],
{
}

/// What opening comes to once the log is settled, for a device whose structures are those of the
/// reader `r`.
proof fn lemma_settles(
    disk: Seq<u8>,
    h: HeaderView,
    slot: HeaderSlot,
    was_replayed: bool,
    mode: OpenMode,
    r: ReaderView,
    p: Placement,
)
    requires
        r.wf(),
        region_table_on(disk) == Some(p.regions),
        layout_fault(h, p.regions) is None,
        region_named(p.regions, guids::METADATA@) == Some(p.metadata),
        region_named(p.regions, guids::BAT@) == Some(p.bat),
        p.bat.file_offset == r.bat_region_off,
        p.bat.length == 8 * r.bat.len(),
        ({
            let after = if was_replayed {
                after_ops(disk, clearing_ops(h, slot))
            } else {
                disk
            };
            let m = p.metadata;
            &&& after.len() == r.dev_size
            &&& region_in_file(m, r.dev_size)
            &&& describes(after.subrange(m.file_offset, m.file_offset + m.length), r.geometry)
            &&& bat_entries(
                after.subrange(r.bat_region_off, r.bat_region_off + 8 * r.bat.len()),
            ) == r.bat
        }),
    ensures
        opened_with_log_settled(disk, h, slot, was_replayed, mode) == (OpenOutcome {
            ops: if was_replayed {
                clearing_ops(h, slot)
            } else {
                Seq::empty()
            },
            disk: if was_replayed {
                after_ops(disk, clearing_ops(h, slot))
            } else {
                disk
            },
            result: Ok(
                ReaderView { header: h, active_slot: slot, writable: mode.writable, ..r },
            ),
        }),
{
    let after = if was_replayed {
        after_ops(disk, clearing_ops(h, slot))
    } else {
        disk
    };
    reveal(describes);
    assert(bat_length_fault(p.bat.length, r.geometry) is None);
    assert(opened_with_bat(after, h, slot, r.geometry, p.bat, mode).result == Ok::<
        ReaderView,
        Error,
    >(ReaderView { header: h, active_slot: slot, writable: mode.writable, ..r }));
}

/// Reopening a kept image whose active header declares no dirty log.
proof fn lemma_reopen_clean(
    v: Volume,
    p: Placement,
    mode: OpenMode,
    h: HeaderView,
    slot: HeaderSlot,
)
    requires
        kept(v, p),
        active_header(slot_header(v.disk, HeaderSlot::One), slot_header(v.disk, HeaderSlot::Two))
            == Some((h, slot)),
        !is_dirty(h),
        h.log_version == 0,
        h.log_offset == v.reader.header.log_offset,
        h.log_length == v.reader.header.log_length,
    ensures
        opened(v.disk, mode) == (OpenOutcome {
            ops: Seq::empty(),
            disk: v.disk,
            result: Ok(
                ReaderView { header: h, active_slot: slot, writable: mode.writable, ..v.reader },
            ),
        }),
{
    lemma_layout_follows_the_log_region(v.reader.header, h, p.regions);
    lemma_settles(v.disk, h, slot, false, mode, v.reader, p);
    assert(opened_with_header(v.disk, h, slot, mode) == opened_with_log_settled(
        v.disk,
        h,
        slot,
        false,
        mode,
    ));
}

/// Whether a layout is refused is a matter of the log region alone, as far as the header goes.
proof fn lemma_layout_follows_the_log_region(
    a: HeaderView,
    b: HeaderView,
    regions: Seq<RegionView>,
)
    requires
        a.log_offset == b.log_offset,
        a.log_length == b.log_length,
    ensures
        layout_fault(a, regions) == layout_fault(b, regions),
{
    assert forall|k: int| 0 <= k < regions.len() implies overlaps_log(a, #[trigger] regions[k])
        == overlaps_log(b, regions[k]) by {}
    if any_overlaps_log(a, regions, 0) {
        let k = choose|k: int| 0 <= k < regions.len() && overlaps_log(a, #[trigger] regions[k]);
        assert(overlaps_log(b, regions[k]));
    }
    if any_overlaps_log(b, regions, 0) {
        let k = choose|k: int| 0 <= k < regions.len() && overlaps_log(b, #[trigger] regions[k]);
        assert(overlaps_log(a, regions[k]));
    }
}

/// A write that puts bytes where they already are changes nothing.
proof fn lemma_rewrite_changes_nothing(disk: Seq<u8>, at: int, len: int)
    requires
        0 <= at,
        0 <= len,
        at + len <= disk.len(),
    ensures
        written(disk, at, disk.subrange(at, at + len)) == disk,
{
    assert(written(disk, at, disk.subrange(at, at + len)) =~= disk);
}

/// Opening an image whose log holds nothing but the announcement of one sector: the sector is
/// written, the log is erased, and a header says so.
proof fn lemma_open_with_lone_sector(
    disk: Seq<u8>,
    mode: OpenMode,
    h: HeaderView,
    slot: HeaderSlot,
    regions: Seq<RegionView>,
    fields: EntryFields,
    at: int,
    sector: Seq<u8>,
)
    requires
        mode.replay_capable,
        disk.subrange(0, 8) == FILE_IDENTIFIER_SIGNATURE@,
        active_header(slot_header(disk, HeaderSlot::One), slot_header(disk, HeaderSlot::Two))
            == Some((h, slot)),
        is_dirty(h),
        h.log_version == 0,
        log_region_fault(h, disk.len() as int) is None,
        region_table_on(disk) == Some(regions),
        layout_fault(h, regions) is None,
        fields.fits(),
        fields.log_guid == h.log_guid,
        0 <= at,
        at + 4096 <= disk.len() <= u64::MAX,
        sector.len() == 4096,
        disk.subrange(h.log_offset, h.log_offset + h.log_length) == splice(
            zeros(h.log_length as nat),
            0,
            entry_bytes(fields, seq![WriteView { file_offset: at, sector }]),
        ),
    ensures
        ({
            let o = opened(disk, mode);
            let s = opened_with_log_settled(written(disk, at, sector), h, slot, true, mode);
            &&& o.disk == s.disk
            &&& o.result == s.result
        }),
{
    lemma_lone_sector(disk, h, fields, at, sector);
    let chain = replay_chain(
        disk.subrange(h.log_offset, h.log_offset + h.log_length),
        h.log_guid,
    );
    assert(opened_with_log(disk, h, slot, mode) == opened_with_log_settled(
        replayed(disk, chain),
        h,
        slot,
        true,
        mode,
    ).preceded_by(chain_ops(chain)));
    assert(opened_with_header(disk, h, slot, mode) == opened_dirty(disk, h, slot, mode));
}

/// A region that was looked up is one that the layout check saw.
proof fn lemma_named_region_is_checked(h: HeaderView, regions: Seq<RegionView>, guid: Seq<u8>)
    requires
        layout_fault(h, regions) is None,
        region_named(regions, guid) is Some,
    ensures
        !overlaps_log(h, region_named(regions, guid)->Some_0),
{
    lemma_index_of_region(regions, guid, 0);
}

/// The log of a kept image lies behind the header section, and apart from the metadata region and
/// the BAT.
proof fn lemma_log_apart(v: Volume, p: Placement)
    requires
        kept(v, p),
        0 < p.metadata.length,
        v.reader.header.log_length > 0,
    ensures
        ({
            let r = v.reader;
            let h = r.header;
            let m = p.metadata;
            &&& has_room_to_journal(h)
            &&& 0x10_0000 <= h.log_offset
            &&& h.log_offset + h.log_length <= r.dev_size
            &&& apart(m.file_offset, m.length, h.log_offset, h.log_length)
            &&& r.bat.len() > 0 ==> apart(
                r.bat_region_off,
                8 * r.bat.len() as int,
                h.log_offset,
                h.log_length,
            )
            &&& forall|i: int|
                0 <= i < r.bat.len() ==> apart(
                    #[trigger] r.sector_position(i),
                    4096,
                    h.log_offset,
                    h.log_length,
                )
        }),
{
    let r = v.reader;
    let h = r.header;
    lemma_named_region_is_checked(h, p.regions, guids::METADATA@);
    lemma_named_region_is_checked(h, p.regions, guids::BAT@);
    assert(apart(r.bat_region_off, 8 * r.bat.len() as int, h.log_offset, h.log_length)
        || r.bat.len() == 0);
    assert forall|i: int| 0 <= i < r.bat.len() implies apart(
        #[trigger] r.sector_position(i),
        4096,
        h.log_offset,
        h.log_length,
    ) by {
        lemma_sector_outside(r.entry_position(i), h.log_offset, h.log_length);
    }
}

/// The sector of a byte outside a span of whole megabytes lies outside the span.
proof fn lemma_sector_outside(at: int, from: int, len: int)
    requires
        0 <= at,
        0 <= from,
        0 < len,
        from % 0x10_0000 == 0,
        len % 0x10_0000 == 0,
        !(from <= at < from + len),
    ensures
        apart(at / 4096 * 4096, 4096, from, len),
{
    let a = from / 0x10_0000;
    let b = len / 0x10_0000;
    let q = at / 4096;
    assert(from == 4096 * (256 * a));
    assert(len == 4096 * (256 * b));
    assert(4096 * q <= at < 4096 * q + 4096);
    if at < from {
        assert(q < 256 * a);
    } else {
        assert(q >= 256 * a + 256 * b);
    }
}

/// A block of a kept image starts at a whole megabyte.
proof fn lemma_block_on_a_megabyte(v: Volume, p: Placement, b: int)
    requires
        kept(v, p),
        v.reader.has_block(b),
    ensures
        v.reader.host_of(b) % 0x10_0000 == 0,
{
    let r = v.reader;
    let bytes = v.disk.subrange(r.bat_region_off, r.bat_region_off + 8 * r.bat.len());
    let index = bat_index(b, r.geometry.chunk_ratio());
    lemma_block_in_bat(r, b);
    let raw = le64(bytes, 8 * index);
    assert(0 <= raw <= u64::MAX);
    assert(r.bat[index] == bat_entry(raw));
    assert(0 <= raw / 0x10_0000 * 0x10_0000 <= u64::MAX);
}

/// The blocks of a kept image lie apart if they lie behind the header section, and clear of the
/// BAT, of the log and of each other. Where they lie clear of the BAT, they lie clear of the
/// sectors that hold it: both start and end with a sector.
pub proof fn clear_blocks_lie_apart(v: Volume, p: Placement)
    requires
        kept(v, p),
        ({
            let r = v.reader;
            let h = r.header;
            let bs = r.geometry.block_size as int;
            &&& forall|b: int| #[trigger]
                r.has_block(b) ==> 0x10_0000 <= r.host_of(b) && apart(
                    r.host_of(b),
                    bs,
                    r.bat_region_off,
                    8 * r.bat.len() as int,
                ) && (h.log_length > 0 ==> apart(r.host_of(b), bs, h.log_offset, h.log_length))
            &&& forall|b: int, c: int|
                #[trigger] r.has_block(b) && #[trigger] r.has_block(c) && b != c ==> apart(
                    r.host_of(b),
                    bs,
                    r.host_of(c),
                    bs,
                )
        }),
    ensures
        blocks_apart(v),
{
    let r = v.reader;
    let bs = r.geometry.block_size as int;
    lemma_geometry(r.geometry);
    assert forall|b: int| #[trigger] r.has_block(b) implies block_is_apart(r, b) by {
        lemma_block_on_a_megabyte(v, p, b);
        assert forall|i: int| 0 <= i < r.bat.len() implies apart(
            r.host_of(b),
            bs,
            #[trigger] r.sector_position(i),
            4096,
        ) by {
            lemma_sector_outside(r.entry_position(i), r.host_of(b), bs);
        }
    }
}

/// A device that agrees with a volume's device everywhere but in the log and the header section
/// holds the same virtual disk.
proof fn lemma_contents_agree(v: Volume, disk: Seq<u8>)
    requires
        blocks_clear(v),
        has_room_to_journal(v.reader.header),
        disk.len() == v.disk.len(),
        forall|k: int|
            0x10_0000 <= k < disk.len() && !(v.reader.header.log_offset <= k
                < v.reader.header.log_offset + v.reader.header.log_length) ==> #[trigger] disk[k]
                == v.disk[k],
    ensures
        contents(Volume { reader: v.reader, disk }) == contents(v),
{
    let r = v.reader;
    let bs = r.geometry.block_size as int;
    let other = Volume { reader: r, disk };
    assert forall|at: int| 0 <= at < r.geometry.virtual_size implies #[trigger] contents(other)[at]
        == contents(v)[at] by {
        lemma_block_of(r, at);
        let b = at / bs;
        if r.has_block(b) {
            assert(block_is_apart(r, b));
        }
    }
    assert(contents(other) =~= contents(v));
}

/// Marking the log of a kept image as consumed leaves the structures that are read, and the
/// blocks.
proof fn lemma_cleared_keeps_structures(v: Volume, p: Placement)
    requires
        kept(v, p),
        structures_apart(v.reader, p),
        blocks_clear(v),
        v.reader.header.log_length > 0,
    ensures
        ({
            let r = v.reader;
            let m = p.metadata;
            let after = after_ops(v.disk, clearing_ops(r.header, r.active_slot));
            &&& after.len() == r.dev_size
            &&& after.subrange(0, 8) == v.disk.subrange(0, 8)
            &&& region_table_on(after) == region_table_on(v.disk)
            &&& after.subrange(m.file_offset, m.file_offset + m.length) == v.disk.subrange(
                m.file_offset,
                m.file_offset + m.length,
            )
            &&& after.subrange(r.bat_region_off, r.bat_region_off + 8 * r.bat.len())
                == v.disk.subrange(r.bat_region_off, r.bat_region_off + 8 * r.bat.len())
            &&& slot_header(after, r.active_slot) == Some(r.header)
            &&& slot_header(after, r.active_slot.opposite()) == Some(log_cleared(r.header))
        }),
{
    let r = v.reader;
    let m = p.metadata;
    let after = after_ops(v.disk, clearing_ops(r.header, r.active_slot));
    lemma_clearing_frame(v.disk, r.header, r.active_slot);
    lemma_front_agrees(after, v.disk);
    lemma_slot_agrees(after, v.disk, r.active_slot);
    lemma_log_apart(v, p);
    lemma_agree(after, v.disk, m.file_offset, m.length);
    lemma_agree(after, v.disk, r.bat_region_off, 8 * r.bat.len() as int);
}

/// Marking the log of a kept image as consumed leaves the virtual disk.
proof fn lemma_cleared_keeps_contents(v: Volume, p: Placement)
    requires
        kept(v, p),
        structures_apart(v.reader, p),
        blocks_clear(v),
        v.reader.header.log_length > 0,
    ensures
        contents(
            Volume {
                reader: v.reader,
                disk: after_ops(
                    v.disk,
                    clearing_ops(v.reader.header, v.reader.active_slot),
                ),
            },
        ) == contents(v),
{
    let r = v.reader;
    lemma_log_apart(v, p);
    lemma_clearing_frame(v.disk, r.header, r.active_slot);
    lemma_contents_agree(v, after_ops(v.disk, clearing_ops(r.header, r.active_slot)));
}

/// What reopening an image comes to whose header declares a log with nothing left to do: the log
/// is left alone if it holds nothing to replay, and erased otherwise.
proof fn lemma_reopen_dirty(v: Volume, p: Placement, mode: OpenMode)
    requires
        kept(v, p),
        structures_apart(v.reader, p),
        blocks_clear(v),
        mode.replay_capable,
        active_header(slot_header(v.disk, HeaderSlot::One), slot_header(v.disk, HeaderSlot::Two))
            == Some((v.reader.header, v.reader.active_slot)),
        is_dirty(v.reader.header),
        nothing_pending(v),
    ensures
        ({
            let o = opened(v.disk, mode);
            let r = v.reader;
            &&& o.result == Ok::<ReaderView, Error>(
                ReaderView { writable: mode.writable, ..v.reader },
            )
            &&& o.disk == v.disk || o.disk == after_ops(
                v.disk,
                clearing_ops(r.header, r.active_slot),
            )
        }),
{
    let r = v.reader;
    let h = r.header;
    let log = v.disk.subrange(h.log_offset, h.log_offset + h.log_length);
    if replay_chain(log, h.log_guid).len() == 0 {
        assert(opened_with_log(v.disk, h, r.active_slot, mode) == opened_with_log_settled(
            v.disk,
            h,
            r.active_slot,
            false,
            mode,
        ));
        assert(opened_with_header(v.disk, h, r.active_slot, mode) == opened_dirty(
            v.disk,
            h,
            r.active_slot,
            mode,
        ));
        lemma_settles(v.disk, h, r.active_slot, false, mode, r, p);
    } else {
        let (index, fields) = choose|index: int, fields: EntryFields|
            log_holds_bat_sector(v, index, fields);
        let at = r.sector_position(index);
        let sector = v.disk.subrange(at, at + 4096);
        lemma_open_with_lone_sector(
            v.disk,
            mode,
            h,
            r.active_slot,
            p.regions,
            fields,
            at,
            sector,
        );
        lemma_rewrite_changes_nothing(v.disk, at, 4096);
        lemma_cleared_keeps_structures(v, p);
        lemma_settles(v.disk, h, r.active_slot, true, mode, r, p);
    }
}

/// What reopening a kept image comes to: the same image, on a device that may have had its log
/// erased.
proof fn lemma_reopen(v: Volume, p: Placement, mode: OpenMode)
    requires
        kept(v, p),
        structures_apart(v.reader, p),
        blocks_clear(v),
        mode.replay_capable,
    ensures
        ({
            let o = opened(v.disk, mode);
            let r = o.result->Ok_0;
            let again = Volume { reader: r, disk: o.disk };
            &&& o.result is Ok
            &&& {
                ||| {
                    &&& o.disk == v.disk
                    &&& r == (ReaderView { writable: mode.writable, ..v.reader })
                }
                ||| {
                    &&& o.disk == v.disk
                    &&& r == (ReaderView {
                        header: log_cleared(v.reader.header),
                        active_slot: v.reader.active_slot.opposite(),
                        writable: mode.writable,
                        ..v.reader
                    })
                    &&& active_header(
                        slot_header(v.disk, HeaderSlot::One),
                        slot_header(v.disk, HeaderSlot::Two),
                    ) == Some((r.header, r.active_slot))
                }
                ||| {
                    &&& o.disk == after_ops(
                        v.disk,
                        clearing_ops(v.reader.header, v.reader.active_slot),
                    )
                    &&& r == (ReaderView { writable: mode.writable, ..v.reader })
                    &&& is_dirty(v.reader.header)
                }
            }
        }),
{
    let r = v.reader;
    let h = r.header;
    let one = slot_header(v.disk, HeaderSlot::One);
    let two = slot_header(v.disk, HeaderSlot::Two);
    if active_header(one, two) == Some((h, r.active_slot)) {
        if is_dirty(h) {
            if !nothing_pending(v) {
                // Only the second form of agreement is left, and it names another header.
                assert(log_cleared(h).log_guid == zeros(16));
                assert(all_zero(log_cleared(h).log_guid));
                assert(false);
            }
            lemma_reopen_dirty(v, p, mode);
        } else {
            lemma_reopen_clean(v, p, mode, h, r.active_slot);
        }
    } else {
        let c = log_cleared(h);
        assert(c.log_guid == zeros(16));
        assert(all_zero(c.log_guid));
        lemma_reopen_clean(v, p, mode, c, r.active_slot.opposite());
    }
}

/// Readers that differ only in their headers, with one log region, and in what they were opened
/// for see the same blocks in the same places.
proof fn lemma_blocks_do_not_move(v: Volume, r: ReaderView, disk: Seq<u8>, p: Placement)
    requires
        blocks_clear(v),
        structures_apart(v.reader, p),
        disk.len() == v.disk.len(),
        r == (ReaderView {
            header: r.header,
            active_slot: r.active_slot,
            writable: r.writable,
            ..v.reader
        }),
        r.header.fits(),
        r.header.log_offset == v.reader.header.log_offset,
        r.header.log_length == v.reader.header.log_length,
    ensures
        blocks_clear(Volume { reader: r, disk }),
        blocks_apart(v) ==> blocks_apart(Volume { reader: r, disk }),
        structures_apart(r, p),
{
    let s = v.reader;
    assert forall|b: int| #[trigger] r.has_block(b) implies block_is_apart(r, b) by {
        assert(s.has_block(b));
        assert(block_is_apart(s, b));
        assert forall|i: int| 0 <= i < r.bat.len() implies apart(
            r.host_of(b),
            r.geometry.block_size as int,
            #[trigger] r.sector_position(i),
            4096,
        ) by {
            assert(r.sector_position(i) == s.sector_position(i));
        }
    }
    if blocks_apart(v) {
        assert forall|b: int, c: int|
            #[trigger] r.has_block(b) && #[trigger] r.has_block(c) && b != c implies apart(
            r.host_of(b),
            r.geometry.block_size as int,
            r.host_of(c),
            r.geometry.block_size as int,
        ) by {
            assert(s.has_block(b) && s.has_block(c));
        }
    }
    assert forall|i: int| 0 <= i < r.bat.len() implies apart(
        p.metadata.file_offset,
        p.metadata.length,
        #[trigger] r.sector_position(i),
        4096,
    ) by {
        assert(r.sector_position(i) == s.sector_position(i));
    }
    assert forall|b: int| #[trigger] r.has_block(b) implies apart(
        r.host_of(b),
        r.geometry.block_size as int,
        p.metadata.file_offset,
        p.metadata.length,
    ) && apart(
        r.host_of(b),
        r.geometry.block_size as int,
        r.bat_region_off,
        8 * r.bat.len() as int,
    ) by {
        assert(s.has_block(b));
    }
}

/// A kept image whose log was marked as consumed is kept: the other slot says so.
proof fn lemma_cleared_is_kept(v: Volume, p: Placement, writable: bool)
    requires
        kept(v, p),
        structures_apart(v.reader, p),
        blocks_clear(v),
        is_dirty(v.reader.header),
    ensures
        kept(
            Volume {
                reader: ReaderView { writable, ..v.reader },
                disk: after_ops(
                    v.disk,
                    clearing_ops(v.reader.header, v.reader.active_slot),
                ),
            },
            p,
        ),
{
    lemma_cleared_keeps_structures(v, p);
    lemma_erased_log_is_empty(v.disk, v.reader.header, v.reader.active_slot);
    lemma_kept_with_log_consumed(
        v,
        p,
        after_ops(v.disk, clearing_ops(v.reader.header, v.reader.active_slot)),
        writable,
    );
}

/// A device on which the structures of a kept image are unchanged, and the other slot says that
/// the log was consumed, keeps the image.
proof fn lemma_kept_with_log_consumed(v: Volume, p: Placement, disk: Seq<u8>, writable: bool)
    requires
        kept(v, p),
        v.reader.header.log_length > 0,
        replay_chain(
            disk.subrange(
                v.reader.header.log_offset,
                v.reader.header.log_offset + v.reader.header.log_length,
            ),
            v.reader.header.log_guid,
        ).len() == 0,
        ({
            let r = v.reader;
            let m = p.metadata;
            &&& disk.len() == r.dev_size
            &&& disk.subrange(0, 8) == v.disk.subrange(0, 8)
            &&& region_table_on(disk) == region_table_on(v.disk)
            &&& disk.subrange(m.file_offset, m.file_offset + m.length) == v.disk.subrange(
                m.file_offset,
                m.file_offset + m.length,
            )
            &&& disk.subrange(r.bat_region_off, r.bat_region_off + 8 * r.bat.len())
                == v.disk.subrange(r.bat_region_off, r.bat_region_off + 8 * r.bat.len())
            &&& slot_header(disk, r.active_slot) == Some(r.header)
            &&& slot_header(disk, r.active_slot.opposite()) == Some(log_cleared(r.header))
        }),
    ensures
        kept(Volume { reader: ReaderView { writable, ..v.reader }, disk }, p),
{
    lemma_slots_agree_with_log_consumed(
        Volume { reader: ReaderView { writable, ..v.reader }, disk },
    );
}

/// Of two valid headers the one with the higher sequence number is active.
proof fn lemma_later_header_is_active(
    disk: Seq<u8>,
    slot: HeaderSlot,
    earlier: HeaderView,
    later: HeaderView,
)
    requires
        slot_header(disk, slot) == Some(earlier),
        slot_header(disk, slot.opposite()) == Some(later),
        earlier.sequence_number < later.sequence_number,
    ensures
        active_header(slot_header(disk, HeaderSlot::One), slot_header(disk, HeaderSlot::Two))
            == Some((later, slot.opposite())),
{
    match slot {
        HeaderSlot::One => {},
        HeaderSlot::Two => {},
    }
}

/// Closing and reopening: a kept image opens again, with the same geometry and the same BAT, and
/// its virtual disk holds what it held. What was opened is kept.
///
/// The device has to take writes, since the log may have to be replayed.
pub proof fn reopening_gives_the_same_contents(v: Volume, p: Placement, mode: OpenMode)
    requires
        kept(v, p),
        structures_apart(v.reader, p),
        blocks_clear(v),
        mode.replay_capable,
    ensures
        ({
            let o = opened(v.disk, mode);
            let again = Volume { reader: o.result->Ok_0, disk: o.disk };
            &&& o.result is Ok
            &&& again.reader.geometry == v.reader.geometry
            &&& again.reader.bat == v.reader.bat
            &&& again.reader.writable == mode.writable
            &&& again.reader.dev_size == v.reader.dev_size
            &&& contents(again) == contents(v)
            &&& blocks_clear(again)
            &&& blocks_apart(v) ==> blocks_apart(again)
            &&& structures_apart(again.reader, p)
            &&& kept(again, p)
        }),
{
    let r = v.reader;
    let o = opened(v.disk, mode);
    let again = Volume { reader: o.result->Ok_0, disk: o.disk };
    lemma_reopen(v, p, mode);
    if o.disk == v.disk {
        assert(contents(again) =~= contents(v));
        lemma_blocks_do_not_move(v, again.reader, o.disk, p);
        if again.reader.header == r.header {
            assert(kept(again, p)) by {
                lemma_mode_does_not_matter(v, p, mode.writable);
            }
        } else {
            lemma_layout_follows_the_log_region(r.header, again.reader.header, p.regions);
            assert(all_zero(again.reader.header.log_guid));
            assert(slots_agree(again));
            assert(kept(again, p));
        }
    } else {
        lemma_cleared_keeps_contents(v, p);
        assert(contents(again) =~= contents(Volume { reader: r, disk: o.disk }));
        lemma_blocks_do_not_move(v, again.reader, o.disk, p);
        lemma_cleared_is_kept(v, p, mode.writable);
    }
}

/// What an image was opened for does not show on the device.
proof fn lemma_mode_does_not_matter(v: Volume, p: Placement, writable: bool)
    requires
        kept(v, p),
    ensures
        kept(Volume { reader: ReaderView { writable, ..v.reader }, disk: v.disk }, p),
{
    let w = Volume { reader: ReaderView { writable, ..v.reader }, disk: v.disk };
    assert(slots_agree(w)) by {
        if exists|index: int, fields: EntryFields| log_holds_bat_sector(v, index, fields) {
            let (index, fields) = choose|index: int, fields: EntryFields|
                log_holds_bat_sector(v, index, fields);
            assert(log_holds_bat_sector(w, index, fields));
        }
    }
}

/// A device on which the structures of a kept image are unchanged, the log included, keeps the
/// image.
proof fn lemma_kept_where_structures_are(v: Volume, p: Placement, disk: Seq<u8>)
    requires
        kept(v, p),
        ({
            let r = v.reader;
            let h = r.header;
            let m = p.metadata;
            &&& disk.len() == v.disk.len()
            &&& disk.subrange(0, 8) == v.disk.subrange(0, 8)
            &&& region_table_on(disk) == region_table_on(v.disk)
            &&& disk.subrange(m.file_offset, m.file_offset + m.length) == v.disk.subrange(
                m.file_offset,
                m.file_offset + m.length,
            )
            &&& disk.subrange(r.bat_region_off, r.bat_region_off + 8 * r.bat.len())
                == v.disk.subrange(r.bat_region_off, r.bat_region_off + 8 * r.bat.len())
            &&& forall|slot: HeaderSlot|
                #[trigger] slot_header(disk, slot) == slot_header(v.disk, slot)
            &&& h.log_length > 0 ==> disk.subrange(h.log_offset, h.log_offset + h.log_length)
                == v.disk.subrange(h.log_offset, h.log_offset + h.log_length)
            &&& forall|i: int|
                0 <= i < r.bat.len() && r.sector_position(i) + 4096 <= disk.len()
                    ==> disk.subrange(
                    #[trigger] r.sector_position(i),
                    r.sector_position(i) + 4096,
                ) == v.disk.subrange(r.sector_position(i), r.sector_position(i) + 4096)
        }),
    ensures
        kept(Volume { reader: v.reader, disk }, p),
{
    let w = Volume { reader: v.reader, disk };
    assert(slot_header(disk, HeaderSlot::One) == slot_header(v.disk, HeaderSlot::One));
    assert(slot_header(disk, HeaderSlot::Two) == slot_header(v.disk, HeaderSlot::Two));
    assert(slots_agree(w)) by {
        if exists|index: int, fields: EntryFields| log_holds_bat_sector(v, index, fields) {
            let (index, fields) = choose|index: int, fields: EntryFields|
                log_holds_bat_sector(v, index, fields);
            let at = v.reader.sector_position(index);
            assert(disk.subrange(at, at + 4096) == v.disk.subrange(at, at + 4096));
            if v.reader.header.log_length > 0 {
                assert(log_holds_bat_sector(w, index, fields));
            }
        }
    }
}

/// The volume on a device that has grown.
pub open spec fn on_longer_device(v: Volume, disk: Seq<u8>) -> Volume {
    Volume { reader: ReaderView { dev_size: disk.len() as int, ..v.reader }, disk }
}

/// The structures of a kept image do not depend on what follows them on the device.
proof fn lemma_longer_device_is_kept(v: Volume, p: Placement, disk: Seq<u8>)
    requires
        kept(v, p),
        structures_apart(v.reader, p),
        v.disk.len() <= disk.len() <= u64::MAX,
        agree(disk, v.disk, 0, v.disk.len() as int),
        v.disk.len() >= 0x10_0000,
    ensures
        kept(on_longer_device(v, disk), p),
{
    let r = v.reader;
    let h = r.header;
    let m = p.metadata;
    let w = on_longer_device(v, disk);
    lemma_front_agrees(disk, v.disk);
    lemma_slot_agrees(disk, v.disk, HeaderSlot::One);
    lemma_slot_agrees(disk, v.disk, HeaderSlot::Two);
    lemma_agree(disk, v.disk, m.file_offset, m.length);
    lemma_agree(disk, v.disk, r.bat_region_off, 8 * r.bat.len() as int);
    if h.log_length > 0 {
        lemma_agree(disk, v.disk, h.log_offset, h.log_length);
    }
    assert(slots_agree(w)) by {
        if exists|index: int, fields: EntryFields| log_holds_bat_sector(v, index, fields) {
            let (index, fields) = choose|index: int, fields: EntryFields|
                log_holds_bat_sector(v, index, fields);
            let at = r.sector_position(index);
            lemma_agree(disk, v.disk, at, 4096);
            if h.log_length > 0 {
                assert(w.reader.sector_position(index) == at);
                assert(log_holds_bat_sector(w, index, fields));
            }
        }
        match r.active_slot {
            HeaderSlot::One => {},
            HeaderSlot::Two => {},
        }
    }
}

/// Where the structures lie does not depend on the size of the device.
proof fn lemma_structures_on_longer_device(r: ReaderView, p: Placement, dev_size: int)
    requires
        structures_apart(r, p),
    ensures
        structures_apart(ReaderView { dev_size, ..r }, p),
{
    let s = ReaderView { dev_size, ..r };
    let m = p.metadata;
    let bs = r.geometry.block_size as int;
    assert forall|i: int| 0 <= i < s.bat.len() implies apart(
        m.file_offset,
        m.length,
        #[trigger] s.sector_position(i),
        4096,
    ) by {
        assert(s.sector_position(i) == r.sector_position(i));
    }
    assert forall|b: int| #[trigger] s.has_block(b) implies apart(
        s.host_of(b),
        bs,
        m.file_offset,
        m.length,
    ) && apart(s.host_of(b), bs, s.bat_region_off, 8 * s.bat.len() as int) by {
        assert(r.has_block(b));
    }
}

/// The blocks of a volume are clear of its structures, however long the device is.
proof fn lemma_longer_device_is_clear(v: Volume, disk: Seq<u8>)
    requires
        blocks_clear(v),
        v.disk.len() <= disk.len() <= u64::MAX,
    ensures
        blocks_clear(on_longer_device(v, disk)),
{
    let r = v.reader;
    let s = on_longer_device(v, disk).reader;
    assert forall|b: int| #[trigger] s.has_block(b) implies block_is_apart(s, b) by {
        assert(r.has_block(b));
        assert(block_is_apart(r, b));
        assert forall|i: int| 0 <= i < s.bat.len() implies apart(
            s.host_of(b),
            r.geometry.block_size as int,
            #[trigger] s.sector_position(i),
            4096,
        ) by {
            assert(s.sector_position(i) == r.sector_position(i));
        }
    }
}

/// Writing payload to a block inside the device keeps an image.
proof fn lemma_paid_inside_is_kept(v: Volume, p: Placement, offset: int, data: Seq<u8>, cursor: int)
    requires
        kept(v, p),
        structures_apart(v.reader, p),
        blocks_clear(v),
        0 <= offset <= cursor < offset + data.len() <= v.reader.geometry.virtual_size,
        v.reader.entry_at(cursor).state is FullyPresent,
        piece_end(
            v.reader,
            cursor,
            piece_length(v.reader.geometry.block_size as int, cursor, offset + data.len()),
        ) <= v.reader.dev_size,
    ensures
        kept(paid(v, offset, data, cursor, v.reader.entry_at(cursor).file_offset as int), p),
{
    let r = v.reader;
    let h = r.header;
    let m = p.metadata;
    let bs = r.geometry.block_size as int;
    let end = offset + data.len();
    let n = piece_length(bs, cursor, end);
    let host = r.entry_at(cursor).file_offset as int;
    let chunk = data.subrange(cursor - offset, cursor - offset + n);
    let at = host + cursor % bs;
    let disk = written(v.disk, at, chunk);
    lemma_next_piece(bs, cursor, end);
    lemma_block_of(r, cursor);
    assert(r.has_block(cursor / bs));
    assert(block_is_apart(r, cursor / bs));
    assert(at + n <= host + bs);
    lemma_write_frame(v.disk, at, chunk);
    lemma_front_agrees(disk, v.disk);
    assert forall|slot: HeaderSlot| #[trigger] slot_header(disk, slot) == slot_header(
        v.disk,
        slot,
    ) by {
        lemma_slot_agrees(disk, v.disk, slot);
    }
    lemma_agree(disk, v.disk, m.file_offset, m.length);
    lemma_agree(disk, v.disk, r.bat_region_off, 8 * r.bat.len() as int);
    if h.log_length > 0 {
        lemma_log_apart(v, p);
        lemma_agree(disk, v.disk, h.log_offset, h.log_length);
    }
    assert forall|i: int|
        0 <= i < r.bat.len() && r.sector_position(i) + 4096 <= disk.len() implies disk.subrange(
        #[trigger] r.sector_position(i),
        r.sector_position(i) + 4096,
    ) == v.disk.subrange(r.sector_position(i), r.sector_position(i) + 4096) by {
        assert(apart(host, bs, r.sector_position(i), 4096));
        lemma_agree(disk, v.disk, r.sector_position(i), 4096);
    }
    lemma_kept_where_structures_are(v, p, disk);
}

/// Writing payload to a block keeps an image.
proof fn lemma_paid_is_kept(v: Volume, p: Placement, offset: int, data: Seq<u8>, cursor: int)
    requires
        kept(v, p),
        structures_apart(v.reader, p),
        blocks_clear(v),
        0 <= offset <= cursor < offset + data.len() <= v.reader.geometry.virtual_size,
        v.reader.entry_at(cursor).state is FullyPresent,
        piece_end(
            v.reader,
            cursor,
            piece_length(v.reader.geometry.block_size as int, cursor, offset + data.len()),
        ) <= u64::MAX,
    ensures
        ({
            let after = paid(v, offset, data, cursor, v.reader.entry_at(cursor).file_offset as int);
            &&& kept(after, p)
            &&& structures_apart(after.reader, p)
        }),
{
    let r = v.reader;
    let bs = r.geometry.block_size as int;
    let n = piece_length(bs, cursor, offset + data.len());
    let host = r.entry_at(cursor).file_offset as int;
    let reach = piece_end(r, cursor, n);
    let after = paid(v, offset, data, cursor, host);
    lemma_structures_on_longer_device(r, p, after.reader.dev_size);
    lemma_next_piece(bs, cursor, offset + data.len());
    lemma_block_of(r, cursor);
    if reach <= r.dev_size {
        lemma_paid_inside_is_kept(v, p, offset, data, cursor);
    } else {
        let padded = v.disk + zeros((reach - r.dev_size) as nat);
        let g = on_longer_device(v, padded);
        lemma_longer_device_is_kept(v, p, padded);
        lemma_longer_device_is_clear(v, padded);
        lemma_structures_on_longer_device(r, p, reach);
        lemma_paid_inside_is_kept(g, p, offset, data, cursor);
        assert(paid(g, offset, data, cursor, host).disk =~= after.disk);
        assert(paid(g, offset, data, cursor, host) == after);
    }
}

/// Storing a BAT entry in the bytes of the BAT changes that entry and no other.
proof fn lemma_bat_entries_update(s: Seq<u8>, index: int, raw: int)
    requires
        0 <= index,
        8 * index + 8 <= s.len(),
        0 <= raw <= u64::MAX,
    ensures
        bat_entries(splice(s, 8 * index, le64_bytes(raw))) == bat_entries(s).update(
            index,
            bat_entry(raw),
        ),
{
    let t = splice(s, 8 * index, le64_bytes(raw));
    let want = bat_entries(s).update(index, bat_entry(raw));
    assert forall|i: int| 0 <= i < bat_entries(t).len() implies #[trigger] bat_entries(t)[i]
        == want[i] by {
        if i == index {
            assert(t.subrange(8 * i, 8 * i + 8) =~= le64_bytes(raw).subrange(0, 8));
            lemma_le64_of_equal_bytes(t, 8 * i, le64_bytes(raw), 0);
            lemma_le64_bytes(raw);
        } else {
            assert(t.subrange(8 * i, 8 * i + 8) =~= s.subrange(8 * i, 8 * i + 8));
            lemma_le64_of_equal_bytes(t, 8 * i, s, 8 * i);
        }
    }
    assert(bat_entries(t) =~= want);
}

/// The fields of the entry that journals a sector.
pub open spec fn journal_fields(r: ReaderView) -> EntryFields {
    EntryFields {
        sequence_number: next_header(r.header).sequence_number,
        tail: 0,
        log_guid: next_header(r.header).log_guid,
        flushed_file_offset: r.dev_size,
        last_file_offset: r.dev_size,
    }
}

/// What journalling a sector puts on the device: the log region holds the entry and zeros, and
/// the other slot holds the next header.
proof fn lemma_journal_exact(r: ReaderView, disk: Seq<u8>, at: int, sector: Seq<u8>)
    requires
        r.wf(),
        disk.len() == r.dev_size,
        0 <= at <= u64::MAX,
        sector.len() == 4096,
        has_room_to_journal(r.header),
        r.header.version == 1,
        0x10_0000 <= r.header.log_offset,
        r.header.log_offset + r.header.log_length <= r.dev_size,
    ensures
        ({
            let h = r.header;
            let after = after_ops(disk, journal_ops(r, at, sector));
            &&& slot_header(after, r.active_slot.opposite()) == Some(next_header(h))
            &&& after.subrange(h.log_offset, h.log_offset + h.log_length) == splice(
                zeros(h.log_length as nat),
                0,
                entry_bytes(
                    journal_fields(r),
                    seq![WriteView { file_offset: at, sector }],
                ),
            )
        }),
{
    let h = r.header;
    let slot = r.active_slot.opposite();
    let nh = next_header(h);
    let e = journal_entry(r, at, sector);
    lemma_journal_entry_length(r, at, sector);
    lemma_next_header_fits(h);
    lemma_header_length(nh);
    lemma_after_three_ops(
        disk,
        OpView::Zeros { offset: h.log_offset, len: h.log_length },
        OpView::Write { offset: h.log_offset, data: e },
        OpView::Write { offset: slot.position(), data: header_bytes(nh) },
    );
    lemma_three_writes(disk, h.log_offset, h.log_length, e, slot, nh);
}

/// Zeroing a span, writing at its start, and writing a header to a slot before it.
proof fn lemma_three_writes(
    disk: Seq<u8>,
    from: int,
    len: int,
    e: Seq<u8>,
    slot: HeaderSlot,
    h: HeaderView,
)
    requires
        0x10_0000 <= from,
        from + len <= disk.len(),
        e.len() <= len,
        h.fits(),
        h.version == 1,
    ensures
        ({
            let log = written(written(disk, from, zeros(len as nat)), from, e);
            let after = written(log, slot.position(), header_bytes(h));
            &&& slot_header(after, slot) == Some(h)
            &&& after.subrange(from, from + len) == splice(zeros(len as nat), 0, e)
        }),
{
    let log = written(written(disk, from, zeros(len as nat)), from, e);
    let after = written(log, slot.position(), header_bytes(h));
    lemma_header_length(h);
    lemma_slot_written(log, slot, h);
    lemma_write_frame(log, slot.position(), header_bytes(h));
    assert(log.subrange(from, from + len) =~= splice(zeros(len as nat), 0, e));
    lemma_agree(after, log, from, len);
}

/// What the device holds once a block was allocated: the BAT sector that was journalled is in
/// place, and the BAT names the new block.
proof fn lemma_allocated_bat(v: Volume, p: Placement, index: int)
    requires
        kept(v, p),
        structures_apart(v.reader, p),
        0 <= index < v.reader.bat.len(),
        entry_in_one_sector(v.reader, index),
        v.reader.grown().dev_size <= u64::MAX,
    ensures
        ({
            let r = v.reader;
            let block = tail_block(r.dev_size, r.geometry.block_size as int);
            let w = allocated(v, index);
            bat_entries(
                w.disk.subrange(r.bat_region_off, r.bat_region_off + 8 * r.bat.len()),
            ) == w.reader.bat
        }),
{
    let r = v.reader;
    let bs = r.geometry.block_size as int;
    let block = tail_block(r.dev_size, bs);
    let w = allocated(v, index);
    let from = r.bat_region_off;
    let len = 8 * r.bat.len() as int;
    let raw = present_entry(block);
    let old_bat = v.disk.subrange(from, from + len);
    let new_bat = w.disk.subrange(from, from + len);
    let want = splice(old_bat, 8 * index, le64_bytes(raw));
    lemma_tail_block(r.dev_size, bs);
    lemma_allocated_bytes(v, p, index);
    assert(new_bat =~= want) by {
        assert forall|k: int| 0 <= k < len implies #[trigger] new_bat[k] == want[k] by {
            assert(new_bat[k] == w.disk[from + k]);
        }
    }
    lemma_bat_entries_update(old_bat, index, raw);
}

/// The bytes of the BAT once a block was allocated.
proof fn lemma_allocated_bytes(v: Volume, p: Placement, index: int)
    requires
        kept(v, p),
        structures_apart(v.reader, p),
        0 <= index < v.reader.bat.len(),
        entry_in_one_sector(v.reader, index),
        v.reader.grown().dev_size <= u64::MAX,
    ensures
        ({
            let r = v.reader;
            let block = tail_block(r.dev_size, r.geometry.block_size as int);
            let at = r.sector_position(index);
            let entry = r.entry_position(index);
            let w = allocated(v, index);
            &&& w.disk.len() == r.grown().dev_size
            &&& w.reader == r.grown().journalled().with_block(index, block)
            &&& forall|k: int|
                r.bat_region_off <= k < r.bat_region_off + 8 * r.bat.len() ==> #[trigger] w.disk[k]
                    == if entry <= k < entry + 8 {
                    le64_bytes(present_entry(block))[k - entry]
                } else {
                    v.disk[k]
                }
        }),
{
    let r = v.reader;
    let h = r.header;
    let bs = r.geometry.block_size as int;
    let block = tail_block(r.dev_size, bs);
    let a = appended(v);
    let at = r.sector_position(index);
    let entry = r.entry_position(index);
    let sector = published_sector(a.reader, a.disk.subrange(at, at + 4096), index, block);
    let j = journalled(a, index, sector);
    let w = allocated(v, index);
    if h.log_length > 0 {
        lemma_log_apart(v, p);
    }
    lemma_allocated_frame(v, index);
    lemma_sector_before_tail(r, index);
    assert(a.reader.sector_position(index) == at);
    assert(w.disk == written(j.disk, at, sector));
    assert(at <= entry && entry + 8 <= at + 4096);
    assert forall|k: int|
        r.bat_region_off <= k < r.bat_region_off + 8 * r.bat.len() implies #[trigger] w.disk[k]
        == if entry <= k < entry + 8 {
        le64_bytes(present_entry(block))[k - entry]
    } else {
        v.disk[k]
    } by {
        if at <= k < at + 4096 {
            assert(w.disk[k] == sector[k - at]);
            assert(a.disk[k] == v.disk[k]);
        }
    }
}

/// What an allocation leaves alone: the file identifier, the region tables, the header in use and
/// the metadata region.
proof fn lemma_allocated_leaves(v: Volume, p: Placement, index: int)
    requires
        kept(v, p),
        structures_apart(v.reader, p),
        0 <= index < v.reader.bat.len(),
        entry_in_one_sector(v.reader, index),
        v.reader.grown().dev_size <= u64::MAX,
    ensures
        ({
            let r = v.reader;
            let m = p.metadata;
            let disk = allocated(v, index).disk;
            &&& disk.len() >= 0x10_0000
            &&& disk.subrange(0, 8) == v.disk.subrange(0, 8)
            &&& region_table_on(disk) == region_table_on(v.disk)
            &&& slot_header(disk, r.active_slot) == Some(r.header)
            &&& disk.subrange(m.file_offset, m.file_offset + m.length) == v.disk.subrange(
                m.file_offset,
                m.file_offset + m.length,
            )
            &&& !has_room_to_journal(r.header) ==> slot_header(disk, r.active_slot.opposite())
                == slot_header(v.disk, r.active_slot.opposite())
        }),
{
    let r = v.reader;
    let m = p.metadata;
    let disk = allocated(v, index).disk;
    if r.header.log_length > 0 {
        lemma_log_apart(v, p);
    }
    lemma_allocated_frame(v, index);
    lemma_sector_before_tail(r, index);
    lemma_tail_block(r.dev_size, r.geometry.block_size as int);
    assert(r.sector_position(index) >= 0x10_0000);
    lemma_front_agrees(disk, v.disk);
    lemma_slot_agrees(disk, v.disk, r.active_slot);
    if !has_room_to_journal(r.header) {
        lemma_slot_agrees(disk, v.disk, r.active_slot.opposite());
    }
    assert(apart(m.file_offset, m.length, r.sector_position(index), 4096));
    lemma_agree(disk, v.disk, m.file_offset, m.length);
}

/// What an allocation leaves in the log: the entry that announces the BAT sector, which is in
/// place, and the header that announces the entry.
proof fn lemma_allocated_log(v: Volume, p: Placement, index: int)
    requires
        kept(v, p),
        structures_apart(v.reader, p),
        0 <= index < v.reader.bat.len(),
        entry_in_one_sector(v.reader, index),
        v.reader.grown().dev_size <= u64::MAX,
        v.reader.header.log_length > 0,
    ensures
        ({
            let r = v.reader;
            let h = r.header;
            let at = r.sector_position(index);
            let w = allocated(v, index);
            &&& has_room_to_journal(h)
            &&& slot_header(w.disk, r.active_slot.opposite()) == Some(next_header(h))
            &&& w.disk.subrange(h.log_offset, h.log_offset + h.log_length) == splice(
                zeros(h.log_length as nat),
                0,
                entry_bytes(
                    journal_fields(r.grown()),
                    seq![WriteView { file_offset: at, sector: w.disk.subrange(at, at + 4096) }],
                ),
            )
        }),
{
    let r = v.reader;
    let h = r.header;
    let bs = r.geometry.block_size as int;
    let block = tail_block(r.dev_size, bs);
    let a = appended(v);
    let at = r.sector_position(index);
    let sector = published_sector(a.reader, a.disk.subrange(at, at + 4096), index, block);
    let j = journalled(a, index, sector);
    let w = allocated(v, index);
    lemma_log_apart(v, p);
    lemma_tail_block(r.dev_size, bs);
    lemma_sector_before_tail(r, index);
    lemma_journal_frame(a.reader, a.disk, at, sector);
    lemma_journal_exact(a.reader, a.disk, at, sector);
    assert(w.disk == written(j.disk, at, sector));
    lemma_write_frame(j.disk, at, sector);
    assert(w.disk.subrange(at, at + 4096) =~= sector);
    lemma_slot_agrees(w.disk, j.disk, r.active_slot.opposite());
    lemma_agree(w.disk, j.disk, h.log_offset, h.log_length);
}

/// The header slots of a volume whose header announces a BAT sector that is in place.
proof fn lemma_slots_agree_with_bat_sector(
    v: Volume,
    earlier: HeaderView,
    index: int,
    fields: EntryFields,
)
    requires
        slot_header(v.disk, v.reader.active_slot) == Some(v.reader.header),
        slot_header(v.disk, v.reader.active_slot.opposite()) == Some(earlier),
        earlier.sequence_number < v.reader.header.sequence_number,
        log_holds_bat_sector(v, index, fields),
    ensures
        slots_agree(v),
{
    let slot = v.reader.active_slot;
    assert(slot.opposite().opposite() == slot);
    lemma_later_header_is_active(v.disk, slot.opposite(), earlier, v.reader.header);
    assert(nothing_pending(v));
}

/// Whether a device holds what an allocation leaves of the image `p`, apart from the BAT sector
/// itself: the log and the new header announce the sector.
#[verifier::opaque]
spec fn announces(r: ReaderView, p: Placement, index: int, disk: Seq<u8>, sector: Seq<u8>) -> bool {
    let h = r.header;
    let at = r.sector_position(index);
    &&& disk.len() == r.grown().dev_size
    &&& disk.subrange(0, 8) == FILE_IDENTIFIER_SIGNATURE@
    &&& region_table_on(disk) == Some(p.regions)
    &&& slot_header(disk, r.active_slot) == Some(h)
    &&& slot_header(disk, r.active_slot.opposite()) == Some(next_header(h))
    &&& disk.subrange(h.log_offset, h.log_offset + h.log_length) == splice(
        zeros(h.log_length as nat),
        0,
        entry_bytes(journal_fields(r.grown()), seq![WriteView { file_offset: at, sector }]),
    )
}

/// An allocation leaves the announcement of the BAT sector on the device.
proof fn lemma_allocated_announces(v: Volume, p: Placement, index: int)
    requires
        kept(v, p),
        structures_apart(v.reader, p),
        v.reader.header.log_length > 0,
        0 <= index < v.reader.bat.len(),
        entry_in_one_sector(v.reader, index),
        v.reader.grown().dev_size <= u64::MAX,
    ensures
        announces(
            v.reader,
            p,
            index,
            allocated(v, index).disk,
            allocated(v, index).disk.subrange(
                v.reader.sector_position(index),
                v.reader.sector_position(index) + 4096,
            ),
        ),
{
    reveal(announces);
    lemma_allocated_bytes(v, p, index);
    lemma_allocated_leaves(v, p, index);
    lemma_allocated_log(v, p, index);
}

/// The header slots of a volume on which a BAT sector was announced and put in place.
proof fn lemma_announced_slots_agree(r: ReaderView, w: Volume, p: Placement, index: int, block: int)
    requires
        r.wf(),
        has_room_to_journal(r.header),
        r.header.sequence_number < u64::MAX,
        r.grown().dev_size <= u64::MAX,
        0 <= index < r.bat.len(),
        0 <= r.sector_position(index),
        r.sector_position(index) + 4096 <= w.disk.len(),
        w.reader == r.grown().journalled().with_block(index, block),
        announces(
            r,
            p,
            index,
            w.disk,
            w.disk.subrange(r.sector_position(index), r.sector_position(index) + 4096),
        ),
    ensures
        slots_agree(w),
{
    reveal(announces);
    lemma_next_header_fits(r.header);
    assert(r.active_slot.opposite().opposite() == r.active_slot);
    assert(w.reader.sector_position(index) == r.sector_position(index));
    lemma_slots_agree_with_bat_sector(w, r.header, index, journal_fields(r.grown()));
}

/// The header slots still say what the reader knows after an allocation that went through the
/// log.
proof fn lemma_allocated_slots_with_log(v: Volume, p: Placement, index: int)
    requires
        kept(v, p),
        structures_apart(v.reader, p),
        0 <= index < v.reader.bat.len(),
        entry_in_one_sector(v.reader, index),
        v.reader.grown().dev_size <= u64::MAX,
        v.reader.header.log_length > 0,
        v.reader.header.sequence_number < u64::MAX,
    ensures
        allocated(v, index).reader.header == next_header(v.reader.header),
        slots_agree(allocated(v, index)),
{
    let r = v.reader;
    let bs = r.geometry.block_size as int;
    lemma_log_apart(v, p);
    lemma_tail_block(r.dev_size, bs);
    lemma_sector_before_tail(r, index);
    lemma_allocated_bytes(v, p, index);
    lemma_allocated_announces(v, p, index);
    lemma_announced_slots_agree(r, allocated(v, index), p, index, tail_block(r.dev_size, bs));
}

/// The header slots still say what the reader knows after an allocation in an image without a
/// log.
proof fn lemma_allocated_slots_without_log(v: Volume, p: Placement, index: int)
    requires
        kept(v, p),
        structures_apart(v.reader, p),
        0 <= index < v.reader.bat.len(),
        entry_in_one_sector(v.reader, index),
        v.reader.grown().dev_size <= u64::MAX,
        v.reader.header.log_length <= 0,
    ensures
        allocated(v, index).reader.header == v.reader.header,
        slots_agree(allocated(v, index)),
{
    let r = v.reader;
    let w = allocated(v, index);
    assert(!has_room_to_journal(r.header));
    lemma_allocated_leaves(v, p, index);
    lemma_slots_are_two(v.disk, w.disk, r.active_slot);
}

/// Allocating a block keeps an image.
proof fn lemma_allocated_is_kept(v: Volume, p: Placement, index: int)
    requires
        kept(v, p),
        structures_apart(v.reader, p),
        0 <= index < v.reader.bat.len(),
        entry_in_one_sector(v.reader, index),
        v.reader.grown().dev_size <= u64::MAX,
        has_room_to_journal(v.reader.header) ==> v.reader.header.sequence_number < u64::MAX,
    ensures
        kept(allocated(v, index), p),
{
    let r = v.reader;
    let h = r.header;
    let w = allocated(v, index);
    assert(slots_agree(w) && layout_fault(w.reader.header, p.regions) is None
        && log_region_fault(w.reader.header, w.reader.dev_size) is None
        && w.reader.header.version == 1 && w.reader.header.log_version == 0
        && w.reader.header.fits()) by {
        lemma_tail_block(r.dev_size, r.geometry.block_size as int);
        lemma_next_header_fits(h);
        if h.log_length > 0 {
            lemma_log_apart(v, p);
            assert(has_room_to_journal(h));
            lemma_allocated_slots_with_log(v, p, index);
            lemma_layout_follows_the_log_region(h, next_header(h), p.regions);
        } else {
            lemma_allocated_slots_without_log(v, p, index);
        }
    }
    lemma_tail_block(r.dev_size, r.geometry.block_size as int);
    lemma_sector_before_tail(r, index);
    lemma_allocated_bytes(v, p, index);
    lemma_allocated_bat(v, p, index);
    lemma_allocated_leaves(v, p, index);
}

/// Two devices that agree on a slot and the other one agree on both slots.
proof fn lemma_slots_are_two(a: Seq<u8>, b: Seq<u8>, slot: HeaderSlot)
    requires
        slot_header(a, slot) == slot_header(b, slot),
        slot_header(a, slot.opposite()) == slot_header(b, slot.opposite()),
    ensures
        slot_header(a, HeaderSlot::One) == slot_header(b, HeaderSlot::One),
        slot_header(a, HeaderSlot::Two) == slot_header(b, HeaderSlot::Two),
{
    match slot {
        HeaderSlot::One => {},
        HeaderSlot::Two => {},
    }
}

/// A block at the tail of the device lies apart from the structures.
proof fn lemma_structures_stay_apart(v: Volume, p: Placement, cursor: int)
    requires
        kept(v, p),
        structures_apart(v.reader, p),
        0 <= cursor < v.reader.geometry.virtual_size,
        v.reader.grown().dev_size <= u64::MAX,
    ensures
        ({
            let r = v.reader;
            let bs = r.geometry.block_size as int;
            let index = bat_index(cursor / bs, r.geometry.chunk_ratio());
            structures_apart(
                r.grown().journalled().with_block(index, tail_block(r.dev_size, bs)),
                p,
            )
        }),
{
    let r = v.reader;
    let bs = r.geometry.block_size as int;
    let b = cursor / bs;
    let cr = r.geometry.chunk_ratio();
    let index = bat_index(b, cr);
    let block = tail_block(r.dev_size, bs);
    let s = r.grown().journalled().with_block(index, block);
    lemma_tail_block(r.dev_size, bs);
    lemma_index_in_bat(r, cursor);
    lemma_block_of(r, cursor);
    lemma_sector_before_tail(r, index);
    present_entry_decodes_back(block as u64);
    assert forall|i: int| 0 <= i < s.bat.len() implies apart(
        p.metadata.file_offset,
        p.metadata.length,
        #[trigger] s.sector_position(i),
        4096,
    ) by {
        assert(s.sector_position(i) == r.sector_position(i));
    }
    assert forall|c: int| #[trigger] s.has_block(c) implies apart(
        s.host_of(c),
        bs,
        p.metadata.file_offset,
        p.metadata.length,
    ) && apart(s.host_of(c), bs, s.bat_region_off, 8 * s.bat.len() as int) by {
        if c == b {
            assert(s.host_of(c) == block);
        } else {
            lemma_other_index(r, b, c);
            lemma_block_in_bat(r, c);
            assert(r.has_block(c));
        }
    }
}

/// What a write keeps at every step.
#[verifier::opaque]
spec fn intact(v: Volume, p: Placement) -> bool {
    &&& kept(v, p)
    &&& structures_apart(v.reader, p)
    &&& blocks_clear(v)
}

/// Writing payload bytes leaves an image intact.
proof fn lemma_paid_is_intact(v: Volume, p: Placement, offset: int, data: Seq<u8>, cursor: int)
    requires
        intact(v, p),
        0 <= offset <= cursor < offset + data.len() <= v.reader.geometry.virtual_size,
        v.reader.entry_at(cursor).state is FullyPresent,
        piece_end(
            v.reader,
            cursor,
            piece_length(v.reader.geometry.block_size as int, cursor, offset + data.len()),
        ) <= u64::MAX,
    ensures
        intact(paid(v, offset, data, cursor, v.reader.entry_at(cursor).file_offset as int), p),
{
    reveal(intact);
    lemma_paid_clear(v, offset, data, cursor);
    lemma_paid_is_kept(v, p, offset, data, cursor);
}

/// Allocating a block leaves an image intact.
proof fn lemma_allocated_is_intact(v: Volume, p: Placement, cursor: int)
    requires
        intact(v, p),
        0 <= cursor < v.reader.geometry.virtual_size,
        v.reader.entry_at(cursor).state.reads_as_zero(),
        entry_in_one_sector(
            v.reader,
            bat_index(
                cursor / v.reader.geometry.block_size as int,
                v.reader.geometry.chunk_ratio(),
            ),
        ),
        v.reader.grown().dev_size <= u64::MAX,
        has_room_to_journal(v.reader.header) ==> v.reader.header.sequence_number < u64::MAX,
    ensures
        ({
            let r = v.reader;
            let bs = r.geometry.block_size as int;
            let index = bat_index(cursor / bs, r.geometry.chunk_ratio());
            let block = tail_block(r.dev_size, bs);
            let w = allocated(v, index);
            &&& intact(w, p)
            &&& w.reader == r.grown().journalled().with_block(index, block)
            &&& w.reader.entry_at(cursor).state is FullyPresent
            &&& w.reader.entry_at(cursor).file_offset == block
        }),
{
    reveal(intact);
    let r = v.reader;
    let index = bat_index(cursor / r.geometry.block_size as int, r.geometry.chunk_ratio());
    lemma_index_in_bat(r, cursor);
    lemma_allocated_clear(v, cursor);
    lemma_allocated_is_kept(v, p, index);
    lemma_structures_stay_apart(v, p, cursor);
}

/// Writing the payload bytes of one piece to the block that `w` has just allocated for it leaves
/// an image intact, and leaves room for the rest of the write.
proof fn lemma_new_block_is_intact(
    r: ReaderView,
    w: Volume,
    p: Placement,
    offset: int,
    data: Seq<u8>,
    cursor: int,
)
    requires
        r.wf(),
        intact(w, p),
        0 <= offset <= cursor < offset + data.len() <= r.geometry.virtual_size,
        r.entry_at(cursor).state.reads_as_zero(),
        has_room_from(r, r.dev_size, cursor, offset + data.len()),
        w.reader == r.grown().journalled().with_block(
            bat_index(cursor / r.geometry.block_size as int, r.geometry.chunk_ratio()),
            tail_block(r.dev_size, r.geometry.block_size as int),
        ),
        w.reader.entry_at(cursor).state is FullyPresent,
        w.reader.entry_at(cursor).file_offset == tail_block(
            r.dev_size,
            r.geometry.block_size as int,
        ),
    ensures
        ({
            let bs = r.geometry.block_size as int;
            let end = offset + data.len();
            let next = cursor + piece_length(bs, cursor, end);
            let after = paid(w, offset, data, cursor, tail_block(r.dev_size, bs));
            &&& intact(after, p)
            &&& after.reader == w.reader
            &&& w.reader.geometry == r.geometry
            &&& has_room_from(w.reader, w.reader.dev_size, next, end)
            &&& allocations_from(w.reader, next, end) == allocations_from(r, next, end)
        }),
{
    let bs = r.geometry.block_size as int;
    lemma_rest_after_allocating(r, cursor, offset + data.len());
    lemma_next_piece(bs, cursor, offset + data.len());
    lemma_tail_block(r.dev_size, bs);
    lemma_paid_is_intact(w, p, offset, data, cursor);
}

/// Each allocation takes one sequence number, if there is a log.
proof fn lemma_sequence_after_allocating(r: ReaderView, index: int, block: int)
    requires
        has_room_to_journal(r.header) ==> r.header.sequence_number < u64::MAX,
        0 <= r.header.sequence_number,
    ensures
        ({
            let s = r.grown().journalled().with_block(index, block);
            has_room_to_journal(s.header) ==> has_room_to_journal(r.header)
                && s.header.sequence_number == r.header.sequence_number + 1
        }),
{
}

/// Writing from `cursor` on leaves an image intact.
proof fn lemma_wrote_from_is_intact(
    v: Volume,
    p: Placement,
    offset: int,
    data: Seq<u8>,
    cursor: int,
)
    requires
        intact(v, p),
        v.reader.wf(),
        0 <= offset <= cursor <= offset + data.len() <= v.reader.geometry.virtual_size,
        has_room_from(v.reader, v.reader.dev_size, cursor, offset + data.len()),
        has_room_to_journal(v.reader.header) ==> v.reader.header.sequence_number
            + allocations_from(v.reader, cursor, offset + data.len()) <= u64::MAX,
    ensures
        intact(wrote_from(v, offset, data, cursor).volume, p),
    decreases offset + data.len() - cursor,
{
    reveal_with_fuel(wrote_from, 1);
    reveal_with_fuel(allocations_from, 1);
    let r = v.reader;
    let bs = r.geometry.block_size as int;
    let end = offset + data.len();
    let n = piece_length(bs, cursor, end);
    let index = bat_index(cursor / bs, r.geometry.chunk_ratio());
    let state = r.bat[index].state;
    if cursor < end {
        lemma_next_piece(bs, cursor, end);
        lemma_index_in_bat(r, cursor);
        if state.reads_as_zero() {
            let w = allocated(v, index);
            let block = tail_block(r.dev_size, bs);
            lemma_rest_after_allocating(r, cursor, end);
            lemma_allocated_is_intact(v, p, cursor);
            lemma_new_block_is_intact(r, w, p, offset, data, cursor);
            lemma_sequence_after_allocating(r, index, block);
            let after = paid(w, offset, data, cursor, block);
            assert(after.reader.wf()) by {
                reveal(intact);
            }
            lemma_wrote_from_is_intact(after, p, offset, data, cursor + n);
        } else if state is FullyPresent {
            let after = paid(v, offset, data, cursor, r.bat[index].file_offset as int);
            lemma_rest_after_paying(r, cursor, end);
            assert(after.reader == r.reaching(piece_end(r, cursor, n)));
            lemma_paid_is_intact(v, p, offset, data, cursor);
            lemma_wrote_from_is_intact(after, p, offset, data, cursor + n);
        }
    }
}

/// Writing keeps an image, whether the write succeeds or not: afterwards the structures on the
/// device still say what the reader knows, the new blocks included. The sequence numbers of the
/// headers must not run out on the way.
pub proof fn write_keeps_the_image(v: Volume, p: Placement, offset: int, data: Seq<u8>)
    requires
        kept(v, p),
        structures_apart(v.reader, p),
        blocks_clear(v),
        v.reader.writable,
        0 <= offset,
        offset + data.len() <= v.reader.geometry.virtual_size,
        has_room(v.reader, offset, data.len() as int),
        has_room_to_journal(v.reader.header) ==> v.reader.header.sequence_number
            + allocations_from(v.reader, offset, offset + data.len()) <= u64::MAX,
    ensures
        kept(wrote(v, offset, data).volume, p),
        structures_apart(wrote(v, offset, data).volume.reader, p),
        blocks_clear(wrote(v, offset, data).volume),
{
    reveal(intact);
    lemma_wrote_from_is_intact(v, p, offset, data, offset);
}

/// Two readers that know the same blocks on devices of one size refuse the same reads.
proof fn lemma_same_blocks_read_alike(a: ReaderView, b: ReaderView, from: int, to: int)
    requires
        a.wf(),
        b.wf(),
        a.geometry == b.geometry,
        a.bat == b.bat,
        a.dev_size == b.dev_size,
        0 <= from <= to <= a.geometry.virtual_size,
    ensures
        a.refusal_from(from, to) is None <==> b.refusal_from(from, to) is None,
{
    lemma_readable_range(a, from, to);
    lemma_readable_range(b, from, to);
    assert forall|at: int| from <= at < to implies (#[trigger] a.readable(at)) == b.readable(
        at,
    ) by {
        assert(a.entry_at(at) == b.entry_at(at));
    }
    assert forall|at: int| from <= at < to implies (#[trigger] b.readable(at)) == a.readable(
        at,
    ) by {
        assert(a.entry_at(at) == b.entry_at(at));
    }
}

/// What a write leaves is what is there after reopening: a read of the range on the reopened image
/// is not refused and gives the bytes that were written. Where what the write claimed for new
/// blocks was free of all blocks, the contents of the virtual disk take the bytes written and
/// change nowhere else.
pub proof fn written_data_survives_reopening(
    v: Volume,
    p: Placement,
    offset: int,
    data: Seq<u8>,
    buf: Seq<u8>,
    mode: OpenMode,
)
    requires
        kept(v, p),
        structures_apart(v.reader, p),
        blocks_apart(v),
        v.reader.writable,
        0 <= offset,
        offset + data.len() <= v.reader.geometry.virtual_size,
        has_room(v.reader, offset, data.len() as int),
        claims_are_free(
            v.reader.seen_in(offset, offset + data.len()),
            offset,
            data.len() as int,
        ),
        has_room_to_journal(v.reader.header) ==> v.reader.header.sequence_number
            + allocations_from(v.reader, offset, offset + data.len()) <= u64::MAX,
        wrote(v, offset, data).failure is None,
        buf.len() == data.len(),
        data.len() <= usize::MAX,
        mode.replay_capable,
    ensures
        ({
            let o = opened(wrote(v, offset, data).volume.disk, mode);
            let s = o.result->Ok_0;
            let end = offset + data.len();
            &&& o.result is Ok
            &&& s.geometry == v.reader.geometry
            &&& s.refusal_from(offset, end) is None
            &&& filled(buf, s.pieces_from(offset, offset, end), o.disk) == data
            &&& claims_are_free(v.reader, offset, data.len() as int) ==> contents(
                Volume { reader: s, disk: o.disk },
            ) == splice(contents(v), offset, data)
        }),
{
    let w = wrote(v, offset, data).volume;
    let end = offset + data.len();
    let o = opened(w.disk, mode);
    let again = Volume { reader: o.result->Ok_0, disk: o.disk };
    write_changes_exactly_its_range(v, offset, data);
    read_gives_back_what_was_written(v, offset, data, buf);
    write_keeps_the_image(v, p, offset, data);
    reopening_gives_the_same_contents(w, p, mode);
    lemma_same_blocks_read_alike(w.reader, again.reader, offset, end);
    read_gives_the_contents(w, buf, offset);
    read_gives_the_contents(again, buf, offset);
    if claims_are_free(v.reader, offset, data.len() as int) {
        write_leaves_the_blocks_apart(v, offset, data);
        assert(data.take(data.len() as int) =~= data);
    }
}

/// What a write leaves of every other read is what is left after reopening: a read that goes
/// through before the write goes through on the reopened image, and gives what it gave, but for
/// the bytes that the write took.
pub proof fn other_reads_survive_reopening(
    v: Volume,
    p: Placement,
    offset: int,
    data: Seq<u8>,
    at: int,
    buf: Seq<u8>,
    mode: OpenMode,
)
    requires
        kept(v, p),
        structures_apart(v.reader, p),
        blocks_apart(v),
        v.reader.writable,
        0 <= offset,
        offset + data.len() <= v.reader.geometry.virtual_size,
        has_room(v.reader, offset, data.len() as int),
        claims_are_free(
            v.reader.seen_in(offset, offset + data.len()),
            offset,
            data.len() as int,
        ),
        has_room_to_journal(v.reader.header) ==> v.reader.header.sequence_number
            + allocations_from(v.reader, offset, offset + data.len()) <= u64::MAX,
        0 <= at,
        at + buf.len() <= v.reader.geometry.virtual_size,
        buf.len() <= usize::MAX,
        v.reader.refusal_from(at, at + buf.len()) is None,
        mode.replay_capable,
    ensures
        ({
            let r = v.reader;
            let o = opened(wrote(v, offset, data).volume.disk, mode);
            let s = o.result->Ok_0;
            let end = at + buf.len();
            let taken = accepted_until(r, offset, offset + data.len());
            let before = filled(buf, r.pieces_from(at, at, end), v.disk);
            let after = filled(buf, s.pieces_from(at, at, end), o.disk);
            &&& o.result is Ok
            &&& s.geometry == r.geometry
            &&& s.refusal_from(at, end) is None
            &&& before.len() == buf.len()
            &&& after.len() == buf.len()
            &&& forall|i: int|
                0 <= i < buf.len() ==> #[trigger] after[i] == if offset <= at + i < taken {
                    data[at + i - offset]
                } else {
                    before[i]
                }
        }),
{
    let w = wrote(v, offset, data).volume;
    let end = at + buf.len();
    let o = opened(w.disk, mode);
    let again = Volume { reader: o.result->Ok_0, disk: o.disk };
    write_changes_exactly_its_range(v, offset, data);
    write_leaves_other_reads_alone(v, offset, data, at, buf);
    write_keeps_the_image(v, p, offset, data);
    reopening_gives_the_same_contents(w, p, mode);
    lemma_same_blocks_read_alike(w.reader, again.reader, at, end);
    read_gives_the_contents(w, buf, at);
    read_gives_the_contents(again, buf, at);
}

} // verus!

//! Which images open, and as what: an image whose structures are sound is never refused, and what
//! is refused lacks one of them.
use crate::bytes::zeros;
use crate::device::{after_ops, op_views, DeviceOp, OpView};
use crate::error::Error;
use crate::header::{active_header, header_bytes, header_meaning, HeaderSlot, HeaderView};
use crate::layout::{bat_entries, bat_length_fault, geometry_meaning, layout_fault};
use crate::layout::{log_overlap_fault, log_region_fault, log_version_fault, Geometry};
use crate::log::chain::replay_chain;
use crate::log::replay::{allowed_extent, chain_ops, chain_within, replayed};
use crate::open::{clearing_ops, is_dirty, lemma_steps_are_counted, log_cleared, opened};
use crate::open::{opened_dirty, opened_with_log_settled, opened_with_regions, refused};
use crate::open::{region_table_on, slot_header, start, table_at, OpenApply, OpenMode, OpenOutcome};
use crate::open::{OpenRead, OpenStep, FILE_IDENTIFIER_SIGNATURE};
use crate::reader::{ReaderView, VhdxReader};
use crate::region_table::{guids, region_named, region_table_meaning, RegionView};
use vstd::prelude::*;

verus! {

/// Whether a device starts with the eight bytes "vhdxfile".
pub open spec fn has_identifier(disk: Seq<u8>) -> bool {
    disk.subrange(0, 8) == seq![0x76u8, 0x68u8, 0x64u8, 0x78u8, 0x66u8, 0x69u8, 0x6Cu8, 0x65u8]
}

/// Where a header slot lies: at 64 KiB or at 128 KiB.
pub open spec fn slot_start(slot: HeaderSlot) -> int {
    match slot {
        HeaderSlot::One => 0x1_0000,
        HeaderSlot::Two => 0x2_0000,
    }
}

/// The slot that is not this one.
pub open spec fn other_slot(slot: HeaderSlot) -> HeaderSlot {
    match slot {
        HeaderSlot::One => HeaderSlot::Two,
        HeaderSlot::Two => HeaderSlot::One,
    }
}

/// Whether a slot of the device holds this header.
pub open spec fn holds_header(disk: Seq<u8>, slot: HeaderSlot, h: HeaderView) -> bool {
    &&& slot_start(slot) + 4096 <= disk.len()
    &&& header_meaning(disk.subrange(slot_start(slot), slot_start(slot) + 4096)) == Ok::<
        HeaderView,
        Error,
    >(h)
}

/// Whether the header in this slot is the one in use: the other slot holds none that is later.
pub open spec fn is_in_use(disk: Seq<u8>, slot: HeaderSlot, h: HeaderView) -> bool {
    &&& holds_header(disk, slot, h)
    &&& forall|o: HeaderView| #[trigger]
        holds_header(disk, other_slot(slot), o) ==> o.sequence_number < h.sequence_number || (slot
            == HeaderSlot::One && o.sequence_number == h.sequence_number)
}

/// Whether a copy of the region table at `at` holds these regions.
pub open spec fn holds_regions(disk: Seq<u8>, at: int, regions: Seq<RegionView>) -> bool {
    &&& at + 0x1_0000 <= disk.len()
    &&& region_table_meaning(disk.subrange(at, at + 0x1_0000)) == Ok::<Seq<RegionView>, Error>(
        regions,
    )
}

/// Whether these are the regions of an image: the copy of the table at 192 KiB holds them, or that
/// at 256 KiB does and the other is not valid.
pub open spec fn has_regions(disk: Seq<u8>, regions: Seq<RegionView>) -> bool {
    ||| holds_regions(disk, 0x3_0000, regions)
    ||| holds_regions(disk, 0x4_0000, regions) && forall|t: Seq<RegionView>|
        !#[trigger] holds_regions(disk, 0x3_0000, t)
}

/// Whether a header declares a log that has something to be replayed: its GUID is not zero, and it
/// has a place and a length.
pub open spec fn declares_log(h: HeaderView) -> bool {
    &&& exists|i: int| 0 <= i < h.log_guid.len() && h.log_guid[i] != 0
    &&& h.log_length > 0
    &&& h.log_offset > 0
}

/// Whether the regions of an image hold this geometry, and this BAT at this place: the metadata and
/// the BAT region are there and inside the device, and the BAT reaches every block.
pub open spec fn holds_disk(
    disk: Seq<u8>,
    regions: Seq<RegionView>,
    geometry: Geometry,
    bat: RegionView,
) -> bool {
    &&& region_named(regions, guids::METADATA@) matches Some(m) && {
        &&& m.file_offset + m.length <= disk.len()
        &&& geometry_meaning(disk.subrange(m.file_offset, m.file_offset + m.length)) == Ok::<
            Geometry,
            Error,
        >(geometry)
    }
    &&& region_named(regions, guids::BAT@) == Some(bat)
    &&& bat.file_offset + bat.length <= disk.len()
    &&& bat_length_fault(bat.length, geometry) is None
}

/// The image that is open on a device.
pub open spec fn image_of(
    disk: Seq<u8>,
    h: HeaderView,
    slot: HeaderSlot,
    geometry: Geometry,
    bat: RegionView,
    writable: bool,
) -> ReaderView {
    ReaderView {
        dev_size: disk.len() as int,
        header: h,
        active_slot: slot,
        geometry,
        bat_region_off: bat.file_offset,
        bat: bat_entries(disk.subrange(bat.file_offset, bat.file_offset + bat.length)),
        writable,
    }
}

/// The identifier is the signature.
proof fn lemma_identifier(disk: Seq<u8>)
    ensures
        has_identifier(disk) <==> disk.subrange(0, 8) == FILE_IDENTIFIER_SIGNATURE@,
{
    assert(FILE_IDENTIFIER_SIGNATURE@ =~= seq![
        0x76u8,
        0x68u8,
        0x64u8,
        0x78u8,
        0x66u8,
        0x69u8,
        0x6Cu8,
        0x65u8,
    ]);
}

/// The header in use, by what the slots hold.
proof fn lemma_in_use(disk: Seq<u8>, slot: HeaderSlot, h: HeaderView)
    requires
        is_in_use(disk, slot, h),
    ensures
        active_header(
            slot_header(disk, HeaderSlot::One),
            slot_header(disk, HeaderSlot::Two),
        ) == Some((h, slot)),
{
    reveal(slot_header);
    match slot_header(disk, other_slot(slot)) {
        Some(o) => {
            assert(holds_header(disk, other_slot(slot), o));
        },
        None => {},
    }
}

/// What the slots hold, by the header in use.
proof fn lemma_picked(disk: Seq<u8>)
    ensures
        match active_header(
            slot_header(disk, HeaderSlot::One),
            slot_header(disk, HeaderSlot::Two),
        ) {
            Some((h, slot)) => is_in_use(disk, slot, h),
            None => forall|slot: HeaderSlot, h: HeaderView|
                !#[trigger] holds_header(disk, slot, h),
        },
{
    reveal(slot_header);
    assert forall|slot: HeaderSlot, h: HeaderView| #[trigger]
        holds_header(disk, slot, h) implies slot_header(disk, slot) == Some(h) by {}
}

/// The regions of an image, by what the copies of the table hold.
proof fn lemma_regions(disk: Seq<u8>, regions: Seq<RegionView>)
    ensures
        has_regions(disk, regions) <==> region_table_on(disk) == Some(regions),
{
    reveal(region_table_on);
    match table_at(disk, 0x3_0000) {
        Some(t) => {
            assert(holds_regions(disk, 0x3_0000, t));
        },
        None => {},
    }
}

/// Whether a log is declared is told by its GUID, its place and its length.
proof fn lemma_declares_log(h: HeaderView)
    ensures
        declares_log(h) <==> is_dirty(h),
{
}

/// A sound image whose log is empty opens, on any device and for any purpose, and the device is
/// left alone: what is open is what its structures say.
pub proof fn a_sound_image_opens(
    disk: Seq<u8>,
    mode: OpenMode,
    h: HeaderView,
    slot: HeaderSlot,
    regions: Seq<RegionView>,
    geometry: Geometry,
    bat: RegionView,
)
    requires
        has_identifier(disk),
        is_in_use(disk, slot, h),
        !declares_log(h),
        log_version_fault(h) is None,
        log_region_fault(h, disk.len() as int) is None,
        has_regions(disk, regions),
        layout_fault(h, regions) is None,
        holds_disk(disk, regions, geometry, bat),
    ensures
        opened(disk, mode) == (OpenOutcome {
            ops: Seq::empty(),
            disk,
            result: Ok(image_of(disk, h, slot, geometry, bat, mode.writable)),
        }),
{
    lemma_identifier(disk);
    lemma_in_use(disk, slot, h);
    lemma_regions(disk, regions);
    lemma_declares_log(h);
}

/// An image that opens without a replay is a sound one: each of its structures is there, and what
/// is open is what they say. Its log is empty, or holds nothing of its chain.
pub proof fn an_image_that_opens_is_sound(disk: Seq<u8>, mode: OpenMode, r: ReaderView)
    requires
        opened(disk, mode).result == Ok::<ReaderView, Error>(r),
        opened(disk, mode).ops.len() == 0,
    ensures
        has_identifier(disk),
        is_in_use(disk, r.active_slot, r.header),
        log_version_fault(r.header) is None,
        log_region_fault(r.header, disk.len() as int) is None,
        declares_log(r.header) ==> mode.replay_capable && replay_chain(
            disk.subrange(
                r.header.log_offset,
                r.header.log_offset + r.header.log_length,
            ),
            r.header.log_guid,
        ).len() == 0,
        exists|regions: Seq<RegionView>, bat: RegionView|
            {
                &&& has_regions(disk, regions)
                &&& layout_fault(r.header, regions) is None
                &&& #[trigger] holds_disk(disk, regions, r.geometry, bat)
                &&& r == image_of(disk, r.header, r.active_slot, r.geometry, bat, mode.writable)
            },
{
    lemma_identifier(disk);
    lemma_picked(disk);
    lemma_declares_log(r.header);
    let regions = region_table_on(disk)->Some_0;
    let (h, slot) = active_header(
        slot_header(disk, HeaderSlot::One),
        slot_header(disk, HeaderSlot::Two),
    )->Some_0;
    let chain = replay_chain(
        disk.subrange(h.log_offset, h.log_offset + h.log_length),
        h.log_guid,
    );
    assert(chain.len() == 0 || !is_dirty(h)) by {
        if chain.len() > 0 && is_dirty(h) {
            lemma_a_replay_clears_the_log(disk, mode, h, slot);
        }
    }
    lemma_regions(disk, regions);
    let bat = region_named(regions, guids::BAT@)->Some_0;
    assert(holds_disk(disk, regions, r.geometry, bat));
}

/// An image that opens once its log was replayed had its log cleared.
proof fn lemma_a_replay_clears_the_log(
    disk: Seq<u8>,
    mode: OpenMode,
    h: HeaderView,
    slot: HeaderSlot,
)
    requires
        opened(disk, mode).result is Ok,
        active_header(
            slot_header(disk, HeaderSlot::One),
            slot_header(disk, HeaderSlot::Two),
        ) == Some((h, slot)),
        is_dirty(h),
        replay_chain(
            disk.subrange(h.log_offset, h.log_offset + h.log_length),
            h.log_guid,
        ).len() > 0,
    ensures
        opened(disk, mode).ops.len() > 0,
{
    let chain = replay_chain(
        disk.subrange(h.log_offset, h.log_offset + h.log_length),
        h.log_guid,
    );
    let settled = opened_with_log_settled(
        replayed(disk, chain),
        h,
        slot,
        true,
        mode,
    );
    assert(settled.ops.len() >= 4);
}

/// The header that is left once the log of `h` was replayed: the next sequence number, a log GUID
/// of zeros, and otherwise what it was.
pub open spec fn consumed(h: HeaderView) -> HeaderView {
    HeaderView {
        sequence_number: if h.sequence_number == u64::MAX {
            0
        } else {
            h.sequence_number + 1
        },
        file_write_guid: h.file_write_guid,
        data_write_guid: h.data_write_guid,
        log_guid: zeros(16),
        log_version: h.log_version,
        version: h.version,
        log_length: h.log_length,
        log_offset: h.log_offset,
    }
}

/// The operations that leave an empty log: it is zeroed, and then the header that says so goes to
/// the slot that is not in use. Each is durable before the next starts.
pub open spec fn emptying(h: HeaderView, slot: HeaderSlot) -> Seq<OpView> {
    seq![
        OpView::Zeros { offset: h.log_offset, len: h.log_length },
        OpView::Flush,
        OpView::Write { offset: slot_start(other_slot(slot)), data: header_bytes(consumed(h)) },
        OpView::Flush,
    ]
}

/// The operations that mark a log as consumed leave it empty.
proof fn lemma_emptying(h: HeaderView, slot: HeaderSlot)
    requires
        h.fits(),
    ensures
        clearing_ops(h, slot) == emptying(h, slot),
{
    assert(log_cleared(h) == consumed(h));
    assert(clearing_ops(h, slot) =~= emptying(h, slot));
}

/// A sound image whose log has something to be replayed opens on a device that takes writes: the
/// log is replayed, then it is emptied, and what is open is what the structures say that the
/// replay leaves. Nothing is asked of the region table beforehand, but that no region that it may
/// have lies in the log.
pub proof fn a_sound_log_is_replayed(
    disk: Seq<u8>,
    mode: OpenMode,
    h: HeaderView,
    slot: HeaderSlot,
    regions: Seq<RegionView>,
    geometry: Geometry,
    bat: RegionView,
)
    requires
        has_identifier(disk),
        is_in_use(disk, slot, h),
        h.fits(),
        declares_log(h),
        mode.replay_capable,
        log_version_fault(h) is None,
        log_region_fault(h, disk.len() as int) is None,
        forall|before: Seq<RegionView>| #[trigger]
            has_regions(disk, before) ==> log_overlap_fault(h, before) is None,
        ({
            let chain = replay_chain(
                disk.subrange(h.log_offset, h.log_offset + h.log_length),
                h.log_guid,
            );
            let left = after_ops(replayed(disk, chain), emptying(h, slot));
            &&& chain.len() > 0
            &&& chain_within(chain, allowed_extent(chain, disk.len() as int))
            &&& has_regions(replayed(disk, chain), regions)
            &&& layout_fault(h, regions) is None
            &&& holds_disk(left, regions, geometry, bat)
        }),
    ensures
        ({
            let chain = replay_chain(
                disk.subrange(h.log_offset, h.log_offset + h.log_length),
                h.log_guid,
            );
            let left = after_ops(replayed(disk, chain), emptying(h, slot));
            opened(disk, mode) == (OpenOutcome {
                ops: chain_ops(chain) + emptying(h, slot),
                disk: left,
                result: Ok(image_of(left, h, slot, geometry, bat, mode.writable)),
            })
        }),
{
    let chain = replay_chain(
        disk.subrange(h.log_offset, h.log_offset + h.log_length),
        h.log_guid,
    );
    let left = after_ops(replayed(disk, chain), emptying(h, slot));
    lemma_identifier(disk);
    lemma_in_use(disk, slot, h);
    lemma_declares_log(h);
    lemma_emptying(h, slot);
    lemma_regions(replayed(disk, chain), regions);
    if region_table_on(disk) is Some {
        lemma_regions(disk, region_table_on(disk)->Some_0);
    }
    let last = opened_with_regions(
        left,
        h,
        slot,
        region_named(regions, guids::METADATA@),
        region_named(regions, guids::BAT@),
        mode,
    );
    assert(last.result == Ok::<ReaderView, Error>(
        image_of(left, h, slot, geometry, bat, mode.writable),
    ));
    assert(last.ops == Seq::<OpView>::empty());
    assert(emptying(h, slot) + last.ops =~= emptying(h, slot));
}

/// A log that is declared, but holds no entry of its chain, needs no replay: the image opens as one
/// with an empty log, and the device is left alone.
pub proof fn a_log_without_entries_is_left_alone(
    disk: Seq<u8>,
    mode: OpenMode,
    h: HeaderView,
    slot: HeaderSlot,
    regions: Seq<RegionView>,
    geometry: Geometry,
    bat: RegionView,
)
    requires
        has_identifier(disk),
        is_in_use(disk, slot, h),
        declares_log(h),
        mode.replay_capable,
        replay_chain(
            disk.subrange(h.log_offset, h.log_offset + h.log_length),
            h.log_guid,
        ).len() == 0,
        log_version_fault(h) is None,
        log_region_fault(h, disk.len() as int) is None,
        has_regions(disk, regions),
        layout_fault(h, regions) is None,
        holds_disk(disk, regions, geometry, bat),
    ensures
        opened(disk, mode) == (OpenOutcome {
            ops: Seq::empty(),
            disk,
            result: Ok(image_of(disk, h, slot, geometry, bat, mode.writable)),
        }),
{
    lemma_identifier(disk);
    lemma_in_use(disk, slot, h);
    lemma_regions(disk, regions);
    lemma_declares_log(h);
}

/// A device that does not start with the identifier holds no image, and one that holds no valid
/// header in either slot, none that can be read; nothing else is refused for these.
pub proof fn without_identifier_or_header_nothing_opens(disk: Seq<u8>, mode: OpenMode)
    ensures
        opened(disk, mode) == refused(disk, Error::NotVhdx) <==> !has_identifier(disk),
        has_identifier(disk) && (forall|slot: HeaderSlot, h: HeaderView|
            !#[trigger] holds_header(disk, slot, h)) ==> opened(disk, mode) == refused(
            disk,
            Error::NoValidHeader,
        ),
        forall|slot: HeaderSlot, h: HeaderView| #[trigger]
            holds_header(disk, slot, h) ==> opened(disk, mode).result != Err::<ReaderView, Error>(
                Error::NoValidHeader,
            ),
{
    lemma_identifier(disk);
    lemma_picked(disk);
    if has_identifier(disk) {
        lemma_errors_after_the_header(disk, mode);
    }
}

/// Whether a result is none of the refusals that the identifier, the headers and the device give.
spec fn comes_late(o: OpenOutcome) -> bool {
    o.result matches Err(e) ==> !(e is NotVhdx) && !(e is NoValidHeader) && !(e is ReadOnly)
}

/// Nothing in the metadata is called by an early name.
proof fn lemma_geometry_comes_late(region: Seq<u8>)
    ensures
        geometry_meaning(region) matches Err(e) ==> !(e is NotVhdx) && !(e is NoValidHeader) && !(
        e is ReadOnly),
{
}

/// Nothing in the regions is called by an early name.
proof fn lemma_regions_come_late(
    disk: Seq<u8>,
    h: HeaderView,
    slot: HeaderSlot,
    metadata: Option<RegionView>,
    bat: Option<RegionView>,
    mode: OpenMode,
)
    ensures
        comes_late(opened_with_regions(disk, h, slot, metadata, bat, mode)),
{
    match metadata {
        Some(m) => {
            lemma_geometry_comes_late(disk.subrange(m.file_offset, m.file_offset + m.length));
        },
        None => {},
    }
}

/// Nothing behind the log is called by an early name.
proof fn lemma_settled_comes_late(
    disk: Seq<u8>,
    h: HeaderView,
    slot: HeaderSlot,
    was_replayed: bool,
    mode: OpenMode,
)
    ensures
        comes_late(opened_with_log_settled(disk, h, slot, was_replayed, mode)),
{
    match region_table_on(disk) {
        Some(regions) => {
            let metadata = region_named(regions, guids::METADATA@);
            let bat = region_named(regions, guids::BAT@);
            let cleared = after_ops(disk, clearing_ops(h, slot));
            lemma_regions_come_late(disk, h, slot, metadata, bat, mode);
            lemma_regions_come_late(cleared, h, slot, metadata, bat, mode);
        },
        None => {},
    }
}

/// Nothing in the log is called by an early name.
proof fn lemma_log_comes_late(disk: Seq<u8>, h: HeaderView, slot: HeaderSlot, mode: OpenMode)
    ensures
        comes_late(opened_dirty(disk, h, slot, mode)),
{
    let chain = replay_chain(
        disk.subrange(h.log_offset, h.log_offset + h.log_length),
        h.log_guid,
    );
    lemma_settled_comes_late(disk, h, slot, false, mode);
    lemma_settled_comes_late(replayed(disk, chain), h, slot, true, mode);
}

/// Nothing that is found wrong behind the headers is called a missing identifier or header, and
/// nothing but a log that cannot be replayed is called read-only.
proof fn lemma_errors_after_the_header(disk: Seq<u8>, mode: OpenMode)
    requires
        has_identifier(disk),
    ensures
        ({
            let active = active_header(
                slot_header(disk, HeaderSlot::One),
                slot_header(disk, HeaderSlot::Two),
            );
            let result = opened(disk, mode).result;
            &&& result != Err::<ReaderView, Error>(Error::NotVhdx)
            &&& result == Err::<ReaderView, Error>(Error::NoValidHeader) <==> active is None
            &&& result == Err::<ReaderView, Error>(Error::ReadOnly) ==> active is Some && is_dirty(
                active->Some_0.0,
            ) && !mode.replay_capable
        }),
{
    lemma_identifier(disk);
    match active_header(slot_header(disk, HeaderSlot::One), slot_header(disk, HeaderSlot::Two)) {
        Some((h, slot)) => {
            lemma_log_comes_late(disk, h, slot, mode);
            lemma_settled_comes_late(disk, h, slot, false, mode);
        },
        None => {},
    }
}

/// An image is refused as read-only only where its log would have to be replayed and the device
/// takes no writes.
pub proof fn only_a_log_makes_an_image_read_only(disk: Seq<u8>, mode: OpenMode)
    requires
        opened(disk, mode).result == Err::<ReaderView, Error>(Error::ReadOnly),
    ensures
        has_identifier(disk),
        !mode.replay_capable,
        exists|slot: HeaderSlot, h: HeaderView| #[trigger]
            is_in_use(disk, slot, h) && declares_log(h),
{
    lemma_identifier(disk);
    lemma_picked(disk);
    lemma_errors_after_the_header(disk, mode);
    let (h, slot) = active_header(
        slot_header(disk, HeaderSlot::One),
        slot_header(disk, HeaderSlot::Two),
    )->Some_0;
    lemma_declares_log(h);
    assert(is_in_use(disk, slot, h) && declares_log(h));
}

/// What is asked of an image with a log to be replayed before the log is touched: each of these
/// refuses it, and leaves the device alone.
pub proof fn what_is_asked_before_a_log_is_touched(
    disk: Seq<u8>,
    mode: OpenMode,
    h: HeaderView,
    slot: HeaderSlot,
)
    requires
        has_identifier(disk),
        is_in_use(disk, slot, h),
    ensures
        log_version_fault(h) matches Some(why) ==> opened(disk, mode) == refused(disk, why),
        log_version_fault(h) is None && !mode.replay_capable && declares_log(h) ==> opened(
            disk,
            mode,
        ) == refused(disk, Error::ReadOnly),
        log_version_fault(h) is None && (mode.replay_capable || !declares_log(h)) ==> (
        log_region_fault(h, disk.len() as int) matches Some(why) ==> opened(disk, mode) == refused(
            disk,
            why,
        )),
        log_version_fault(h) is None && log_region_fault(h, disk.len() as int) is None
            && declares_log(h) && mode.replay_capable ==> forall|regions: Seq<RegionView>|
            #[trigger]
            has_regions(disk, regions) ==> (log_overlap_fault(h, regions) matches Some(why)
                ==> opened(disk, mode) == refused(disk, why)),
        log_version_fault(h) is None && log_region_fault(h, disk.len() as int) is None
            && !declares_log(h) && (forall|regions: Seq<RegionView>|
            !#[trigger] has_regions(disk, regions)) ==> opened(disk, mode) == refused(
            disk,
            Error::NoValidRegionTable,
        ),
{
    lemma_identifier(disk);
    lemma_in_use(disk, slot, h);
    lemma_declares_log(h);
    assert forall|regions: Seq<RegionView>| #[trigger]
        has_regions(disk, regions) implies region_table_on(disk) == Some(regions) by {
        lemma_regions(disk, regions);
    }
    if region_table_on(disk) is Some {
        lemma_regions(disk, region_table_on(disk)->Some_0);
    }
}

/// A read-only open may replay a log as soon as the device takes writes; it then lets no write
/// through. An open for writing asks for a device that takes writes.
pub proof fn what_an_image_is_opened_for(
    dev_size: u64,
    dev_writable: bool,
    disk: Seq<u8>,
    reading: OpenStep,
    writing: OpenStep,
    plain: OpenStep,
    mode: OpenMode,
)
    requires
        call_ensures(VhdxReader::open_on_device, (dev_size, dev_writable), reading),
        call_ensures(VhdxReader::open_rw_on_device, (dev_size, dev_writable), writing),
        call_ensures(start, (dev_size, mode), plain),
        disk.len() == dev_size,
    ensures
        call_requires(VhdxReader::open_on_device, (dev_size, dev_writable)),
        call_requires(VhdxReader::open_rw_on_device, (dev_size, dev_writable)),
        reading.outcome(disk) == opened(
            disk,
            (OpenMode { writable: false, replay_capable: dev_writable }),
        ),
        dev_writable ==> writing.outcome(disk) == opened(
            disk,
            (OpenMode { writable: true, replay_capable: true }),
        ),
        !dev_writable ==> writing.outcome(disk) == refused(disk, Error::ReadOnly),
        plain.outcome(disk) == opened(disk, mode),
        reading.true_of(disk),
        writing.true_of(disk),
{
}

/// What is found wrong with the regions of an image whose log is empty: each is told as what it is,
/// in the order in which they are looked at, and the device is left alone.
pub proof fn what_the_regions_are_refused_for(
    disk: Seq<u8>,
    mode: OpenMode,
    h: HeaderView,
    slot: HeaderSlot,
    regions: Seq<RegionView>,
)
    requires
        has_identifier(disk),
        is_in_use(disk, slot, h),
        !declares_log(h),
        log_version_fault(h) is None,
        log_region_fault(h, disk.len() as int) is None,
        has_regions(disk, regions),
    ensures
        ({
            let metadata = region_named(regions, guids::METADATA@);
            let bat = region_named(regions, guids::BAT@);
            let m = metadata->Some_0;
            let b = bat->Some_0;
            let inside = m.file_offset + m.length <= disk.len();
            let meaning = geometry_meaning(
                disk.subrange(m.file_offset, m.file_offset + m.length),
            );
            match layout_fault(h, regions) {
                Some(why) => opened(disk, mode) == refused(disk, why),
                None => {
                    &&& metadata is None ==> opened(disk, mode) == refused(
                        disk,
                        Error::Corrupt("metadata region missing"),
                    )
                    &&& metadata is Some && !inside ==> opened(disk, mode) == refused(
                        disk,
                        Error::Corrupt("metadata region reaches past the end of the file"),
                    )
                    &&& metadata is Some && inside ==> match meaning {
                        Err(why) => opened(disk, mode) == refused(disk, why),
                        Ok(g) => {
                            &&& bat is None ==> opened(disk, mode) == refused(
                                disk,
                                Error::Corrupt("BAT region missing"),
                            )
                            &&& bat is Some && b.file_offset + b.length > disk.len() ==> opened(
                                disk,
                                mode,
                            ) == refused(
                                disk,
                                Error::Corrupt("BAT region reaches past the end of the file"),
                            )
                            &&& bat is Some && b.file_offset + b.length <= disk.len() ==> (
                            bat_length_fault(b.length, g) matches Some(why) ==> opened(disk, mode)
                                == refused(disk, why))
                        },
                    }
                },
            }
        }),
{
    lemma_identifier(disk);
    lemma_in_use(disk, slot, h);
    lemma_regions(disk, regions);
    lemma_declares_log(h);
}

/// A log that would write past where it may is not replayed: the image is refused, and the device
/// is left alone.
pub proof fn a_log_that_reaches_too_far_is_not_replayed(
    disk: Seq<u8>,
    mode: OpenMode,
    h: HeaderView,
    slot: HeaderSlot,
)
    requires
        has_identifier(disk),
        is_in_use(disk, slot, h),
        declares_log(h),
        mode.replay_capable,
        log_version_fault(h) is None,
        log_region_fault(h, disk.len() as int) is None,
        forall|before: Seq<RegionView>| #[trigger]
            has_regions(disk, before) ==> log_overlap_fault(h, before) is None,
        ({
            let chain = replay_chain(
                disk.subrange(h.log_offset, h.log_offset + h.log_length),
                h.log_guid,
            );
            chain.len() > 0 && !chain_within(chain, allowed_extent(chain, disk.len() as int))
        }),
    ensures
        opened(disk, mode) == refused(
            disk,
            Error::Corrupt("log entry writes past the end of the file"),
        ),
{
    lemma_identifier(disk);
    lemma_in_use(disk, slot, h);
    lemma_declares_log(h);
    if region_table_on(disk) is Some {
        lemma_regions(disk, region_table_on(disk)->Some_0);
    }
}

/// A dialogue that is answered with the bytes of the device that it asks for comes to what it came
/// to before the answer, and comes nearer to its end.
pub proof fn an_answer_leaves_what_opening_comes_to(
    read: OpenRead,
    offset: u64,
    len: usize,
    data: Vec<u8>,
    step: OpenStep,
    disk: Seq<u8>,
)
    requires
        read.wf(),
        read.true_of(disk),
        call_ensures(OpenRead::offset, (&read,), offset),
        call_ensures(OpenRead::len, (&read,), len),
        data@.len() == len,
        offset + len <= disk.len(),
        disk.subrange(offset as int, offset + len) == data@,
        call_ensures(OpenRead::supply, (read, data), step),
    ensures
        call_requires(OpenRead::supply, (read, data)),
        step.outcome(disk) == OpenStep::Read(read).outcome(disk),
        step.true_of(disk),
        step.wf(),
        0 <= step.steps_left() < OpenStep::Read(read).steps_left(),
{
    assert(step.outcome(disk) == read.outcome(disk));
    lemma_steps_are_counted(step);
}

/// A dialogue whose operations are carried out comes to what it came to before, and comes nearer to
/// its end.
pub proof fn carrying_out_leaves_what_opening_comes_to(
    apply: OpenApply,
    ops: &[DeviceOp],
    dev_size: u64,
    step: OpenStep,
    disk: Seq<u8>,
)
    requires
        call_ensures(OpenApply::ops, (&apply,), ops),
        dev_size == after_ops(disk, op_views(ops@)).len(),
        call_ensures(OpenApply::applied, (apply, dev_size), step),
    ensures
        call_requires(OpenApply::applied, (apply, dev_size)),
        ({
            let left = after_ops(disk, op_views(ops@));
            let before = OpenStep::Apply(apply).outcome(disk);
            &&& before.disk == step.outcome(left).disk
            &&& before.result == step.outcome(left).result
            &&& before.ops == op_views(ops@) + step.outcome(left).ops
            &&& step.true_of(left)
            &&& step.wf()
        }),
        0 <= step.steps_left() < OpenStep::Apply(apply).steps_left(),
{
    let left = after_ops(disk, op_views(ops@));
    assert(step.outcome(left) == apply.outcome_after(left));
    lemma_steps_are_counted(step);
}

/// A dialogue that is over says what it came to: the image, or the refusal, with nothing left to
/// perform.
pub proof fn a_dialogue_that_is_over_says_what_it_came_to(
    reader: VhdxReader,
    why: Error,
    disk: Seq<u8>,
)
    ensures
        OpenStep::Opened(reader).outcome(disk).result == Ok::<ReaderView, Error>(reader@),
        OpenStep::Opened(reader).outcome(disk).ops.len() == 0,
        OpenStep::Opened(reader).outcome(disk).disk == disk,
        OpenStep::Opened(reader).wf() ==> reader.wf(),
        OpenStep::Refused(why).outcome(disk).result == Err::<ReaderView, Error>(why),
        OpenStep::Refused(why).outcome(disk).ops.len() == 0,
        OpenStep::Refused(why).outcome(disk).disk == disk,
{
}

} // verus!

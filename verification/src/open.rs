//! Opening an image.
//!
//! Opening walks the file identifier → header → region table → metadata → BAT pipeline,
//! and replays the log of a dirty image on the way. It alternates device work with
//! decisions, so it is a dialogue: [`start`] and the answers to its requests each yield an
//! [`OpenStep`], which is the next request, or the opened image, or the refusal.
//!
//! What the dialogue comes to on a device with given contents is [`opened`].
//!
//! ## Log replay
//!
//! Both read-only and read-write opens replay any pending log entries before exposing the
//! BAT. On a device that takes no writes a non-empty log is reported as `Error::ReadOnly`,
//! because the stale data zones cannot be interpreted without applying the pending writes
//! first.
//!
//! A refused image is an unmodified image wherever the refusal can be known beforehand: the
//! log region is held against the file and against the declared regions before anything is
//! applied, and again afterwards, since a replayed chain may rewrite the region table. The
//! log is erased only after the second check.
use crate::bytes::{all_zero, is_zero_guid, matches_at, zeros};
use crate::device::{after_ops, lemma_after_ops_split, op_views, DeviceOp, OpView};
use crate::error::Error;
use crate::header::{active_header, encode_header, header_bytes, header_meaning, header_view};
use crate::header::{pick_header, Header, HeaderSlot, HeaderView, HEADER1_OFFSET, HEADER2_OFFSET};
use crate::header::HEADER_SIZE;
use crate::layout::{bat_entries, bat_length_fault, check_bat_length, check_layout};
use crate::layout::{check_log_overlap, check_log_region, check_log_version, decode_bat};
use crate::layout::{geometry_meaning, in_file, layout_fault, log_overlap_fault, log_region_fault};
use crate::layout::{log_version_fault, read_geometry, region_in_file, Geometry};
use crate::log::{apply_chain, collect_replay_chain, entry_views, LogEntry};
use crate::log::chain::replay_chain;
use crate::log::replay::{allowed_extent, chain_ops, chain_within, extent_of};
use crate::log::replay::{lemma_chain_ops_replay, replayed, stays_within};
use crate::reader::{ReaderView, VhdxReader};
use crate::region_table::{guids, region_named, region_table_meaning, RegionEntry, RegionTable};
use crate::region_table::{RegionView, REGION_TABLE1_OFFSET, REGION_TABLE2_OFFSET};
use crate::region_table::REGION_TABLE_SIZE;
use vstd::prelude::*;

pub mod admission;

verus! {

pub const FILE_IDENTIFIER_OFFSET: u64 = 0;

/// "vhdxfile"
pub const FILE_IDENTIFIER_SIGNATURE: [u8; 8] = [0x76, 0x68, 0x64, 0x78, 0x66, 0x69, 0x6C, 0x65];

/// What an image is opened for.
#[derive(Debug, Clone, Copy, PartialEq, Eq, Structural)]
pub struct OpenMode {
    /// Whether writes to the virtual disk will be taken.
    pub writable: bool,
    /// Whether the device can absorb log replay: true when it takes writes, even if the
    /// image is opened read-only.
    pub replay_capable: bool,
}

/// What opening an image comes to: the operations that are performed on the device, in order,
/// the contents that it is left with, and the opened image or the refusal.
#[verifier::ext_equal]
pub struct OpenOutcome {
    pub ops: Seq<OpView>,
    pub disk: Seq<u8>,
    pub result: core::result::Result<ReaderView, Error>,
}

impl OpenOutcome {
    /// The same outcome, with these operations performed first.
    pub open spec fn preceded_by(self, ops: Seq<OpView>) -> OpenOutcome {
        OpenOutcome { ops: ops + self.ops, ..self }
    }
}

/// The refusal of an image, with the device left as it is.
pub open spec fn refused(disk: Seq<u8>, why: Error) -> OpenOutcome {
    OpenOutcome { ops: Seq::empty(), disk, result: Err(why) }
}

/// The header in a slot, when the device reaches that far and the slot holds a valid one.
#[verifier::opaque]
pub open spec fn slot_header(disk: Seq<u8>, slot: HeaderSlot) -> Option<HeaderView> {
    let at = slot.position();
    if disk.len() < at + 4096 {
        None
    } else {
        match header_meaning(disk.subrange(at, at + 4096)) {
            Ok(h) => Some(h),
            Err(_) => None,
        }
    }
}

/// The region table at `at`, when the device reaches that far and a valid one is there.
pub open spec fn table_at(disk: Seq<u8>, at: int) -> Option<Seq<RegionView>> {
    if disk.len() < at + 0x1_0000 {
        None
    } else {
        match region_table_meaning(disk.subrange(at, at + 0x1_0000)) {
            Ok(regions) => Some(regions),
            Err(_) => None,
        }
    }
}

/// The region table of an image: the first of the two copies that is valid.
#[verifier::opaque]
pub open spec fn region_table_on(disk: Seq<u8>) -> Option<Seq<RegionView>> {
    match table_at(disk, 0x3_0000) {
        Some(regions) => Some(regions),
        None => table_at(disk, 0x4_0000),
    }
}

/// Whether a header says that the log holds something to be replayed.
pub open spec fn is_dirty(h: HeaderView) -> bool {
    !all_zero(h.log_guid) && h.log_length > 0 && h.log_offset > 0
}

/// The header that says that the log of `h` was consumed: the log GUID is zero, and the
/// sequence number is the next one.
pub open spec fn log_cleared(h: HeaderView) -> HeaderView {
    HeaderView {
        sequence_number: (h.sequence_number + 1) % 0x1_0000_0000_0000_0000,
        log_guid: zeros(16),
        ..h
    }
}

/// The operations that mark a replayed log as consumed: the log region is erased, then a
/// header that says so goes to the slot that is not in use, so a crash in between does not
/// lose the previous good header.
pub open spec fn clearing_ops(h: HeaderView, slot: HeaderSlot) -> Seq<OpView> {
    seq![
        OpView::Zeros { offset: h.log_offset, len: h.log_length },
        OpView::Flush,
        OpView::Write { offset: slot.opposite().position(), data: header_bytes(log_cleared(h)) },
        OpView::Flush,
    ]
}

/// What opening comes to once the BAT region `bat` was found.
pub open spec fn opened_with_bat(
    disk: Seq<u8>,
    h: HeaderView,
    slot: HeaderSlot,
    geometry: Geometry,
    bat: RegionView,
    mode: OpenMode,
) -> OpenOutcome {
    if !region_in_file(bat, disk.len() as int) {
        refused(disk, Error::Corrupt("BAT region reaches past the end of the file"))
    } else if bat_length_fault(bat.length, geometry) is Some {
        refused(disk, bat_length_fault(bat.length, geometry)->Some_0)
    } else {
        OpenOutcome {
            ops: Seq::empty(),
            disk,
            result: Ok(
                ReaderView {
                    dev_size: disk.len() as int,
                    header: h,
                    active_slot: slot,
                    geometry,
                    bat_region_off: bat.file_offset,
                    bat: bat_entries(
                        disk.subrange(bat.file_offset, bat.file_offset + bat.length),
                    ),
                    writable: mode.writable,
                },
            ),
        }
    }
}

/// What opening comes to once the metadata region `metadata` was found.
pub open spec fn opened_with_metadata(
    disk: Seq<u8>,
    h: HeaderView,
    slot: HeaderSlot,
    metadata: RegionView,
    bat: Option<RegionView>,
    mode: OpenMode,
) -> OpenOutcome {
    match geometry_meaning(
        disk.subrange(metadata.file_offset, metadata.file_offset + metadata.length),
    ) {
        Err(why) => refused(disk, why),
        Ok(geometry) => match bat {
            None => refused(disk, Error::Corrupt("BAT region missing")),
            Some(bat) => opened_with_bat(disk, h, slot, geometry, bat, mode),
        },
    }
}

/// What opening comes to once the regions were looked up.
pub open spec fn opened_with_regions(
    disk: Seq<u8>,
    h: HeaderView,
    slot: HeaderSlot,
    metadata: Option<RegionView>,
    bat: Option<RegionView>,
    mode: OpenMode,
) -> OpenOutcome {
    match metadata {
        None => refused(disk, Error::Corrupt("metadata region missing")),
        Some(metadata) => if !region_in_file(metadata, disk.len() as int) {
            refused(disk, Error::Corrupt("metadata region reaches past the end of the file"))
        } else {
            opened_with_metadata(disk, h, slot, metadata, bat, mode)
        },
    }
}

/// What opening comes to once the log is settled; `was_replayed` says whether a chain was
/// applied.
pub open spec fn opened_with_log_settled(
    disk: Seq<u8>,
    h: HeaderView,
    slot: HeaderSlot,
    was_replayed: bool,
    mode: OpenMode,
) -> OpenOutcome {
    match region_table_on(disk) {
        None => refused(disk, Error::NoValidRegionTable),
        Some(regions) => match layout_fault(h, regions) {
            Some(why) => refused(disk, why),
            None => {
                let metadata = region_named(regions, guids::METADATA@);
                let bat = region_named(regions, guids::BAT@);
                if was_replayed {
                    let clearing = clearing_ops(h, slot);
                    opened_with_regions(
                        after_ops(disk, clearing),
                        h,
                        slot,
                        metadata,
                        bat,
                        mode,
                    ).preceded_by(clearing)
                } else {
                    opened_with_regions(disk, h, slot, metadata, bat, mode)
                }
            },
        },
    }
}

/// What opening comes to once the log of a dirty image may be read.
pub open spec fn opened_with_log(
    disk: Seq<u8>,
    h: HeaderView,
    slot: HeaderSlot,
    mode: OpenMode,
) -> OpenOutcome {
    let chain = replay_chain(
        disk.subrange(h.log_offset, h.log_offset + h.log_length),
        h.log_guid,
    );
    if chain.len() == 0 {
        opened_with_log_settled(disk, h, slot, false, mode)
    } else if !chain_within(chain, allowed_extent(chain, disk.len() as int)) {
        refused(disk, Error::Corrupt("log entry writes past the end of the file"))
    } else {
        opened_with_log_settled(replayed(disk, chain), h, slot, true, mode).preceded_by(
            chain_ops(chain),
        )
    }
}

/// What opening comes to for a dirty image. The log may replace the region table, and may bring
/// one where there is none; but a log that overlaps a region of the table as it stands is not
/// touched.
pub open spec fn opened_dirty(
    disk: Seq<u8>,
    h: HeaderView,
    slot: HeaderSlot,
    mode: OpenMode,
) -> OpenOutcome {
    match region_table_on(disk) {
        Some(regions) => match log_overlap_fault(h, regions) {
            Some(why) => refused(disk, why),
            None => opened_with_log(disk, h, slot, mode),
        },
        None => opened_with_log(disk, h, slot, mode),
    }
}

/// What opening comes to once the active header was picked.
pub open spec fn opened_with_header(
    disk: Seq<u8>,
    h: HeaderView,
    slot: HeaderSlot,
    mode: OpenMode,
) -> OpenOutcome {
    if log_version_fault(h) is Some {
        refused(disk, log_version_fault(h)->Some_0)
    } else if is_dirty(h) && !mode.replay_capable {
        refused(disk, Error::ReadOnly)
    } else if log_region_fault(h, disk.len() as int) is Some {
        refused(disk, log_region_fault(h, disk.len() as int)->Some_0)
    } else if is_dirty(h) {
        opened_dirty(disk, h, slot, mode)
    } else {
        opened_with_log_settled(disk, h, slot, false, mode)
    }
}

/// What opening comes to once the file identifier was seen.
pub open spec fn opened_with_identifier(disk: Seq<u8>, mode: OpenMode) -> OpenOutcome {
    match active_header(slot_header(disk, HeaderSlot::One), slot_header(disk, HeaderSlot::Two)) {
        None => refused(disk, Error::NoValidHeader),
        Some((h, slot)) => opened_with_header(disk, h, slot, mode),
    }
}

/// What opening an image on a device with these contents comes to.
pub open spec fn opened(disk: Seq<u8>, mode: OpenMode) -> OpenOutcome {
    if disk.subrange(0, 8) != FILE_IDENTIFIER_SIGNATURE@ {
        refused(disk, Error::NotVhdx)
    } else {
        opened_with_identifier(disk, mode)
    }
}

/// The operations that opening performs account for what the device is left with.
pub proof fn opening_leaves_what_it_performs(disk: Seq<u8>, mode: OpenMode)
    ensures
        opened(disk, mode).disk == after_ops(disk, opened(disk, mode).ops),
{
    let o = opened(disk, mode);
    let active = active_header(
        slot_header(disk, HeaderSlot::One),
        slot_header(disk, HeaderSlot::Two),
    );
    if o.ops.len() > 0 {
        let (h, slot) = active->Some_0;
        let chain = replay_chain(
            disk.subrange(h.log_offset, h.log_offset + h.log_length),
            h.log_guid,
        );
        let settled = opened_with_log_settled(replayed(disk, chain), h, slot, true, mode);
        lemma_chain_ops_replay(disk, chain);
        if settled.ops.len() == 0 {
            assert(o.ops =~= chain_ops(chain));
        } else {
            assert(settled.ops =~= clearing_ops(h, slot));
            lemma_after_ops_split(disk, chain_ops(chain), clearing_ops(h, slot));
        }
    }
}

/// A device is written to when an image on it is opened only to replay its log: the header in use
/// declares a log, the device takes writes, and everything that can be checked beforehand was: the
/// log format, where the log lies, that it overlaps no region, and that no entry writes past the
/// end of the file.
pub proof fn only_a_sound_replay_writes(disk: Seq<u8>, mode: OpenMode)
    requires
        opened(disk, mode).ops.len() > 0,
    ensures
        ({
            let active = active_header(
                slot_header(disk, HeaderSlot::One),
                slot_header(disk, HeaderSlot::Two),
            );
            let h = active->Some_0.0;
            let chain = replay_chain(
                disk.subrange(h.log_offset, h.log_offset + h.log_length),
                h.log_guid,
            );
            &&& disk.subrange(0, 8) == FILE_IDENTIFIER_SIGNATURE@
            &&& active is Some
            &&& is_dirty(h)
            &&& mode.replay_capable
            &&& log_version_fault(h) is None
            &&& log_region_fault(h, disk.len() as int) is None
            &&& region_table_on(disk) is Some ==> log_overlap_fault(
                h,
                region_table_on(disk)->Some_0,
            ) is None
            &&& chain.len() > 0
            &&& chain_within(chain, allowed_extent(chain, disk.len() as int))
        }),
{
}

/// A device that cannot be written to is left alone, and an image with a log that would have to be
/// replayed first is refused there.
pub proof fn device_that_takes_no_writes_is_left_alone(disk: Seq<u8>, mode: OpenMode)
    requires
        !mode.replay_capable,
    ensures
        opened(disk, mode).ops.len() == 0,
        opened(disk, mode).disk == disk,
        ({
            let active = active_header(
                slot_header(disk, HeaderSlot::One),
                slot_header(disk, HeaderSlot::Two),
            );
            disk.subrange(0, 8) == FILE_IDENTIFIER_SIGNATURE@ && active is Some && log_version_fault(
                active->Some_0.0,
            ) is None && is_dirty(active->Some_0.0) ==> opened(disk, mode).result
                == Err::<ReaderView, Error>(Error::ReadOnly)
        }),
{
}

/// Opening for writing differs from opening for reading in nothing but that writes are let
/// through afterwards.
pub proof fn opening_for_writing_reads_the_same(disk: Seq<u8>, replay_capable: bool)
    ensures
        ({
            let a = opened(disk, OpenMode { writable: false, replay_capable });
            let b = opened(disk, OpenMode { writable: true, replay_capable });
            &&& a.ops == b.ops
            &&& a.disk == b.disk
            &&& match a.result {
                Ok(r) => b.result == Ok::<ReaderView, Error>(ReaderView { writable: true, ..r }),
                Err(why) => b.result == Err::<ReaderView, Error>(why),
            }
        }),
{
}

/// What the region table is read for.
#[derive(Debug, Clone, Copy, PartialEq, Eq, Structural)]
enum Purpose {
    /// To learn whether the log may be touched, before it is applied.
    BeforeReplay,
    /// To find the regions, with nothing replayed.
    NothingReplayed,
    /// To find the regions, once the log was applied.
    AfterReplay,
}

/// What opening comes to once the region table was asked for.
spec fn opened_with_table(
    disk: Seq<u8>,
    h: HeaderView,
    slot: HeaderSlot,
    purpose: Purpose,
    mode: OpenMode,
) -> OpenOutcome {
    match purpose {
        Purpose::BeforeReplay => opened_dirty(disk, h, slot, mode),
        Purpose::NothingReplayed => opened_with_log_settled(disk, h, slot, false, mode),
        Purpose::AfterReplay => opened_with_log_settled(disk, h, slot, true, mode),
    }
}

/// What an optional region says.
pub open spec fn region_view(r: Option<RegionEntry>) -> Option<RegionView> {
    match r {
        Some(r) => Some(r@),
        None => None,
    }
}

/// What the bytes that are read are wanted for.
#[derive(Debug)]
enum Want {
    Identifier,
    FirstHeader,
    SecondHeader { first: Option<Header> },
    FirstTable { header: Header, slot: HeaderSlot, purpose: Purpose },
    SecondTable { header: Header, slot: HeaderSlot, purpose: Purpose },
    Log { header: Header, slot: HeaderSlot },
    Metadata {
        header: Header,
        slot: HeaderSlot,
        metadata: RegionEntry,
        bat: Option<RegionEntry>,
    },
    Bat { header: Header, slot: HeaderSlot, geometry: Geometry, bat: RegionEntry },
}

/// A request for bytes of the device.
#[derive(Debug)]
pub struct OpenRead {
    dev_size: u64,
    mode: OpenMode,
    want: Want,
}

/// What follows once the device was written to.
#[derive(Debug)]
enum Follow {
    Tables,
    Regions { metadata: Option<RegionEntry>, bat: Option<RegionEntry> },
}

/// A request to carry out operations on the device, in order.
#[derive(Debug)]
pub struct OpenApply {
    mode: OpenMode,
    header: Header,
    slot: HeaderSlot,
    ops: Vec<DeviceOp>,
    follow: Follow,
}

/// What opening an image asks for next, or what it came to.
#[derive(Debug)]
pub enum OpenStep {
    /// Bytes of the device are wanted.
    Read(OpenRead),
    /// The device is to be written to.
    Apply(OpenApply),
    /// The image is open.
    Opened(VhdxReader),
    /// The image is refused.
    Refused(Error),
}

impl OpenRead {
    /// Where the bytes that are wanted start.
    pub closed spec fn start(self) -> int {
        match self.want {
            Want::Identifier => 0,
            Want::FirstHeader => 0x1_0000,
            Want::SecondHeader { .. } => 0x2_0000,
            Want::FirstTable { .. } => 0x3_0000,
            Want::SecondTable { .. } => 0x4_0000,
            Want::Log { header, .. } => header.log_offset as int,
            Want::Metadata { metadata, .. } => metadata.file_offset as int,
            Want::Bat { bat, .. } => bat.file_offset as int,
        }
    }

    /// How many bytes are wanted.
    pub closed spec fn size(self) -> int {
        match self.want {
            Want::Identifier => 8,
            Want::FirstHeader => 4096,
            Want::SecondHeader { .. } => 4096,
            Want::FirstTable { .. } => 0x1_0000,
            Want::SecondTable { .. } => 0x1_0000,
            Want::Log { header, .. } => header.log_length as int,
            Want::Metadata { metadata, .. } => metadata.length as int,
            Want::Bat { bat, .. } => bat.length as int,
        }
    }

    /// What opening comes to on a device with these contents.
    pub closed spec fn outcome(self, disk: Seq<u8>) -> OpenOutcome {
        match self.want {
            Want::Identifier => opened(disk, self.mode),
            Want::FirstHeader => opened_with_identifier(disk, self.mode),
            Want::SecondHeader { .. } => opened_with_identifier(disk, self.mode),
            Want::FirstTable { header, slot, purpose } => opened_with_table(
                disk,
                header@,
                slot,
                purpose,
                self.mode,
            ),
            Want::SecondTable { header, slot, purpose } => opened_with_table(
                disk,
                header@,
                slot,
                purpose,
                self.mode,
            ),
            Want::Log { header, slot } => opened_with_log(disk, header@, slot, self.mode),
            Want::Metadata { header, slot, metadata, bat } => opened_with_metadata(
                disk,
                header@,
                slot,
                metadata@,
                region_view(bat),
                self.mode,
            ),
            Want::Bat { header, slot, geometry, bat } => opened_with_bat(
                disk,
                header@,
                slot,
                geometry,
                bat@,
                self.mode,
            ),
        }
    }

    /// Whether what was learned so far is true of a device with these contents.
    pub closed spec fn true_of(self, disk: Seq<u8>) -> bool {
        &&& disk.len() == self.dev_size
        &&& match self.want {
            Want::SecondHeader { first } => header_view(first) == slot_header(
                disk,
                HeaderSlot::One,
            ),
            Want::SecondTable { .. } => table_at(disk, 0x3_0000) is None,
            _ => true,
        }
    }

    /// What holds of every request: all but the file identifier lies inside the device.
    pub closed spec fn wf(self) -> bool {
        match self.want {
            Want::Identifier => true,
            Want::FirstTable { header, purpose, .. } => {
                &&& self.start() + self.size() <= self.dev_size
                &&& purpose is BeforeReplay ==> is_dirty(header@) && log_region_fault(
                    header@,
                    self.dev_size as int,
                ) is None
            },
            Want::SecondTable { header, purpose, .. } => {
                &&& self.start() + self.size() <= self.dev_size
                &&& purpose is BeforeReplay ==> is_dirty(header@) && log_region_fault(
                    header@,
                    self.dev_size as int,
                ) is None
            },
            Want::Bat { geometry, bat, .. } => {
                &&& self.start() + self.size() <= self.dev_size
                &&& geometry.wf()
                &&& bat_length_fault(bat@.length, geometry) is None
            },
            _ => self.start() + self.size() <= self.dev_size,
        }
    }

    /// How far the dialogue may still go.
    pub closed spec fn steps_left(self) -> int {
        match self.want {
            Want::Identifier => 12,
            Want::FirstHeader => 11,
            Want::SecondHeader { .. } => 10,
            Want::FirstTable { purpose: Purpose::BeforeReplay, .. } => 9,
            Want::SecondTable { purpose: Purpose::BeforeReplay, .. } => 8,
            Want::Log { .. } => 7,
            Want::FirstTable { .. } => 5,
            Want::SecondTable { .. } => 4,
            Want::Metadata { .. } => 2,
            Want::Bat { .. } => 1,
        }
    }

    /// Where the bytes that are wanted start.
    pub fn offset(&self) -> (r: u64)
        ensures
            r == self.start(),
    {
        match &self.want {
            Want::Identifier => FILE_IDENTIFIER_OFFSET,
            Want::FirstHeader => HEADER1_OFFSET,
            Want::SecondHeader { .. } => HEADER2_OFFSET,
            Want::FirstTable { .. } => REGION_TABLE1_OFFSET,
            Want::SecondTable { .. } => REGION_TABLE2_OFFSET,
            Want::Log { header, .. } => header.log_offset,
            Want::Metadata { metadata, .. } => metadata.file_offset,
            Want::Bat { bat, .. } => bat.file_offset,
        }
    }

    /// How many bytes are wanted.
    pub fn len(&self) -> (r: usize)
        ensures
            r == self.size(),
    {
        match &self.want {
            Want::Identifier => 8,
            Want::FirstHeader => HEADER_SIZE,
            Want::SecondHeader { .. } => HEADER_SIZE,
            Want::FirstTable { .. } => REGION_TABLE_SIZE,
            Want::SecondTable { .. } => REGION_TABLE_SIZE,
            Want::Log { header, .. } => header.log_length as usize,
            Want::Metadata { metadata, .. } => metadata.length as usize,
            Want::Bat { bat, .. } => bat.length as usize,
        }
    }
}

impl OpenApply {
    /// The operations to be carried out.
    pub closed spec fn operations(self) -> Seq<OpView> {
        op_views(self.ops@)
    }

    /// What opening comes to on a device with these contents, once the operations were
    /// carried out.
    pub closed spec fn outcome_after(self, disk: Seq<u8>) -> OpenOutcome {
        match self.follow {
            Follow::Tables => opened_with_log_settled(
                disk,
                self.header@,
                self.slot,
                true,
                self.mode,
            ),
            Follow::Regions { metadata, bat } => opened_with_regions(
                disk,
                self.header@,
                self.slot,
                region_view(metadata),
                region_view(bat),
                self.mode,
            ),
        }
    }

    /// How far the dialogue may still go.
    pub closed spec fn steps_left(self) -> int {
        match self.follow {
            Follow::Tables => 6,
            Follow::Regions { .. } => 3,
        }
    }

    /// The operations to be carried out, in order.
    pub fn ops(&self) -> (ops: &[DeviceOp])
        ensures
            op_views(ops@) == self.operations(),
    {
        self.ops.as_slice()
    }
}

impl OpenStep {
    /// What opening comes to on a device with these contents.
    pub open spec fn outcome(self, disk: Seq<u8>) -> OpenOutcome {
        match self {
            OpenStep::Read(request) => request.outcome(disk),
            OpenStep::Apply(request) => request.outcome_after(
                after_ops(disk, request.operations()),
            ).preceded_by(request.operations()),
            OpenStep::Opened(reader) => OpenOutcome {
                ops: Seq::empty(),
                disk,
                result: Ok(reader@),
            },
            OpenStep::Refused(why) => refused(disk, why),
        }
    }

    /// Whether what was learned so far is true of a device with these contents.
    pub open spec fn true_of(self, disk: Seq<u8>) -> bool {
        match self {
            OpenStep::Read(request) => request.true_of(disk),
            _ => true,
        }
    }

    /// What holds of every step.
    pub open spec fn wf(self) -> bool {
        match self {
            OpenStep::Read(request) => request.wf(),
            OpenStep::Opened(reader) => reader.wf(),
            _ => true,
        }
    }

    /// How far the dialogue may still go.
    pub open spec fn steps_left(self) -> int {
        match self {
            OpenStep::Read(request) => request.steps_left(),
            OpenStep::Apply(request) => request.steps_left(),
            _ => 0,
        }
    }
}

/// Begin to open an image on a device of `dev_size` bytes.
pub fn start(dev_size: u64, mode: OpenMode) -> (step: OpenStep)
    ensures
        step.wf(),
        forall|disk: Seq<u8>|
            disk.len() == dev_size ==> step.true_of(disk) && #[trigger] step.outcome(disk)
                == opened(disk, mode),
{
    OpenStep::Read(OpenRead { dev_size, mode, want: Want::Identifier })
}

impl VhdxReader {
    /// Begin to open an image read-only, on a device of `dev_size` bytes. A dirty image can
    /// be opened when the device takes writes, because its log is replayed in place.
    pub fn open_on_device(dev_size: u64, dev_writable: bool) -> (step: OpenStep)
        ensures
            step.wf(),
            forall|disk: Seq<u8>|
                disk.len() == dev_size ==> step.true_of(disk) && #[trigger] step.outcome(disk)
                    == opened(disk, (OpenMode { writable: false, replay_capable: dev_writable })),
    {
        start(dev_size, OpenMode { writable: false, replay_capable: dev_writable })
    }

    /// Begin to open an image read-write, on a device of `dev_size` bytes. A device that takes
    /// no writes is refused.
    pub fn open_rw_on_device(dev_size: u64, dev_writable: bool) -> (step: OpenStep)
        ensures
            step.wf(),
            forall|disk: Seq<u8>|
                disk.len() == dev_size ==> step.true_of(disk) && #[trigger] step.outcome(disk)
                    == if dev_writable {
                    opened(disk, (OpenMode { writable: true, replay_capable: true }))
                } else {
                    refused(disk, Error::ReadOnly)
                },
    {
        if !dev_writable {
            return OpenStep::Refused(Error::ReadOnly);
        }
        start(dev_size, OpenMode { writable: true, replay_capable: true })
    }
}

/// Ask for the first header, when the device reaches that far.
fn ask_first_header(dev_size: u64, mode: OpenMode) -> (step: OpenStep)
    ensures
        step.wf(),
        step.steps_left() <= 11,
        forall|disk: Seq<u8>|
            disk.len() == dev_size ==> step.true_of(disk) && #[trigger] step.outcome(disk)
                == opened_with_identifier(disk, mode),
{
    proof {
        reveal(slot_header);
    }
    if dev_size >= HEADER1_OFFSET + HEADER_SIZE as u64 {
        OpenStep::Read(OpenRead { dev_size, mode, want: Want::FirstHeader })
    } else {
        OpenStep::Refused(Error::NoValidHeader)
    }
}

/// Ask for the second header, when the device reaches that far.
fn ask_second_header(dev_size: u64, mode: OpenMode, first: Option<Header>) -> (step: OpenStep)
    ensures
        step.wf(),
        step.steps_left() <= 10,
        forall|disk: Seq<u8>|
            disk.len() == dev_size && header_view(first) == slot_header(disk, HeaderSlot::One)
                ==> step.true_of(disk) && #[trigger] step.outcome(disk)
                == opened_with_identifier(disk, mode),
{
    proof {
        reveal(slot_header);
    }
    if dev_size >= HEADER2_OFFSET + HEADER_SIZE as u64 {
        OpenStep::Read(OpenRead { dev_size, mode, want: Want::SecondHeader { first } })
    } else {
        choose_header(dev_size, mode, first, None)
    }
}

/// Go on from the headers that the two slots hold.
fn choose_header(
    dev_size: u64,
    mode: OpenMode,
    first: Option<Header>,
    second: Option<Header>,
) -> (step: OpenStep)
    ensures
        step.wf(),
        step.steps_left() <= 9,
        forall|disk: Seq<u8>|
            disk.len() == dev_size && header_view(first) == slot_header(disk, HeaderSlot::One)
                && header_view(second) == slot_header(disk, HeaderSlot::Two) ==> step.true_of(disk)
                && #[trigger] step.outcome(disk) == opened_with_identifier(disk, mode),
{
    match pick_header(first, second) {
        Err(why) => OpenStep::Refused(why),
        Ok((header, slot)) => settle_log(dev_size, mode, header, slot),
    }
}

/// Decide what is to become of the log, once the active header is known.
fn settle_log(dev_size: u64, mode: OpenMode, header: Header, slot: HeaderSlot) -> (step: OpenStep)
    ensures
        step.wf(),
        step.steps_left() <= 9,
        forall|disk: Seq<u8>|
            disk.len() == dev_size ==> step.true_of(disk) && #[trigger] step.outcome(disk)
                == opened_with_header(disk, header@, slot, mode),
{
    if let Err(why) = check_log_version(&header) {
        return OpenStep::Refused(why);
    }
    let dirty: bool = !is_zero_guid(&header.log_guid) && header.log_length > 0 && header.log_offset
        > 0;
    if dirty && !mode.replay_capable {
        return OpenStep::Refused(Error::ReadOnly);
    }
    if let Err(why) = check_log_region(&header, dev_size) {
        return OpenStep::Refused(why);
    }
    if dirty {
        ask_first_table(dev_size, mode, header, slot, Purpose::BeforeReplay)
    } else {
        ask_first_table(dev_size, mode, header, slot, Purpose::NothingReplayed)
    }
}

/// Ask for the first region table, when the device reaches that far.
fn ask_first_table(
    dev_size: u64,
    mode: OpenMode,
    header: Header,
    slot: HeaderSlot,
    purpose: Purpose,
) -> (step: OpenStep)
    requires
        purpose is BeforeReplay ==> is_dirty(header@) && log_region_fault(
            header@,
            dev_size as int,
        ) is None,
    ensures
        step.wf(),
        step.steps_left() <= if purpose is BeforeReplay {
            9int
        } else {
            5int
        },
        forall|disk: Seq<u8>|
            disk.len() == dev_size ==> step.true_of(disk) && #[trigger] step.outcome(disk)
                == opened_with_table(disk, header@, slot, purpose, mode),
{
    if dev_size >= REGION_TABLE1_OFFSET + REGION_TABLE_SIZE as u64 {
        OpenStep::Read(
            OpenRead { dev_size, mode, want: Want::FirstTable { header, slot, purpose } },
        )
    } else {
        ask_second_table(dev_size, mode, header, slot, purpose)
    }
}

/// Ask for the second region table, when the device reaches that far.
fn ask_second_table(
    dev_size: u64,
    mode: OpenMode,
    header: Header,
    slot: HeaderSlot,
    purpose: Purpose,
) -> (step: OpenStep)
    requires
        purpose is BeforeReplay ==> is_dirty(header@) && log_region_fault(
            header@,
            dev_size as int,
        ) is None,
    ensures
        step.wf(),
        step.steps_left() <= if purpose is BeforeReplay {
            8int
        } else {
            4int
        },
        forall|disk: Seq<u8>|
            disk.len() == dev_size && table_at(disk, 0x3_0000) is None ==> step.true_of(disk)
                && #[trigger] step.outcome(disk) == opened_with_table(
                disk,
                header@,
                slot,
                purpose,
                mode,
            ),
{
    proof {
        reveal(region_table_on);
    }
    if dev_size >= REGION_TABLE2_OFFSET + REGION_TABLE_SIZE as u64 {
        OpenStep::Read(
            OpenRead { dev_size, mode, want: Want::SecondTable { header, slot, purpose } },
        )
    } else {
        without_table(dev_size, mode, header, slot, purpose)
    }
}

/// Go on when neither region table is valid.
fn without_table(
    dev_size: u64,
    mode: OpenMode,
    header: Header,
    slot: HeaderSlot,
    purpose: Purpose,
) -> (step: OpenStep)
    requires
        purpose is BeforeReplay ==> is_dirty(header@) && log_region_fault(
            header@,
            dev_size as int,
        ) is None,
    ensures
        step.wf(),
        step.steps_left() <= if purpose is BeforeReplay {
            7int
        } else {
            0int
        },
        forall|disk: Seq<u8>|
            disk.len() == dev_size && region_table_on(disk) is None ==> step.true_of(disk)
                && #[trigger] step.outcome(disk) == opened_with_table(
                disk,
                header@,
                slot,
                purpose,
                mode,
            ),
{
    match purpose {
        Purpose::BeforeReplay => OpenStep::Read(
            OpenRead { dev_size, mode, want: Want::Log { header, slot } },
        ),
        _ => OpenStep::Refused(Error::NoValidRegionTable),
    }
}

/// Go on from a valid region table.
fn with_table(
    dev_size: u64,
    mode: OpenMode,
    header: Header,
    slot: HeaderSlot,
    purpose: Purpose,
    table: &RegionTable,
) -> (step: OpenStep)
    requires
        purpose is BeforeReplay ==> is_dirty(header@) && log_region_fault(
            header@,
            dev_size as int,
        ) is None,
    ensures
        step.wf(),
        step.steps_left() <= if purpose is BeforeReplay {
            7int
        } else {
            3int
        },
        forall|disk: Seq<u8>|
            disk.len() == dev_size && region_table_on(disk) == Some(table@) ==> step.true_of(disk)
                && #[trigger] step.outcome(disk) == opened_with_table(
                disk,
                header@,
                slot,
                purpose,
                mode,
            ),
{
    let checked = match purpose {
        Purpose::BeforeReplay => check_log_overlap(&header, table),
        _ => check_layout(&header, table),
    };
    if let Err(why) = checked {
        return OpenStep::Refused(why);
    }
    let metadata: Option<RegionEntry> = match table.find(&guids::METADATA) {
        Some(r) => Some(*r),
        None => None,
    };
    let bat: Option<RegionEntry> = match table.find(&guids::BAT) {
        Some(r) => Some(*r),
        None => None,
    };
    assert(region_view(metadata) == region_named(table@, guids::METADATA@));
    assert(region_view(bat) == region_named(table@, guids::BAT@));
    match purpose {
        Purpose::BeforeReplay => OpenStep::Read(
            OpenRead { dev_size, mode, want: Want::Log { header, slot } },
        ),
        Purpose::NothingReplayed => ask_metadata(dev_size, mode, header, slot, metadata, bat),
        Purpose::AfterReplay => {
            let ops: Vec<DeviceOp> = clear_log(&header, slot);
            OpenStep::Apply(
                OpenApply { mode, header, slot, ops, follow: Follow::Regions { metadata, bat } },
            )
        },
    }
}

/// Plan to mark a replayed log as consumed.
fn clear_log(header: &Header, slot: HeaderSlot) -> (ops: Vec<DeviceOp>)
    ensures
        op_views(ops@) == clearing_ops(header@, slot),
{
    let mut cleared: Header = *header;
    cleared.sequence_number = header.sequence_number.wrapping_add(1);
    cleared.log_guid = [0u8; 16];
    assert(cleared.log_guid@ =~= zeros(16));
    assert(cleared@ == log_cleared(header@));
    let mut ops: Vec<DeviceOp> = Vec::new();
    ops.push(DeviceOp::Zeros { offset: header.log_offset, len: header.log_length as u64 });
    ops.push(DeviceOp::Flush);
    ops.push(DeviceOp::Write { offset: slot.other().offset(), data: encode_header(&cleared) });
    ops.push(DeviceOp::Flush);
    assert(op_views(ops@) =~= clearing_ops(header@, slot));
    ops
}

/// Ask for the metadata region.
fn ask_metadata(
    dev_size: u64,
    mode: OpenMode,
    header: Header,
    slot: HeaderSlot,
    metadata: Option<RegionEntry>,
    bat: Option<RegionEntry>,
) -> (step: OpenStep)
    ensures
        step.wf(),
        step.steps_left() <= 2,
        forall|disk: Seq<u8>|
            disk.len() == dev_size ==> step.true_of(disk) && #[trigger] step.outcome(disk)
                == opened_with_regions(
                disk,
                header@,
                slot,
                region_view(metadata),
                region_view(bat),
                mode,
            ),
{
    match metadata {
        None => OpenStep::Refused(Error::Corrupt("metadata region missing")),
        Some(metadata) => if !in_file(&metadata, dev_size) {
            OpenStep::Refused(Error::Corrupt("metadata region reaches past the end of the file"))
        } else {
            OpenStep::Read(
                OpenRead { dev_size, mode, want: Want::Metadata { header, slot, metadata, bat } },
            )
        },
    }
}

/// Ask for the BAT region.
fn ask_bat(
    dev_size: u64,
    mode: OpenMode,
    header: Header,
    slot: HeaderSlot,
    geometry: Geometry,
    bat: RegionEntry,
) -> (step: OpenStep)
    requires
        geometry.wf(),
    ensures
        step.wf(),
        step.steps_left() <= 1,
        forall|disk: Seq<u8>|
            disk.len() == dev_size ==> step.true_of(disk) && #[trigger] step.outcome(disk)
                == opened_with_bat(disk, header@, slot, geometry, bat@, mode),
{
    if !in_file(&bat, dev_size) {
        return OpenStep::Refused(Error::Corrupt("BAT region reaches past the end of the file"));
    }
    if let Err(why) = check_bat_length(bat.length, &geometry) {
        return OpenStep::Refused(why);
    }
    OpenStep::Read(OpenRead { dev_size, mode, want: Want::Bat { header, slot, geometry, bat } })
}

/// Go on from the bytes of the log region.
fn with_log(
    dev_size: u64,
    mode: OpenMode,
    header: Header,
    slot: HeaderSlot,
    log: &[u8],
) -> (step: OpenStep)
    ensures
        step.wf(),
        step.steps_left() <= 6,
        forall|disk: Seq<u8>|
            disk.len() == dev_size && disk.subrange(
                header.log_offset as int,
                header.log_offset + header.log_length,
            ) == log@ ==> step.true_of(disk) && #[trigger] step.outcome(disk) == opened_with_log(
                disk,
                header@,
                slot,
                mode,
            ),
{
    let chain: Vec<LogEntry> = collect_replay_chain(log, &header.log_guid);
    if chain.len() == 0 {
        return ask_first_table(dev_size, mode, header, slot, Purpose::NothingReplayed);
    }
    let extent: u64 = extent_of(chain.as_slice(), dev_size);
    if !stays_within(chain.as_slice(), extent) {
        return OpenStep::Refused(Error::Corrupt("log entry writes past the end of the file"));
    }
    let ops: Vec<DeviceOp> = apply_chain(chain.as_slice());
    let step = OpenStep::Apply(OpenApply { mode, header, slot, ops, follow: Follow::Tables });
    assert forall|disk: Seq<u8>|
        disk.len() == dev_size && disk.subrange(
            header.log_offset as int,
            header.log_offset + header.log_length,
        ) == log@ implies #[trigger] step.outcome(disk) == opened_with_log(
        disk,
        header@,
        slot,
        mode,
    ) by {
        assert(after_ops(disk, op_views(ops@)) == replayed(disk, entry_views(chain@)));
    }
    step
}

/// The header that a slot holds, if it is a valid one.
fn header_in(bytes: &[u8]) -> (h: Option<Header>)
    ensures
        header_view(h) == match header_meaning(bytes@) {
            Ok(h) => Some(h),
            Err(_) => None,
        },
{
    match Header::parse(bytes) {
        Ok(h) => Some(h),
        Err(_) => None,
    }
}

impl OpenRead {
    /// Answer the request with the bytes that were read.
    pub fn supply(self, data: Vec<u8>) -> (step: OpenStep)
        requires
            self.wf(),
            data@.len() == self.size(),
        ensures
            step.wf(),
            step.steps_left() < self.steps_left(),
            forall|disk: Seq<u8>|
                #![trigger step.outcome(disk)]
                #![trigger self.outcome(disk)]
                self.true_of(disk) && self.start() + self.size() <= disk.len() && disk.subrange(
                    self.start(),
                    self.start() + self.size(),
                ) == data@ ==> step.true_of(disk) && step.outcome(disk) == self.outcome(disk),
    {
        let dev_size: u64 = self.dev_size;
        let mode: OpenMode = self.mode;
        proof {
            reveal(slot_header);
            reveal(region_table_on);
        }
        match self.want {
            Want::Identifier => {
                let signature: [u8; 8] = FILE_IDENTIFIER_SIGNATURE;
                assert(data@.subrange(0, 8) =~= data@);
                if !matches_at(data.as_slice(), 0, signature.as_slice()) {
                    OpenStep::Refused(Error::NotVhdx)
                } else {
                    ask_first_header(dev_size, mode)
                }
            },
            Want::FirstHeader => {
                let first: Option<Header> = header_in(data.as_slice());
                ask_second_header(dev_size, mode, first)
            },
            Want::SecondHeader { first } => {
                let second: Option<Header> = header_in(data.as_slice());
                choose_header(dev_size, mode, first, second)
            },
            Want::FirstTable { header, slot, purpose } => {
                match RegionTable::parse(data.as_slice()) {
                    Ok(table) => with_table(dev_size, mode, header, slot, purpose, &table),
                    Err(_) => ask_second_table(dev_size, mode, header, slot, purpose),
                }
            },
            Want::SecondTable { header, slot, purpose } => {
                match RegionTable::parse(data.as_slice()) {
                    Ok(table) => with_table(dev_size, mode, header, slot, purpose, &table),
                    Err(_) => without_table(dev_size, mode, header, slot, purpose),
                }
            },
            Want::Log { header, slot } => with_log(dev_size, mode, header, slot, data.as_slice()),
            Want::Metadata { header, slot, bat, .. } => match read_geometry(data) {
                Err(why) => OpenStep::Refused(why),
                Ok(geometry) => match bat {
                    None => OpenStep::Refused(Error::Corrupt("BAT region missing")),
                    Some(bat) => ask_bat(dev_size, mode, header, slot, geometry, bat),
                },
            },
            Want::Bat { header, slot, geometry, bat } => {
                let entries = decode_bat(data.as_slice());
                let reader = VhdxReader::assemble(
                    dev_size,
                    header,
                    slot,
                    geometry,
                    bat.file_offset,
                    entries,
                    mode.writable,
                );
                OpenStep::Opened(reader)
            },
        }
    }
}

impl OpenApply {
    /// Go on once the operations were carried out; the device has `dev_size` bytes now.
    pub fn applied(self, dev_size: u64) -> (step: OpenStep)
        ensures
            step.wf(),
            step.steps_left() < self.steps_left(),
            forall|disk: Seq<u8>|
                #![trigger step.outcome(disk)]
                #![trigger self.outcome_after(disk)]
                disk.len() == dev_size ==> step.true_of(disk) && step.outcome(disk)
                    == self.outcome_after(disk),
    {
        match self.follow {
            Follow::Tables => ask_first_table(
                dev_size,
                self.mode,
                self.header,
                self.slot,
                Purpose::AfterReplay,
            ),
            Follow::Regions { metadata, bat } => ask_metadata(
                dev_size,
                self.mode,
                self.header,
                self.slot,
                metadata,
                bat,
            ),
        }
    }
}

/// What is left of a dialogue is counted down to zero.
pub proof fn lemma_steps_are_counted(step: OpenStep)
    ensures
        0 <= step.steps_left(),
{
}

} // verus!

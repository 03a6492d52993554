//! Encoding new log entries.
//!
//! The writer commits every change of the BAT through the log first. An encoded entry
//! holds one "desc" descriptor per pending write and can be put at any sector-aligned
//! position of the log region.
use crate::bytes::{all_zero, lemma_subrange_of_subrange, push_bytes, push_zeros, splice, zeros};
use crate::checksum::{checksum_of, lemma_sealed, seal, sealed};
use crate::endian::{le32, le32_bytes, le64, le64_bytes, lemma_le32_bytes};
use crate::endian::{lemma_le32_of_equal_bytes, lemma_le64_bytes, lemma_le64_of_equal_bytes};
use crate::endian::{push_u32_le, push_u64_le};
use crate::log::{data_sector_start, data_sectors_before, descriptor_at, descriptor_sound};
use crate::log::{descriptor_start, entry_meaning, is_data_sector, parse_log_entry, round_up_sector};
use crate::log::{sector_ceiling, slot_length, slot_meaning, Descriptor, DescriptorView};
use crate::log::{EntryReject, EntryView, ParseOutcome, DATA_DESC_SIGNATURE, DATA_SECTOR_SIGNATURE};
use crate::log::{LOG_DESCRIPTOR_SIZE, LOG_ENTRY_HEADER_SIZE, LOG_ENTRY_SIGNATURE, LOG_SECTOR_SIZE};
use crate::log::ZERO_DESC_SIGNATURE;
use crate::log::chain::{entries_from, lemma_lone_entry, lemma_zeros_end_the_scan, replay_chain};
use vstd::prelude::*;
use vstd::slice::slice_subrange;

verus! {

/// One pending data write the encoder will turn into a "desc" descriptor.
#[derive(Debug, Clone)]
pub struct PendingWrite {
    pub file_offset: u64,
    /// Exactly 4 KiB.
    pub sector: Vec<u8>,
}

/// What a [`PendingWrite`] says.
#[verifier::ext_equal]
pub struct WriteView {
    pub file_offset: int,
    pub sector: Seq<u8>,
}

impl View for PendingWrite {
    type V = WriteView;

    open spec fn view(&self) -> WriteView {
        WriteView { file_offset: self.file_offset as int, sector: self.sector@ }
    }
}

/// What a list of pending writes says.
pub open spec fn write_views(writes: Seq<PendingWrite>) -> Seq<WriteView> {
    Seq::new(writes.len(), |i: int| writes[i]@)
}

/// The fixed fields of an entry that is being encoded.
pub ghost struct EntryFields {
    pub sequence_number: int,
    pub tail: int,
    pub log_guid: Seq<u8>,
    pub flushed_file_offset: int,
    pub last_file_offset: int,
}

/// Where the data sectors start in an entry of `n` "desc" descriptors.
pub open spec fn sectors_start(n: int) -> int {
    sector_ceiling(descriptor_start(n))
}

/// The length of an entry of `n` "desc" descriptors.
pub open spec fn encoded_length(n: int) -> int {
    sectors_start(n) + 4096 * n
}

/// The first 64 bytes of an entry of `n` "desc" descriptors, with the checksum field
/// zero. The length field holds the low 32 bits of the length.
#[verifier::opaque]
pub open spec fn entry_header(fields: EntryFields, n: int) -> Seq<u8> {
    LOG_ENTRY_SIGNATURE@ + zeros(4) + le32_bytes(encoded_length(n) % 0x1_0000_0000) + le32_bytes(
        fields.tail,
    ) + le64_bytes(fields.sequence_number) + le32_bytes(n) + zeros(4) + fields.log_guid
        + le64_bytes(fields.flushed_file_offset) + le64_bytes(fields.last_file_offset)
}

/// The 32 bytes of the descriptor that announces the write `w`: the bytes that the
/// stamps of its data sector displace are kept here.
#[verifier::opaque]
pub open spec fn descriptor_bytes(w: WriteView, seq: int) -> Seq<u8> {
    DATA_DESC_SIGNATURE@ + w.sector.subrange(4092, 4096) + w.sector.subrange(0, 8) + le64_bytes(
        w.file_offset,
    ) + le64_bytes(seq)
}

/// The descriptors that announce `writes`, one after the other.
pub open spec fn descriptor_table(writes: Seq<WriteView>, seq: int) -> Seq<u8>
    decreases writes.len(),
{
    if writes.len() == 0 {
        Seq::empty()
    } else {
        descriptor_table(writes.drop_last(), seq) + descriptor_bytes(writes.last(), seq)
    }
}

/// The 4 KiB of a data sector: the payload, with the stamps over its first eight and its
/// last four bytes.
#[verifier::opaque]
pub open spec fn stamped_sector(sector: Seq<u8>, seq: int) -> Seq<u8> {
    DATA_SECTOR_SIGNATURE@ + le32_bytes(seq / 0x1_0000_0000) + sector.subrange(8, 4092)
        + le32_bytes(seq % 0x1_0000_0000)
}

/// The data sectors of `writes`, one after the other.
pub open spec fn data_sectors(writes: Seq<WriteView>, seq: int) -> Seq<u8>
    decreases writes.len(),
{
    if writes.len() == 0 {
        Seq::empty()
    } else {
        data_sectors(writes.drop_last(), seq) + stamped_sector(writes.last().sector, seq)
    }
}

/// The log entry with these fields that announces `writes`, with its checksum field zero.
#[verifier::opaque]
pub open spec fn unsealed_entry(fields: EntryFields, writes: Seq<WriteView>) -> Seq<u8> {
    let n = writes.len() as int;
    entry_header(fields, n) + descriptor_table(writes, fields.sequence_number) + zeros(
        (sectors_start(n) - descriptor_start(n)) as nat,
    ) + data_sectors(writes, fields.sequence_number)
}

/// The log entry with these fields that announces `writes`.
#[verifier::opaque]
pub open spec fn entry_bytes(fields: EntryFields, writes: Seq<WriteView>) -> Seq<u8> {
    sealed(unsealed_entry(fields, writes))
}

impl EntryFields {
    /// Whether every field has the width that the entry header gives it.
    pub open spec fn fits(self) -> bool {
        &&& 0 <= self.sequence_number <= u64::MAX
        &&& 0 <= self.tail <= u32::MAX
        &&& self.log_guid.len() == 16
        &&& 0 <= self.flushed_file_offset <= u64::MAX
        &&& 0 <= self.last_file_offset <= u64::MAX
    }
}

/// Whether every pending write is of one whole sector, at an offset of 64 bits.
pub open spec fn whole_sectors(writes: Seq<WriteView>) -> bool {
    forall|i: int|
        0 <= i < writes.len() ==> (#[trigger] writes[i]).sector.len() == 4096 && 0
            <= writes[i].file_offset <= u64::MAX
}

/// Append the descriptor that announces `w`.
fn push_descriptor(buf: &mut Vec<u8>, w: &PendingWrite, sequence_number: u64)
    requires
        w.sector.len() == 4096,
    ensures
        final(buf)@ == old(buf)@ + descriptor_bytes(w@, sequence_number as int),
{
    let signature: [u8; 4] = DATA_DESC_SIGNATURE;
    let sector: &[u8] = w.sector.as_slice();
    push_bytes(buf, signature.as_slice());
    push_bytes(buf, slice_subrange(sector, LOG_SECTOR_SIZE - 4, LOG_SECTOR_SIZE));
    push_bytes(buf, slice_subrange(sector, 0, 8));
    push_u64_le(buf, w.file_offset);
    push_u64_le(buf, sequence_number);
    proof {
        reveal(descriptor_bytes);
    }
    assert(buf@ =~= old(buf)@ + descriptor_bytes(w@, sequence_number as int));
}

/// Append the data sector of `w`: the payload between its stamps. The reader undoes the
/// stamps with the bytes that the descriptor keeps.
fn push_sector(buf: &mut Vec<u8>, w: &PendingWrite, sequence_number: u64)
    requires
        w.sector.len() == 4096,
    ensures
        final(buf)@ == old(buf)@ + stamped_sector(w.sector@, sequence_number as int),
{
    let signature: [u8; 4] = DATA_SECTOR_SIGNATURE;
    let sector: &[u8] = w.sector.as_slice();
    push_bytes(buf, signature.as_slice());
    push_u32_le(buf, (sequence_number / 0x1_0000_0000) as u32);
    push_bytes(buf, slice_subrange(sector, 8, LOG_SECTOR_SIZE - 4));
    push_u32_le(buf, (sequence_number % 0x1_0000_0000) as u32);
    proof {
        reveal(stamped_sector);
    }
    assert(buf@ =~= old(buf)@ + stamped_sector(w.sector@, sequence_number as int));
}

/// Start an entry of `n` descriptors with its header. The checksum is filled in last.
fn push_entry_header(
    buf: &mut Vec<u8>,
    sequence_number: u64,
    tail: u32,
    log_guid: &[u8; 16],
    flushed_file_offset: u64,
    last_file_offset: u64,
    n: u32,
    entry_length: u64,
)
    requires
        old(buf).len() == 0,
        entry_length == encoded_length(n as int),
    ensures
        final(buf)@ == entry_header(
            (EntryFields {
                sequence_number: sequence_number as int,
                tail: tail as int,
                log_guid: log_guid@,
                flushed_file_offset: flushed_file_offset as int,
                last_file_offset: last_file_offset as int,
            }),
            n as int,
        ),
        final(buf).len() == 64,
{
    let signature: [u8; 4] = LOG_ENTRY_SIGNATURE;
    push_bytes(buf, signature.as_slice());
    assert(buf@ =~= LOG_ENTRY_SIGNATURE@);
    push_zeros(buf, 4);
    push_u32_le(buf, (entry_length % 0x1_0000_0000) as u32);
    push_u32_le(buf, tail);
    push_u64_le(buf, sequence_number);
    push_u32_le(buf, n);
    push_zeros(buf, 4);
    push_bytes(buf, log_guid.as_slice());
    push_u64_le(buf, flushed_file_offset);
    push_u64_le(buf, last_file_offset);
    proof {
        let fields = EntryFields {
            sequence_number: sequence_number as int,
            tail: tail as int,
            log_guid: log_guid@,
            flushed_file_offset: flushed_file_offset as int,
            last_file_offset: last_file_offset as int,
        };
        assert(buf@ == entry_header(fields, n as int)) by {
            reveal(entry_header);
        }
        lemma_header_layout(fields, n as int);
    }
}

/// Encode a single log entry that, when replayed, applies `writes` to the device.
pub fn encode_entry(
    sequence_number: u64,
    tail: u32,
    log_guid: &[u8; 16],
    flushed_file_offset: u64,
    last_file_offset: u64,
    writes: &[PendingWrite],
) -> (e: Vec<u8>)
    requires
        writes.len() <= u32::MAX,
        encoded_length(writes.len() as int) <= usize::MAX,
        forall|i: int| 0 <= i < writes.len() ==> (#[trigger] writes@[i]).sector.len() == 4096,
    ensures
        e@ == entry_bytes(
            (EntryFields {
                sequence_number: sequence_number as int,
                tail: tail as int,
                log_guid: log_guid@,
                flushed_file_offset: flushed_file_offset as int,
                last_file_offset: last_file_offset as int,
            }),
            write_views(writes@),
        ),
{
    let n: usize = writes.len();
    let ghost fields = EntryFields {
        sequence_number: sequence_number as int,
        tail: tail as int,
        log_guid: log_guid@,
        flushed_file_offset: flushed_file_offset as int,
        last_file_offset: last_file_offset as int,
    };
    let ghost views = write_views(writes@);
    let header_and_descriptors: usize = LOG_ENTRY_HEADER_SIZE + n * LOG_DESCRIPTOR_SIZE;
    let base: usize = round_up_sector(header_and_descriptors);
    let entry_length: usize = base + n * LOG_SECTOR_SIZE;
    let mut buf: Vec<u8> = Vec::with_capacity(entry_length);
    push_entry_header(
        &mut buf,
        sequence_number,
        tail,
        log_guid,
        flushed_file_offset,
        last_file_offset,
        n as u32,
        entry_length as u64,
    );
    let ghost header = entry_header(fields, n as int);

    // Descriptors, up to the next sector boundary.
    let mut i: usize = 0;
    assert(buf@ =~= header + descriptor_table(views.take(0), sequence_number as int));
    while i < n
        invariant
            i <= n,
            n == writes.len(),
            forall|k: int| 0 <= k < n ==> (#[trigger] writes@[k]).sector.len() == 4096,
            views == write_views(writes@),
            buf@ == header + descriptor_table(views.take(i as int), sequence_number as int),
        decreases n - i,
    {
        push_descriptor(&mut buf, &writes[i], sequence_number);
        i += 1;
        assert(views.take(i as int).drop_last() =~= views.take(i - 1));
        assert(buf@ =~= header + descriptor_table(views.take(i as int), sequence_number as int));
    }
    push_zeros(&mut buf, base - header_and_descriptors);

    // Data sectors.
    let ghost front = buf@;
    i = 0;
    assert(buf@ =~= front + data_sectors(views.take(0), sequence_number as int));
    while i < n
        invariant
            i <= n,
            n == writes.len(),
            forall|k: int| 0 <= k < n ==> (#[trigger] writes@[k]).sector.len() == 4096,
            views == write_views(writes@),
            buf@ == front + data_sectors(views.take(i as int), sequence_number as int),
        decreases n - i,
    {
        push_sector(&mut buf, &writes[i], sequence_number);
        i += 1;
        assert(views.take(i as int).drop_last() =~= views.take(i - 1));
        assert(buf@ =~= front + data_sectors(views.take(i as int), sequence_number as int));
    }
    assert(views.take(n as int) =~= views);
    proof {
        reveal(unsealed_entry);
        reveal(entry_bytes);
    }
    seal(&mut buf);
    buf
}

/// Where the fields lie in an entry header.
proof fn lemma_header_layout(fields: EntryFields, n: int)
    requires
        fields.log_guid.len() == 16,
    ensures
        ({
            let h = entry_header(fields, n);
            &&& h.len() == 64
            &&& h.subrange(0, 4) == LOG_ENTRY_SIGNATURE@
            &&& h.subrange(8, 12) == le32_bytes(encoded_length(n) % 0x1_0000_0000)
            &&& h.subrange(12, 16) == le32_bytes(fields.tail)
            &&& h.subrange(16, 24) == le64_bytes(fields.sequence_number)
            &&& h.subrange(24, 28) == le32_bytes(n)
            &&& h.subrange(32, 48) == fields.log_guid
            &&& h.subrange(48, 56) == le64_bytes(fields.flushed_file_offset)
            &&& h.subrange(56, 64) == le64_bytes(fields.last_file_offset)
        }),
{
    reveal(entry_header);
    let h = entry_header(fields, n);
    assert(h.subrange(0, 4) =~= LOG_ENTRY_SIGNATURE@);
    assert(h.subrange(8, 12) =~= le32_bytes(encoded_length(n) % 0x1_0000_0000));
    assert(h.subrange(12, 16) =~= le32_bytes(fields.tail));
    assert(h.subrange(16, 24) =~= le64_bytes(fields.sequence_number));
    assert(h.subrange(24, 28) =~= le32_bytes(n));
    assert(h.subrange(32, 48) =~= fields.log_guid);
    assert(h.subrange(48, 56) =~= le64_bytes(fields.flushed_file_offset));
    assert(h.subrange(56, 64) =~= le64_bytes(fields.last_file_offset));
}

/// Where the fields lie in a descriptor.
proof fn lemma_descriptor_layout(w: WriteView, seq: int)
    requires
        w.sector.len() == 4096,
    ensures
        ({
            let d = descriptor_bytes(w, seq);
            &&& d.len() == 32
            &&& d.subrange(0, 4) == DATA_DESC_SIGNATURE@
            &&& d.subrange(4, 8) == w.sector.subrange(4092, 4096)
            &&& d.subrange(8, 16) == w.sector.subrange(0, 8)
            &&& d.subrange(16, 24) == le64_bytes(w.file_offset)
            &&& d.subrange(24, 32) == le64_bytes(seq)
        }),
{
    reveal(descriptor_bytes);
    let d = descriptor_bytes(w, seq);
    assert(d.subrange(0, 4) =~= DATA_DESC_SIGNATURE@);
    assert(d.subrange(4, 8) =~= w.sector.subrange(4092, 4096));
    assert(d.subrange(8, 16) =~= w.sector.subrange(0, 8));
    assert(d.subrange(16, 24) =~= le64_bytes(w.file_offset));
    assert(d.subrange(24, 32) =~= le64_bytes(seq));
}

/// Where the stamps lie in a data sector, and that undoing them gives the payload back.
proof fn lemma_stamped_layout(sector: Seq<u8>, seq: int)
    requires
        sector.len() == 4096,
    ensures
        ({
            let s = stamped_sector(sector, seq);
            &&& s.len() == 4096
            &&& s.subrange(0, 4) == DATA_SECTOR_SIGNATURE@
            &&& s.subrange(4, 8) == le32_bytes(seq / 0x1_0000_0000)
            &&& s.subrange(4092, 4096) == le32_bytes(seq % 0x1_0000_0000)
            &&& splice(
                splice(s, 0, sector.subrange(0, 8)),
                4092,
                sector.subrange(4092, 4096),
            ) == sector
        }),
{
    reveal(stamped_sector);
    let s = stamped_sector(sector, seq);
    assert(s.subrange(0, 4) =~= DATA_SECTOR_SIGNATURE@);
    assert(s.subrange(4, 8) =~= le32_bytes(seq / 0x1_0000_0000));
    assert(s.subrange(4092, 4096) =~= le32_bytes(seq % 0x1_0000_0000));
    assert(splice(splice(s, 0, sector.subrange(0, 8)), 4092, sector.subrange(4092, 4096))
        =~= sector);
}

/// Where the descriptors lie in a descriptor table.
proof fn lemma_descriptor_table(writes: Seq<WriteView>, seq: int)
    requires
        whole_sectors(writes),
    ensures
        descriptor_table(writes, seq).len() == 32 * writes.len(),
        forall|i: int|
            0 <= i < writes.len() ==> descriptor_table(writes, seq).subrange(32 * i, 32 * i + 32)
                == descriptor_bytes(#[trigger] writes[i], seq),
    decreases writes.len(),
{
    if writes.len() > 0 {
        let n = writes.len() as int;
        let before = descriptor_table(writes.drop_last(), seq);
        let last = descriptor_bytes(writes.last(), seq);
        let table = descriptor_table(writes, seq);
        assert(whole_sectors(writes.drop_last())) by {
            assert forall|i: int| 0 <= i < n - 1 implies (
            #[trigger] writes.drop_last()[i]).sector.len() == 4096 && 0
                <= writes.drop_last()[i].file_offset <= u64::MAX by {
                assert(writes.drop_last()[i] == writes[i]);
            }
        }
        assert(writes[n - 1].sector.len() == 4096);
        lemma_descriptor_table(writes.drop_last(), seq);
        lemma_descriptor_layout(writes.last(), seq);
        assert forall|i: int| 0 <= i < n implies table.subrange(32 * i, 32 * i + 32)
            == descriptor_bytes(#[trigger] writes[i], seq) by {
            if i < n - 1 {
                assert(writes.drop_last()[i] == writes[i]);
                assert(table.subrange(32 * i, 32 * i + 32) =~= before.subrange(
                    32 * i,
                    32 * i + 32,
                ));
            } else {
                assert(table.subrange(32 * i, 32 * i + 32) =~= last);
            }
        }
    }
}

/// Where the data sectors lie in their run.
proof fn lemma_data_sectors(writes: Seq<WriteView>, seq: int)
    requires
        whole_sectors(writes),
    ensures
        data_sectors(writes, seq).len() == 4096 * writes.len(),
        forall|i: int|
            0 <= i < writes.len() ==> data_sectors(writes, seq).subrange(
                4096 * i,
                4096 * i + 4096,
            ) == stamped_sector((#[trigger] writes[i]).sector, seq),
    decreases writes.len(),
{
    if writes.len() > 0 {
        let n = writes.len() as int;
        let before = data_sectors(writes.drop_last(), seq);
        let last = stamped_sector(writes.last().sector, seq);
        let run = data_sectors(writes, seq);
        assert(whole_sectors(writes.drop_last())) by {
            assert forall|i: int| 0 <= i < n - 1 implies (
            #[trigger] writes.drop_last()[i]).sector.len() == 4096 && 0
                <= writes.drop_last()[i].file_offset <= u64::MAX by {
                assert(writes.drop_last()[i] == writes[i]);
            }
        }
        assert(writes[n - 1].sector.len() == 4096);
        lemma_data_sectors(writes.drop_last(), seq);
        lemma_stamped_layout(writes.last().sector, seq);
        assert forall|i: int| 0 <= i < n implies run.subrange(4096 * i, 4096 * i + 4096)
            == stamped_sector((#[trigger] writes[i]).sector, seq) by {
            if i < n - 1 {
                assert(writes.drop_last()[i] == writes[i]);
                assert(run.subrange(4096 * i, 4096 * i + 4096) =~= before.subrange(
                    4096 * i,
                    4096 * i + 4096,
                ));
            } else {
                assert(run.subrange(4096 * i, 4096 * i + 4096) =~= last);
            }
        }
    }
}

/// The parts of an encoded entry: its length and checksum, its header, and where
/// descriptor and data sector `i` lie.
proof fn lemma_entry_parts(fields: EntryFields, writes: Seq<WriteView>, i: int)
    requires
        fields.fits(),
        whole_sectors(writes),
    ensures
        ({
            let e = entry_bytes(fields, writes);
            let n = writes.len() as int;
            let d = descriptor_start(i);
            let at = sectors_start(n) + 4096 * i;
            &&& e.len() == encoded_length(n)
            &&& le32(e, 4) == checksum_of(e)
            &&& e.subrange(0, 4) == LOG_ENTRY_SIGNATURE@
            &&& e.subrange(8, 64) == entry_header(fields, n).subrange(8, 64)
            &&& 0 <= i < n ==> e.subrange(d, d + 32) == descriptor_bytes(
                writes[i],
                fields.sequence_number,
            )
            &&& 0 <= i < n ==> e.subrange(at, at + 4096) == stamped_sector(
                writes[i].sector,
                fields.sequence_number,
            )
        }),
{
    reveal(entry_bytes);
    reveal(unsealed_entry);
    let n = writes.len() as int;
    let seq = fields.sequence_number;
    let e = entry_bytes(fields, writes);
    let body = unsealed_entry(fields, writes);
    let header = entry_header(fields, n);
    let table = descriptor_table(writes, seq);
    let run = data_sectors(writes, seq);
    lemma_header_layout(fields, n);
    lemma_descriptor_table(writes, seq);
    lemma_data_sectors(writes, seq);
    assert(sectors_start(n) >= descriptor_start(n));
    assert(body.len() == encoded_length(n));
    lemma_sealed(body);
    assert(e.subrange(0, 4) =~= header.subrange(0, 4));
    assert(e.subrange(8, 64) =~= header.subrange(8, 64));
    if 0 <= i < n {
        let d = descriptor_start(i);
        let at = sectors_start(n) + 4096 * i;
        assert(e.subrange(d, d + 32) =~= table.subrange(32 * i, 32 * i + 32));
        assert(e.subrange(at, at + 4096) =~= run.subrange(4096 * i, 4096 * i + 4096));
        assert(writes[i] == writes[i]);
    }
}

/// The length of an encoded entry.
pub proof fn lemma_entry_length(fields: EntryFields, writes: Seq<WriteView>)
    requires
        fields.fits(),
        whole_sectors(writes),
    ensures
        entry_bytes(fields, writes).len() == encoded_length(writes.len() as int),
{
    lemma_entry_parts(fields, writes, 0);
}

/// The fixed fields of an encoded entry.
proof fn lemma_entry_fields(fields: EntryFields, writes: Seq<WriteView>)
    requires
        fields.fits(),
        whole_sectors(writes),
        writes.len() <= u32::MAX,
    ensures
        ({
            let e = entry_bytes(fields, writes);
            &&& le32(e, 8) == e.len() % 0x1_0000_0000
            &&& le32(e, 12) == fields.tail
            &&& le64(e, 16) == fields.sequence_number
            &&& le32(e, 24) == writes.len()
            &&& e.subrange(32, 48) == fields.log_guid
            &&& le64(e, 48) == fields.flushed_file_offset
            &&& le64(e, 56) == fields.last_file_offset
        }),
{
    let n = writes.len() as int;
    let e = entry_bytes(fields, writes);
    let h = entry_header(fields, n);
    lemma_entry_parts(fields, writes, 0);
    lemma_header_layout(fields, n);
    lemma_same_part(e, h, 8, 64, 8, 12);
    lemma_same_part(e, h, 8, 64, 12, 16);
    lemma_same_part(e, h, 8, 64, 16, 24);
    lemma_same_part(e, h, 8, 64, 24, 28);
    lemma_same_part(e, h, 8, 64, 32, 48);
    lemma_same_part(e, h, 8, 64, 48, 56);
    lemma_same_part(e, h, 8, 64, 56, 64);
    lemma_stored32(e, 8, encoded_length(n) % 0x1_0000_0000);
    lemma_stored32(e, 12, fields.tail);
    lemma_stored64(e, 16, fields.sequence_number);
    lemma_stored32(e, 24, n);
    lemma_stored64(e, 48, fields.flushed_file_offset);
    lemma_stored64(e, 56, fields.last_file_offset);
}

/// Two buffers that agree on a part agree on every part of it.
proof fn lemma_same_part(a: Seq<u8>, b: Seq<u8>, from: int, to: int, at: int, end: int)
    requires
        0 <= from <= at <= end <= to <= a.len(),
        to <= b.len(),
        a.subrange(from, to) == b.subrange(from, to),
    ensures
        a.subrange(at, end) == b.subrange(at, end),
{
    lemma_subrange_of_subrange(a, from, to - from, at - from, end - from);
    lemma_subrange_of_subrange(b, from, to - from, at - from, end - from);
}

/// Four bytes that hold `v` read as `v`.
proof fn lemma_stored32(e: Seq<u8>, at: int, v: int)
    requires
        0 <= at <= e.len() - 4,
        0 <= v < 0x1_0000_0000,
        e.subrange(at, at + 4) == le32_bytes(v),
    ensures
        le32(e, at) == v,
{
    assert(le32_bytes(v).subrange(0, 4) =~= le32_bytes(v));
    lemma_le32_of_equal_bytes(e, at, le32_bytes(v), 0);
    lemma_le32_bytes(v);
}

/// Eight bytes that hold `v` read as `v`.
proof fn lemma_stored64(e: Seq<u8>, at: int, v: int)
    requires
        0 <= at <= e.len() - 8,
        0 <= v < 0x1_0000_0000_0000_0000,
        e.subrange(at, at + 8) == le64_bytes(v),
    ensures
        le64(e, at) == v,
{
    assert(le64_bytes(v).subrange(0, 8) =~= le64_bytes(v));
    lemma_le64_of_equal_bytes(e, at, le64_bytes(v), 0);
    lemma_le64_bytes(v);
}

/// What the entry with these fields that announces `writes` says, lying at `pos`.
pub open spec fn encoded_view(fields: EntryFields, writes: Seq<WriteView>, pos: int) -> EntryView {
    EntryView {
        entry_length: encoded_length(writes.len() as int),
        tail: fields.tail,
        sequence_number: fields.sequence_number,
        log_guid: fields.log_guid,
        flushed_file_offset: fields.flushed_file_offset,
        last_file_offset: fields.last_file_offset,
        descriptors: Seq::new(
            writes.len(),
            |i: int|
                DescriptorView::Data {
                    trailing_bytes: le32(writes[i].sector, 4092),
                    leading_bytes: le64(writes[i].sector, 0),
                    file_offset: writes[i].file_offset,
                    sequence_number: fields.sequence_number,
                    sector: writes[i].sector,
                },
        ),
        offset: pos,
    }
}

/// Every descriptor of an encoded entry owns a data sector.
proof fn lemma_sectors_in_order(fields: EntryFields, writes: Seq<WriteView>, i: int)
    requires
        fields.fits(),
        whole_sectors(writes),
        0 <= i <= writes.len(),
    ensures
        data_sectors_before(entry_bytes(fields, writes), i) == i,
    decreases i,
{
    if i > 0 {
        let e = entry_bytes(fields, writes);
        let d = descriptor_start(i - 1);
        lemma_sectors_in_order(fields, writes, i - 1);
        lemma_entry_parts(fields, writes, i - 1);
        assert(writes[i - 1].sector.len() == 4096);
        lemma_descriptor_layout(writes[i - 1], fields.sequence_number);
        lemma_subrange_of_subrange(e, d, 32, 0, 4);
    }
}

/// Descriptor `i` of an encoded entry says what the write it announces says.
proof fn lemma_descriptor_fields(fields: EntryFields, writes: Seq<WriteView>, i: int)
    requires
        fields.fits(),
        whole_sectors(writes),
        0 <= i < writes.len(),
    ensures
        ({
            let e = entry_bytes(fields, writes);
            let d = descriptor_start(i);
            let w = writes[i];
            &&& d + 32 <= e.len()
            &&& e.subrange(d, d + 4) == DATA_DESC_SIGNATURE@
            &&& e.subrange(d + 4, d + 8) == w.sector.subrange(4092, 4096)
            &&& e.subrange(d + 8, d + 16) == w.sector.subrange(0, 8)
            &&& le32(e, d + 4) == le32(w.sector, 4092)
            &&& le64(e, d + 8) == le64(w.sector, 0)
            &&& le64(e, d + 16) == w.file_offset
            &&& le64(e, d + 24) == fields.sequence_number
        }),
{
    let e = entry_bytes(fields, writes);
    let w = writes[i];
    let d = descriptor_start(i);
    assert(w.sector.len() == 4096);
    lemma_entry_parts(fields, writes, i);
    lemma_descriptor_layout(w, fields.sequence_number);
    assert(sectors_start(writes.len() as int) >= descriptor_start(writes.len() as int));
    lemma_subrange_of_subrange(e, d, 32, 0, 4);
    lemma_subrange_of_subrange(e, d, 32, 4, 8);
    lemma_subrange_of_subrange(e, d, 32, 8, 16);
    lemma_subrange_of_subrange(e, d, 32, 16, 24);
    lemma_subrange_of_subrange(e, d, 32, 24, 32);
    lemma_stored64(e, d + 16, w.file_offset);
    lemma_stored64(e, d + 24, fields.sequence_number);
    lemma_le32_of_equal_bytes(e, d + 4, w.sector, 4092);
    lemma_le64_of_equal_bytes(e, d + 8, w.sector, 0);
}

/// Data sector `i` of an encoded entry is stamped, and holds the payload of its write.
proof fn lemma_sector_fields(fields: EntryFields, writes: Seq<WriteView>, i: int)
    requires
        fields.fits(),
        whole_sectors(writes),
        0 <= i < writes.len(),
    ensures
        ({
            let e = entry_bytes(fields, writes);
            let at = data_sector_start(e, writes.len() as int, i);
            &&& 0 <= at
            &&& is_data_sector(e, at, fields.sequence_number)
            &&& e.subrange(at, at + 4096) == stamped_sector(
                writes[i].sector,
                fields.sequence_number,
            )
        }),
{
    let e = entry_bytes(fields, writes);
    let seq = fields.sequence_number;
    let at = sectors_start(writes.len() as int) + 4096 * i;
    assert(writes[i].sector.len() == 4096);
    lemma_entry_parts(fields, writes, i);
    lemma_sectors_in_order(fields, writes, i);
    lemma_stamped_layout(writes[i].sector, seq);
    lemma_subrange_of_subrange(e, at, 4096, 0, 4);
    lemma_subrange_of_subrange(e, at, 4096, 4, 8);
    lemma_subrange_of_subrange(e, at, 4096, 4092, 4096);
    lemma_stored32(e, at + 4, seq / 0x1_0000_0000);
    lemma_stored32(e, at + 4092, seq % 0x1_0000_0000);
}

/// Descriptor `i` of an encoded entry reads back as the write it announces.
proof fn lemma_descriptor_reads_back(fields: EntryFields, writes: Seq<WriteView>, i: int)
    requires
        fields.fits(),
        whole_sectors(writes),
        writes.len() <= u32::MAX,
        0 <= i < writes.len(),
    ensures
        descriptor_sound(entry_bytes(fields, writes), writes.len() as int, i),
        descriptor_at(entry_bytes(fields, writes), writes.len() as int, i) == encoded_view(
            fields,
            writes,
            0,
        ).descriptors[i],
{
    assert(writes[i].sector.len() == 4096);
    lemma_entry_fields(fields, writes);
    lemma_descriptor_fields(fields, writes, i);
    lemma_sector_fields(fields, writes, i);
    lemma_stamped_layout(writes[i].sector, fields.sequence_number);
    assert(DATA_DESC_SIGNATURE@[0] != ZERO_DESC_SIGNATURE@[0]);
}

/// The bytes of an encoded entry mean what was encoded.
proof fn lemma_encoded_entry_meaning(pos: int, fields: EntryFields, writes: Seq<WriteView>)
    requires
        fields.fits(),
        whole_sectors(writes),
        writes.len() <= u32::MAX,
    ensures
        entry_meaning(
            entry_bytes(fields, writes),
            pos,
            fields.log_guid,
            checksum_of(entry_bytes(fields, writes)),
        ) == Ok::<EntryView, EntryReject>(encoded_view(fields, writes, pos)),
{
    let e = entry_bytes(fields, writes);
    let n = writes.len() as int;
    let parsed = Seq::new(n as nat, |i: int| descriptor_at(e, n, i));
    let view = encoded_view(fields, writes, pos);
    lemma_entry_parts(fields, writes, 0);
    lemma_entry_fields(fields, writes);
    assert forall|i: int| 0 <= i < n implies #[trigger] descriptor_sound(e, n, i) by {
        lemma_descriptor_reads_back(fields, writes, i);
    }
    assert forall|i: int| 0 <= i < n implies #[trigger] parsed[i] == view.descriptors[i] by {
        lemma_descriptor_reads_back(fields, writes, i);
    }
    assert(parsed =~= view.descriptors);
    assert(descriptor_start(n) <= e.len());
}

/// An encoded entry is a whole number of sectors long.
proof fn lemma_encoded_length(n: int)
    requires
        0 <= n,
    ensures
        encoded_length(n) >= 4096,
        encoded_length(n) % 4096 == 0,
{
}

/// What the start of an encoded entry of less than 4 GiB says.
proof fn lemma_entry_start(fields: EntryFields, writes: Seq<WriteView>)
    requires
        fields.fits(),
        whole_sectors(writes),
        encoded_length(writes.len() as int) <= u32::MAX,
    ensures
        entry_bytes(fields, writes).len() == encoded_length(writes.len() as int),
        entry_bytes(fields, writes).subrange(0, 4) == LOG_ENTRY_SIGNATURE@,
        le32(entry_bytes(fields, writes), 8) == encoded_length(writes.len() as int),
{
    lemma_entry_parts(fields, writes, 0);
    lemma_entry_fields(fields, writes);
}

/// A slot that holds a whole entry means what the entry means.
proof fn lemma_slot_of_entry(log: Seq<u8>, pos: int, e: Seq<u8>, guid: Seq<u8>)
    requires
        0 <= pos,
        pos + e.len() <= log.len(),
        log.subrange(pos, pos + e.len()) == e,
        e.len() >= 4096,
        e.len() % 4096 == 0,
        e.subrange(0, 4) == LOG_ENTRY_SIGNATURE@,
        le32(e, 8) == e.len(),
    ensures
        slot_meaning(log, pos, guid) == entry_meaning(e, pos, guid, checksum_of(e)),
{
    let len = e.len() as int;
    lemma_subrange_of_subrange(log, pos, len, 0, 4);
    lemma_subrange_of_subrange(log, pos, len, 8, 12);
    lemma_le32_of_equal_bytes(log, pos + 8, e, 8);
    assert(slot_length(log, pos) == Ok::<int, EntryReject>(len));
}

/// What was encoded is what is parsed: an encoded entry, wherever it lies in the log,
/// parses as the entry with the fields and the writes that were encoded.
///
/// The length field has 32 bits, so an entry of 4 GiB or more is left out.
pub proof fn encoded_entry_parses_back(
    log: Seq<u8>,
    pos: int,
    fields: EntryFields,
    writes: Seq<WriteView>,
)
    requires
        fields.fits(),
        whole_sectors(writes),
        encoded_length(writes.len() as int) <= u32::MAX,
        0 <= pos,
        pos + encoded_length(writes.len() as int) <= log.len(),
        log.subrange(pos, pos + encoded_length(writes.len() as int)) == entry_bytes(fields, writes),
    ensures
        slot_meaning(log, pos, fields.log_guid) == Ok::<EntryView, EntryReject>(
            encoded_view(fields, writes, pos),
        ),
{
    lemma_encoded_length(writes.len() as int);
    lemma_entry_start(fields, writes);
    lemma_slot_of_entry(log, pos, entry_bytes(fields, writes), fields.log_guid);
    lemma_encoded_entry_meaning(pos, fields, writes);
}

/// A log region that holds one encoded entry and is zero everywhere else replays as
/// exactly that entry, whatever `tail` the entry claims.
pub proof fn lone_entry_is_the_chain(
    log: Seq<u8>,
    pos: int,
    fields: EntryFields,
    writes: Seq<WriteView>,
)
    requires
        fields.fits(),
        whole_sectors(writes),
        encoded_length(writes.len() as int) <= u32::MAX,
        0 <= pos,
        pos % 4096 == 0,
        pos + encoded_length(writes.len() as int) <= log.len(),
        log.subrange(pos, pos + encoded_length(writes.len() as int)) == entry_bytes(fields, writes),
        forall|k: int|
            0 <= k < log.len() && !(pos <= k < pos + encoded_length(writes.len() as int)) ==> log[k]
                == 0,
        !all_zero(fields.log_guid),
    ensures
        replay_chain(log, fields.log_guid) == seq![encoded_view(fields, writes, pos)],
{
    let view = encoded_view(fields, writes, pos);
    lemma_encoded_length(writes.len() as int);
    encoded_entry_parses_back(log, pos, fields, writes);
    lemma_lone_entry(log, fields.log_guid, pos, view);
}

/// The data sector of an entry with one descriptor follows right behind its first sector.
proof fn lemma_one_data_sector(fields: EntryFields, w: WriteView)
    requires
        fields.fits(),
        w.sector.len() == 4096,
        0 <= w.file_offset <= u64::MAX,
    ensures
        entry_bytes(fields, seq![w]).len() == 8192,
        entry_bytes(fields, seq![w]).subrange(4096, 4100) == DATA_SECTOR_SIGNATURE@,
{
    let writes = seq![w];
    let e = entry_bytes(fields, writes);
    assert(whole_sectors(writes));
    assert(sectors_start(1) == 4096);
    lemma_entry_parts(fields, writes, 0);
    lemma_stamped_layout(w.sector, fields.sequence_number);
    lemma_subrange_of_subrange(e, 4096, 4096, 0, 4);
}

/// A log that holds nothing but one entry of another chain has nothing to replay.
pub proof fn lone_entry_of_another_chain_is_not_replayed(
    log: Seq<u8>,
    fields: EntryFields,
    w: WriteView,
    guid: Seq<u8>,
)
    requires
        fields.fits(),
        w.sector.len() == 4096,
        0 <= w.file_offset <= u64::MAX,
        log.len() >= 8192,
        log.subrange(0, 8192) == entry_bytes(fields, seq![w]),
        forall|k: int| 8192 <= k < log.len() ==> log[k] == 0,
        fields.log_guid != guid,
    ensures
        replay_chain(log, guid) == Seq::<EntryView>::empty(),
{
    let writes = seq![w];
    let e = entry_bytes(fields, writes);
    assert(whole_sectors(writes));
    lemma_one_data_sector(fields, w);
    assert(encoded_length(1) == 8192);
    lemma_entry_start(fields, writes);
    lemma_entry_fields(fields, writes);
    lemma_slot_of_entry(log, 0, e, guid);
    assert(slot_meaning(log, 0, guid) is Err);
    lemma_subrange_of_subrange(log, 0, 8192, 4096, 4100);
    assert(log.subrange(4096, 4100)[0] == DATA_SECTOR_SIGNATURE@[0]);
    assert(slot_meaning(log, 4096, guid) is Err);
    lemma_zeros_end_the_scan(log, guid, 8192);
    assert(entries_from(log, guid, 4096) == entries_from(log, guid, 8192));
    assert(entries_from(log, guid, 0) == entries_from(log, guid, 4096));
}

/// What is encoded is what is parsed: an encoded entry, wherever in a log it lies, parses as an
/// entry with the very fields, and with one "desc" descriptor for each write, in order, that names
/// its place and gives back its sector whole.
///
/// The length field has 32 bits, so an entry of 4 GiB or more is left out.
pub proof fn an_encoded_entry_says_what_was_encoded(
    sequence_number: u64,
    tail: u32,
    guid: &[u8; 16],
    flushed_file_offset: u64,
    last_file_offset: u64,
    writes: &[PendingWrite],
    e: Vec<u8>,
    log_bytes: &[u8],
    pos: usize,
    r: ParseOutcome,
)
    requires
        call_ensures(
            encode_entry,
            (sequence_number, tail, guid, flushed_file_offset, last_file_offset, writes),
            e,
        ),
        forall|i: int| 0 <= i < writes@.len() ==> (#[trigger] writes@[i]).sector@.len() == 4096,
        writes@.len() <= u32::MAX,
        e@.len() <= u32::MAX,
        pos + e@.len() <= log_bytes@.len(),
        log_bytes@.subrange(pos as int, pos + e@.len()) == e@,
        call_ensures(parse_log_entry, (log_bytes, pos, guid), r),
    ensures
        r matches Ok(x) && {
            &&& x.header.entry_length == e@.len()
            &&& x.header.tail == tail
            &&& x.header.sequence_number == sequence_number
            &&& x.header.log_guid@ == guid@
            &&& x.header.flushed_file_offset == flushed_file_offset
            &&& x.header.last_file_offset == last_file_offset
            &&& x.header.descriptor_count == writes@.len()
            &&& x.log_offset_in_region == pos
            &&& x.descriptors@.len() == writes@.len()
            &&& forall|i: int|
                0 <= i < writes@.len() ==> carries(#[trigger] x.descriptors@[i], writes@[i])
        },
{
    let fields = EntryFields {
        sequence_number: sequence_number as int,
        tail: tail as int,
        log_guid: guid@,
        flushed_file_offset: flushed_file_offset as int,
        last_file_offset: last_file_offset as int,
    };
    let views = write_views(writes@);
    assert(whole_sectors(views)) by {
        assert forall|i: int| 0 <= i < views.len() implies (#[trigger] views[i]).sector.len()
            == 4096 && 0 <= views[i].file_offset <= u64::MAX by {
            assert(views[i] == writes@[i]@);
        }
    }
    lemma_entry_length(fields, views);
    encoded_entry_parses_back(log_bytes@, pos as int, fields, views);
    let x = r->Ok_0;
    assert(x@.descriptors.len() == x.descriptors@.len());
    assert forall|i: int| 0 <= i < writes@.len() implies carries(
        #[trigger] x.descriptors@[i],
        writes@[i],
    ) by {
        assert(x@.descriptors[i] == x.descriptors@[i]@);
        assert(views[i] == writes@[i]@);
    }
}

/// Whether a descriptor stands for this write.
pub open spec fn carries(d: Descriptor, w: PendingWrite) -> bool {
    d matches Descriptor::Data { file_offset, sector, .. } && file_offset == w.file_offset
        && sector@ == w.sector@
}

} // verus!

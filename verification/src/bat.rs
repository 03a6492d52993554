//! VHDX BAT (Block Allocation Table) decoding.
//!
//! The BAT is an array of u64 entries split between **payload blocks** and **sector
//! bitmap blocks**, interleaved per chunk:
//!
//! ```text
//!   [chunk 0: chunk_ratio data entries, then 1 sector-bitmap entry]
//!   [chunk 1: chunk_ratio data entries, then 1 sector-bitmap entry]
//!   ...
//! ```
//!
//! `chunk_ratio = (2^23 * logical_sector_size) / block_size`. Each entry layout:
//!
//! ```text
//!   bits  0..3  state
//!   bits  3..20 reserved (zero)
//!   bits 20..64 file_offset_in_mb
//! ```
//!
//! State values for *payload* entries (data blocks):
//!
//! - 0 PAYLOAD_BLOCK_NOT_PRESENT: no block on disk; reads as zero.
//! - 1 PAYLOAD_BLOCK_UNDEFINED: same as NOT_PRESENT in practice.
//! - 2 PAYLOAD_BLOCK_ZERO: explicitly zero.
//! - 3 PAYLOAD_BLOCK_UNMAPPED: TRIM-ed; zero.
//! - 6 PAYLOAD_BLOCK_FULLY_PRESENT: block on disk at file_offset.
//! - 7 PAYLOAD_BLOCK_PARTIALLY_PRESENT: block on disk, but only some sectors valid
//!   (consult sector bitmap entry).
//!
//! State values for *sector-bitmap* entries:
//!
//! - 0 SB_BLOCK_NOT_PRESENT
//! - 6 SB_BLOCK_PRESENT: bitmap on disk at file_offset.
use vstd::prelude::*;

verus! {

/// What a BAT entry says of its payload block.
#[derive(Debug, Clone, Copy, PartialEq, Eq, Structural)]
pub enum PayloadState {
    /// state = 0: no block on disk.
    NotPresent,
    /// state = 1: same effective behaviour as NotPresent.
    Undefined,
    /// state = 2: block reads as zero without disk access.
    Zero,
    /// state = 3: TRIM-ed; reads as zero.
    Unmapped,
    /// state = 6: block on disk at file_offset; full payload valid.
    FullyPresent,
    /// state = 7: block on disk; consult sector bitmap entry.
    PartiallyPresent,
    /// Reserved / unknown state.
    Reserved(u8),
}

/// The state that the number `v` stands for.
pub open spec fn payload_state(v: int) -> PayloadState {
    if v == 0 {
        PayloadState::NotPresent
    } else if v == 1 {
        PayloadState::Undefined
    } else if v == 2 {
        PayloadState::Zero
    } else if v == 3 {
        PayloadState::Unmapped
    } else if v == 6 {
        PayloadState::FullyPresent
    } else if v == 7 {
        PayloadState::PartiallyPresent
    } else {
        PayloadState::Reserved(v as u8)
    }
}

impl PayloadState {
    /// Whether a block in this state lies on disk.
    pub open spec fn is_on_disk(self) -> bool {
        self is FullyPresent || self is PartiallyPresent
    }

    /// Whether a block in this state reads as zeros without touching disk.
    pub open spec fn reads_as_zero(self) -> bool {
        self is NotPresent || self is Undefined || self is Zero || self is Unmapped
    }

    /// The state that the number `v` stands for.
    pub fn from_u8(v: u8) -> (s: PayloadState)
        ensures
            s == payload_state(v as int),
    {
        match v {
            0 => PayloadState::NotPresent,
            1 => PayloadState::Undefined,
            2 => PayloadState::Zero,
            3 => PayloadState::Unmapped,
            6 => PayloadState::FullyPresent,
            7 => PayloadState::PartiallyPresent,
            other => PayloadState::Reserved(other),
        }
    }

    /// True when the entry's `file_offset` points at a block that readers should consult.
    pub fn block_on_disk(&self) -> (r: bool)
        ensures
            r == self.is_on_disk(),
    {
        matches!(self, PayloadState::FullyPresent | PayloadState::PartiallyPresent)
    }

    /// True when the read should produce zeros without touching disk.
    pub fn zero_fill(&self) -> (r: bool)
        ensures
            r == self.reads_as_zero(),
    {
        matches!(
            self,
            PayloadState::NotPresent
                | PayloadState::Undefined
                | PayloadState::Zero
                | PayloadState::Unmapped
        )
    }
}

/// Decoded BAT entry. `file_offset` is byte-granular but always 1 MiB-aligned (the
/// encoding only stores the MB index).
#[derive(Debug, Clone, Copy, PartialEq, Eq, Structural)]
pub struct BatEntry {
    pub state: PayloadState,
    pub file_offset: u64,
}

/// The BAT entry that the number `raw` stands for: the state in the low three bits, the
/// offset in whole megabytes above bit 20, and nothing else.
pub open spec fn bat_entry(raw: int) -> BatEntry {
    BatEntry {
        state: payload_state(raw % 8),
        file_offset: (raw / 0x10_0000 * 0x10_0000) as u64,
    }
}

/// The number that stands for a fully present block at the megabyte of `file_offset`.
pub open spec fn present_entry(file_offset: int) -> int {
    file_offset / 0x10_0000 * 0x10_0000 + 6
}

impl BatEntry {
    /// Decode a BAT entry.
    pub fn from_u64(raw: u64) -> (e: BatEntry)
        ensures
            e == bat_entry(raw as int),
    {
        BatEntry {
            state: PayloadState::from_u8((raw % 8) as u8),
            file_offset: raw / 0x10_0000 * 0x10_0000,
        }
    }

    /// Encode the entry of a fully present block at the megabyte of `file_offset`.
    pub fn encode_present(file_offset: u64) -> (raw: u64)
        ensures
            raw == present_entry(file_offset as int),
    {
        file_offset / 0x10_0000 * 0x10_0000 + 6
    }
}

/// An entry that was encoded for a block on a megabyte boundary decodes to that block,
/// fully present.
pub proof fn present_entry_decodes_back(file_offset: u64)
    requires
        file_offset % 0x10_0000 == 0,
    ensures
        bat_entry(present_entry(file_offset as int)) == (BatEntry {
            state: PayloadState::FullyPresent,
            file_offset,
        }),
{
}

/// How many data entries a chunk of the BAT holds.
pub open spec fn entries_per_chunk(block_size: int, sector_size: int) -> int {
    0x80_0000 * sector_size / block_size
}

/// Compute the chunk_ratio for a given block size and sector size:
/// `(2^23 * sector_size) / block_size`.
pub fn chunk_ratio(block_size: u32, sector_size: u32) -> (r: u64)
    requires
        block_size != 0,
    ensures
        r == entries_per_chunk(block_size as int, sector_size as int),
{
    0x80_0000 * sector_size as u64 / block_size as u64
}

/// The BAT index of virtual block `block`: each chunk before it holds `chunk_ratio` data
/// entries and one sector-bitmap entry.
pub open spec fn bat_index(block: int, chunk_ratio: int) -> int {
    block / chunk_ratio * (chunk_ratio + 1) + block % chunk_ratio
}

/// Whether BAT index `index` holds a sector-bitmap entry: the last one of each chunk.
pub open spec fn is_bitmap_index(index: int, chunk_ratio: int) -> bool {
    index % (chunk_ratio + 1) == chunk_ratio
}

/// A data entry is preceded by one entry per block before it and one bitmap entry per
/// whole chunk before it.
pub proof fn lemma_bat_index(block: int, chunk_ratio: int)
    requires
        0 < chunk_ratio,
        0 <= block,
    ensures
        bat_index(block, chunk_ratio) == block + block / chunk_ratio,
        0 <= block / chunk_ratio <= block,
        0 <= block % chunk_ratio < chunk_ratio,
{
    let q = block / chunk_ratio;
    let m = block % chunk_ratio;
    vstd::arithmetic::div_mod::lemma_fundamental_div_mod(block, chunk_ratio);
    assert(0 <= m < chunk_ratio) by (nonlinear_arith)
        requires
            0 < chunk_ratio,
            m == block % chunk_ratio,
    ;
    assert(q * (chunk_ratio + 1) == chunk_ratio * q + q) by (nonlinear_arith);
    assert(0 <= q <= block) by (nonlinear_arith)
        requires
            0 < chunk_ratio,
            0 <= block,
            q == block / chunk_ratio,
    ;
}

/// Index of the BAT entry covering virtual block `virt_block_idx`, accounting for the
/// interleaved sector-bitmap entries.
///
/// Each chunk holds `chunk_ratio` data entries followed by a single sector-bitmap entry,
/// so a virtual block at offset `block` within the disk maps to BAT index:
///
/// ```text
///   chunk_idx     = block / chunk_ratio
///   block_in_chunk = block % chunk_ratio
///   bat_idx        = chunk_idx * (chunk_ratio + 1) + block_in_chunk
/// ```
pub fn data_bat_index(virt_block_idx: u64, chunk_ratio: u64) -> (r: u64)
    requires
        chunk_ratio > 0,
        bat_index(virt_block_idx as int, chunk_ratio as int) <= u64::MAX,
    ensures
        r == bat_index(virt_block_idx as int, chunk_ratio as int),
{
    proof {
        lemma_bat_index(virt_block_idx as int, chunk_ratio as int);
    }
    virt_block_idx + virt_block_idx / chunk_ratio
}

/// BAT indices grow with the blocks they belong to, so no two blocks share an entry.
pub proof fn bat_index_is_strictly_increasing(a: int, b: int, chunk_ratio: int)
    requires
        0 < chunk_ratio,
        0 <= a < b,
    ensures
        bat_index(a, chunk_ratio) < bat_index(b, chunk_ratio),
{
    lemma_bat_index(a, chunk_ratio);
    lemma_bat_index(b, chunk_ratio);
    assert(a / chunk_ratio <= b / chunk_ratio) by (nonlinear_arith)
        requires
            0 < chunk_ratio,
            0 <= a < b,
    ;
}

/// No block's entry is a sector-bitmap entry.
pub proof fn bat_index_is_never_a_bitmap_index(block: int, chunk_ratio: int)
    requires
        0 < chunk_ratio,
        0 <= block,
    ensures
        !is_bitmap_index(bat_index(block, chunk_ratio), chunk_ratio),
{
    lemma_bat_index(block, chunk_ratio);
    let q = block / chunk_ratio;
    let m = block % chunk_ratio;
    let index = bat_index(block, chunk_ratio);
    vstd::arithmetic::div_mod::lemma_fundamental_div_mod_converse(index, chunk_ratio + 1, q, m);
}

/// Every entry that is not a sector-bitmap entry belongs to a block: the one that as many
/// entries precede, bitmap entries not counted.
pub proof fn every_other_index_belongs_to_a_block(index: int, chunk_ratio: int)
    requires
        0 < chunk_ratio,
        0 <= index,
        !is_bitmap_index(index, chunk_ratio),
    ensures
        0 <= index - index / (chunk_ratio + 1),
        bat_index(index - index / (chunk_ratio + 1), chunk_ratio) == index,
{
    let q = index / (chunk_ratio + 1);
    let m = index % (chunk_ratio + 1);
    let block = index - q;
    vstd::arithmetic::div_mod::lemma_fundamental_div_mod(index, chunk_ratio + 1);
    assert(0 <= m <= chunk_ratio) by (nonlinear_arith)
        requires
            0 < chunk_ratio,
            m == index % (chunk_ratio + 1),
    ;
    assert(block == q * chunk_ratio + m) by (nonlinear_arith)
        requires
            index == (chunk_ratio + 1) * q + m,
            block == index - q,
    ;
    assert(0 <= q) by (nonlinear_arith)
        requires
            0 < chunk_ratio,
            0 <= index,
            q == index / (chunk_ratio + 1),
    ;
    assert(0 <= q * chunk_ratio) by (nonlinear_arith)
        requires
            0 <= q,
            0 < chunk_ratio,
    ;
    vstd::arithmetic::div_mod::lemma_fundamental_div_mod_converse(block, chunk_ratio, q, m);
    lemma_bat_index(block, chunk_ratio);
}

/// What the number of a BAT entry says: the place is the whole megabytes in it, whatever the bits
/// below a megabyte, and each of the eight states has its own number.
pub proof fn every_entry_names_its_place_and_state(raw: u64, e: BatEntry)
    requires
        call_ensures(BatEntry::from_u64, (raw,), e),
    ensures
        call_requires(BatEntry::from_u64, (raw,)),
        e.file_offset % 0x10_0000 == 0,
        e.file_offset <= raw < e.file_offset + 0x10_0000,
        e.state is NotPresent <==> raw % 8 == 0,
        e.state is Undefined <==> raw % 8 == 1,
        e.state is Zero <==> raw % 8 == 2,
        e.state is Unmapped <==> raw % 8 == 3,
        e.state == PayloadState::Reserved(4) <==> raw % 8 == 4,
        e.state == PayloadState::Reserved(5) <==> raw % 8 == 5,
        e.state is FullyPresent <==> raw % 8 == 6,
        e.state is PartiallyPresent <==> raw % 8 == 7,
{
}

/// Every number has a state of its own: no two numbers share one, and a number that the format
/// does not define is kept.
pub proof fn every_state_has_its_own_number(v: u8, w: u8, s: PayloadState, t: PayloadState)
    requires
        call_ensures(PayloadState::from_u8, (v,), s),
        call_ensures(PayloadState::from_u8, (w,), t),
    ensures
        call_requires(PayloadState::from_u8, (v,)),
        s == t <==> v == w,
        s matches PayloadState::Reserved(n) ==> n == v,
        s is Reserved <==> v == 4 || v == 5 || v > 7,
{
}

/// A block that reads as zeros is one that is not on disk; the states that are neither are the
/// reserved ones.
pub proof fn a_block_is_on_disk_or_reads_as_zeros(s: PayloadState, zero: bool, on_disk: bool)
    requires
        call_ensures(PayloadState::zero_fill, (&s,), zero),
        call_ensures(PayloadState::block_on_disk, (&s,), on_disk),
    ensures
        call_requires(PayloadState::zero_fill, (&s,)),
        call_requires(PayloadState::block_on_disk, (&s,)),
        on_disk <==> s is FullyPresent || s is PartiallyPresent,
        !zero && !on_disk <==> s is Reserved,
        !(zero && on_disk),
{
}

/// An encoded entry decodes to a fully present block at the megabyte that it was encoded for, and
/// leaves the reserved bits zero.
pub proof fn encoded_entry_names_the_block(file_offset: u64, raw: u64, e: BatEntry)
    requires
        call_ensures(BatEntry::encode_present, (file_offset,), raw),
        call_ensures(BatEntry::from_u64, (raw,), e),
    ensures
        call_requires(BatEntry::encode_present, (file_offset,)),
        e.state is FullyPresent,
        e.file_offset <= file_offset < e.file_offset + 0x10_0000,
        raw == e.file_offset + 6,
{
}

/// A chunk of the BAT has as many data entries as whole blocks fit into 2^23 logical sectors. For
/// block and sector sizes that the format permits nothing is left over.
pub proof fn a_chunk_covers_two_to_the_23_sectors(
    block_size: u32,
    sector_size: u32,
    r: u64,
    k: nat,
)
    requires
        block_size != 0,
        call_ensures(chunk_ratio, (block_size, sector_size), r),
    ensures
        call_requires(chunk_ratio, (block_size, sector_size)),
        r * block_size <= 0x80_0000 * sector_size < r * block_size + block_size,
        (sector_size == 512 || sector_size == 4096) && 20 <= k <= 28 && block_size
            == vstd::arithmetic::power2::pow2(k) ==> r * block_size == 0x80_0000 * sector_size,
{
    let all = 0x80_0000 * sector_size;
    let b = block_size as int;
    vstd::arithmetic::div_mod::lemma_fundamental_div_mod(all, b);
    vstd::arithmetic::div_mod::lemma_mod_bound(all, b);
    assert(r * b == b * (all / b)) by (nonlinear_arith)
        requires
            r == all / b,
    ;
    if (sector_size == 512 || sector_size == 4096) && 20 <= k <= 28 && b
        == vstd::arithmetic::power2::pow2(k) {
        vstd::arithmetic::power2::lemma2_to64();
        lemma_permitted_blocks_fill_a_chunk(b, sector_size as int);
    }
}

/// 2^23 sectors of a permitted size are a whole number of blocks of a permitted size.
proof fn lemma_permitted_blocks_fill_a_chunk(b: int, s: int)
    requires
        s == 512 || s == 4096,
        b == 0x10_0000 || b == 0x20_0000 || b == 0x40_0000 || b == 0x80_0000 || b == 0x100_0000 || b
            == 0x200_0000 || b == 0x400_0000 || b == 0x800_0000 || b == 0x1000_0000,
    ensures
        0x80_0000 * s % b == 0,
{
    let all = 0x80_0000 * s;
    let n = if b == 0x10_0000 {
        8 * s
    } else if b == 0x20_0000 {
        4 * s
    } else if b == 0x40_0000 {
        2 * s
    } else if b == 0x80_0000 {
        s
    } else if b == 0x100_0000 {
        s / 2
    } else if b == 0x200_0000 {
        s / 4
    } else if b == 0x400_0000 {
        s / 8
    } else if b == 0x800_0000 {
        s / 16
    } else {
        s / 32
    };
    assert(all == n * b + 0);
    vstd::arithmetic::div_mod::lemma_fundamental_div_mod_converse(all, b, n, 0);
}

/// The entries of consecutive blocks are neighbours in the BAT, but for the sector-bitmap entry
/// that stands between the last block of a chunk and the first of the next. The first block has
/// the first entry.
pub proof fn consecutive_blocks_have_neighbouring_entries(
    block: u64,
    next: u64,
    chunk_ratio: u64,
    i: u64,
    j: u64,
)
    requires
        chunk_ratio > 0,
        next == block + 1,
        call_ensures(data_bat_index, (block, chunk_ratio), i),
        call_ensures(data_bat_index, (next, chunk_ratio), j),
    ensures
        block + block / chunk_ratio <= u64::MAX ==> call_requires(
            data_bat_index,
            (block, chunk_ratio),
        ),
        block == 0 ==> i == 0,
        next % chunk_ratio != 0 ==> j == i + 1,
        next % chunk_ratio == 0 ==> j == i + 2,
{
    let cr = chunk_ratio as int;
    lemma_bat_index(block as int, cr);
    lemma_bat_index(next as int, cr);
    let q = block as int / cr;
    let m = block as int % cr;
    vstd::arithmetic::div_mod::lemma_fundamental_div_mod(block as int, cr);
    if m + 1 < cr {
        assert(next == q * cr + (m + 1)) by (nonlinear_arith)
            requires
                block == cr * q + m,
                next == block + 1,
        ;
        vstd::arithmetic::div_mod::lemma_fundamental_div_mod_converse(next as int, cr, q, m + 1);
    } else {
        assert(next == (q + 1) * cr + 0) by (nonlinear_arith)
            requires
                block == cr * q + m,
                next == block + 1,
                m + 1 == cr,
        ;
        vstd::arithmetic::div_mod::lemma_fundamental_div_mod_converse(next as int, cr, q + 1, 0);
    }
    if block == 0 {
        vstd::arithmetic::div_mod::lemma_fundamental_div_mod_converse(0, cr, 0, 0);
    }
}

} // verus!

//! Where the structures of an image lie, and which placements are refused.
//!
//! Every offset and length here comes out of the image, so each is checked against the
//! size of the device, and the log region against the regions that the image declares,
//! before anything is read or written there.
use crate::bat::{bat_entry, bat_index, chunk_ratio, data_bat_index, entries_per_chunk};
use crate::bat::{lemma_bat_index, BatEntry};
use crate::endian::{le16, le32, le32_bytes, le64, le64_bytes, lemma_le32_digits, lemma_le32_held};
use crate::endian::{lemma_le64_digits, lemma_le64_held, read_u64_le};
use crate::error::{Error, Result};
use crate::header::{Header, HeaderView, LOG_VERSION_V0};
use crate::metadata::{bars_loading, index_of_barring_item, index_of_item, is_known_item, item_ids};
use crate::metadata::{item_in, items_at, lemma_first_barring_item, lemma_first_item};
use crate::metadata::{metadata_fault, read_sector_size, read_virtual_disk_size, FileParameters};
use crate::metadata::{MetadataTable, METADATA_SIGNATURE};
use crate::region_table::{index_of_barring_region, RegionEntry, RegionTable, RegionView};
use vstd::arithmetic::power2::{lemma2_to64, lemma_pow2_strictly_increases, lemma_pow2_unfold, pow2};
use vstd::prelude::*;

verus! {

/// Smallest payload block size the format permits.
pub const MIN_BLOCK_SIZE: u32 = 1024 * 1024;

/// Largest payload block size the format permits.
pub const MAX_BLOCK_SIZE: u32 = 256 * 1024 * 1024;

/// The grid that regions are placed on. The first megabyte holds the file identifier,
/// both headers and both region tables.
pub const MEGABYTE: u64 = 1024 * 1024;

/// Encoded BAT entry width (bytes).
pub const BAT_ENTRY_BYTES: u64 = 8;

/// Whether `n` is a power of two.
pub open spec fn is_power_of_two(n: int) -> bool
    decreases n,
{
    n == 1 || (n > 1 && n % 2 == 0 && is_power_of_two(n / 2))
}

/// Whether `n` is a power of two.
pub fn power_of_two(n: u32) -> (r: bool)
    ensures
        r == is_power_of_two(n as int),
{
    if n == 0 {
        return false;
    }
    let mut m: u32 = n;
    while m % 2 == 0
        invariant
            m > 0,
            is_power_of_two(m as int) == is_power_of_two(n as int),
        decreases m,
    {
        m = m / 2;
    }
    m == 1
}

/// A power of two is a multiple of every smaller one.
pub proof fn lemma_powers_divide(n: int, m: int)
    requires
        is_power_of_two(n),
        is_power_of_two(m),
        m <= n,
    ensures
        n % m == 0,
    decreases n,
{
    if m > 1 {
        lemma_powers_divide(n / 2, m / 2);
        let q = (n / 2) / (m / 2);
        vstd::arithmetic::div_mod::lemma_fundamental_div_mod(n / 2, m / 2);
        assert(n == q * m + 0) by (nonlinear_arith)
            requires
                n / 2 == (m / 2) * q,
                n % 2 == 0,
                m % 2 == 0,
        ;
        vstd::arithmetic::div_mod::lemma_fundamental_div_mod_converse(n, m, q, 0);
    }
}

/// Why a header's log region may not lie where it is said to lie, on a device of
/// `dev_size` bytes; `None` when it may. A length of zero says that there is no log.
pub open spec fn log_region_fault(h: HeaderView, dev_size: int) -> Option<Error> {
    if h.log_length == 0 {
        None
    } else if h.log_offset < 0x10_0000 {
        Some(Error::Corrupt("log region lies inside the header section"))
    } else if h.log_offset % 0x10_0000 != 0 {
        Some(Error::Corrupt("log region is not aligned to a megabyte"))
    } else if h.log_length % 0x10_0000 != 0 {
        Some(Error::Corrupt("log region is not a whole number of megabytes long"))
    } else if h.log_offset + h.log_length > dev_size {
        Some(Error::Corrupt("log region reaches past the end of the file"))
    } else {
        None
    }
}

/// Check that a header's log region lies somewhere a region may lie.
pub fn check_log_region(h: &Header, dev_size: u64) -> (r: Result<()>)
    ensures
        match r {
            Ok(_) => log_region_fault(h@, dev_size as int) is None,
            Err(e) => log_region_fault(h@, dev_size as int) == Some(e),
        },
{
    if h.log_length == 0 {
        return Ok(());
    }
    if h.log_offset < MEGABYTE {
        return Err(Error::Corrupt("log region lies inside the header section"));
    }
    if h.log_offset % MEGABYTE != 0 {
        return Err(Error::Corrupt("log region is not aligned to a megabyte"));
    }
    if h.log_length as u64 % MEGABYTE != 0 {
        return Err(Error::Corrupt("log region is not a whole number of megabytes long"));
    }
    if h.log_offset > dev_size || h.log_length as u64 > dev_size - h.log_offset {
        return Err(Error::Corrupt("log region reaches past the end of the file"));
    }
    Ok(())
}

/// Whether a region has a byte in common with the log region.
pub open spec fn overlaps_log(h: HeaderView, r: RegionView) -> bool {
    &&& h.log_length > 0
    &&& r.length > 0
    &&& r.file_offset < h.log_offset + h.log_length
    &&& h.log_offset < r.file_offset + r.length
}

/// Whether one of the regions, from index `i` on, has a byte in common with the log
/// region.
pub open spec fn any_overlaps_log(h: HeaderView, regions: Seq<RegionView>, i: int) -> bool {
    exists|k: int| i <= k < regions.len() && overlaps_log(h, #[trigger] regions[k])
}

/// Why the log of an image with these regions and this header may not be touched; `None` when it
/// may.
pub open spec fn log_overlap_fault(h: HeaderView, regions: Seq<RegionView>) -> Option<Error> {
    if any_overlaps_log(h, regions, 0) {
        Some(Error::Corrupt("log region overlaps a declared region"))
    } else {
        None
    }
}

/// Why an image with these regions and this header is refused; `None` when it is not. A
/// required region that is not known comes first: it may transform the payload.
pub open spec fn layout_fault(h: HeaderView, regions: Seq<RegionView>) -> Option<Error> {
    if index_of_barring_region(regions, 0) is Some {
        Some(Error::Unsupported("a required region is not recognised"))
    } else {
        log_overlap_fault(h, regions)
    }
}

/// Check that no region overlaps the log.
pub fn check_log_overlap(h: &Header, table: &RegionTable) -> (r: Result<()>)
    ensures
        match r {
            Ok(_) => log_overlap_fault(h@, table@) is None,
            Err(e) => log_overlap_fault(h@, table@) == Some(e),
        },
{
    let log_end: u128 = h.log_offset as u128 + h.log_length as u128;
    let mut i: usize = 0;
    while i < table.entries.len()
        invariant
            i <= table.entries.len(),
            log_end == h.log_offset + h.log_length,
            any_overlaps_log(h@, table@, 0) == any_overlaps_log(h@, table@, i as int),
        decreases table.entries.len() - i,
    {
        let entry: &RegionEntry = &table.entries[i];
        let end: u128 = entry.file_offset as u128 + entry.length as u128;
        assert(entry@ == table@[i as int]);
        if h.log_length > 0 && entry.length > 0 && (entry.file_offset as u128) < log_end && (
        h.log_offset as u128) < end {
            assert(overlaps_log(h@, table@[i as int]));
            return Err(Error::Corrupt("log region overlaps a declared region"));
        }
        assert(!overlaps_log(h@, table@[i as int]));
        i += 1;
    }
    Ok(())
}

/// Check that every required region is known and that no region overlaps the log.
pub fn check_layout(h: &Header, table: &RegionTable) -> (r: Result<()>)
    ensures
        match r {
            Ok(_) => layout_fault(h@, table@) is None,
            Err(e) => layout_fault(h@, table@) == Some(e),
        },
{
    if table.unknown_required().is_some() {
        return Err(Error::Unsupported("a required region is not recognised"));
    }
    check_log_overlap(h, table)
}

/// The numbers that the BAT is indexed with.
#[derive(Debug, Clone, Copy, PartialEq, Eq, Structural)]
pub struct Geometry {
    pub virtual_size: u64,
    pub block_size: u32,
    pub sector_size: u32,
}

impl Geometry {
    /// Whether the block and sector sizes are ones that the format permits.
    pub open spec fn wf(self) -> bool {
        &&& is_power_of_two(self.block_size as int)
        &&& 0x10_0000 <= self.block_size <= 0x1000_0000
        &&& self.sector_size == 512 || self.sector_size == 4096
    }

    /// How many data entries a chunk of the BAT holds.
    pub open spec fn chunk_ratio(self) -> int {
        entries_per_chunk(self.block_size as int, self.sector_size as int)
    }

    /// How many entries the BAT needs, to reach the last block of the disk.
    pub open spec fn required_entries(self) -> int {
        if self.virtual_size == 0 {
            0
        } else {
            bat_index(
                (self.virtual_size - 1) / self.block_size as int,
                self.chunk_ratio(),
            ) + 1
        }
    }
}

/// Why these block and sector sizes are refused; `None` when they are not.
pub open spec fn geometry_fault(block_size: int, sector_size: int) -> Option<Error> {
    if !is_power_of_two(block_size) {
        Some(Error::Corrupt("block_size not a power of two"))
    } else if block_size < 0x10_0000 || block_size > 0x1000_0000 {
        Some(Error::Corrupt("block_size outside [1 MiB, 256 MiB]"))
    } else if !is_power_of_two(sector_size) {
        Some(Error::Corrupt("sector_size not a power of two"))
    } else if sector_size != 512 && sector_size != 4096 {
        Some(Error::Corrupt("sector_size must be 512 or 4096"))
    } else {
        None
    }
}

/// What the sizes in a metadata table say, or why they are refused. `params`, `size` and
/// `sector` are the data of the three items.
pub open spec fn sizes_meaning(
    params: Seq<u8>,
    size: Option<Seq<u8>>,
    sector: Option<Seq<u8>>,
) -> core::result::Result<Geometry, Error> {
    match size {
        None => Err(Error::BadMetadata("VirtualDiskSize item missing")),
        Some(size) => if size.len() < 8 {
            Err(Error::BadMetadata("VirtualDiskSize shorter than 8 bytes"))
        } else {
            match sector {
                None => Err(Error::BadMetadata("LogicalSectorSize item missing")),
                Some(sector) => if sector.len() < 4 {
                    Err(Error::BadMetadata("sector size shorter than 4 bytes"))
                } else {
                    match geometry_fault(le32(params, 0), le32(sector, 0)) {
                        Some(why) => Err(why),
                        None => Ok(
                            Geometry {
                                virtual_size: le64(size, 0) as u64,
                                block_size: le32(params, 0) as u32,
                                sector_size: le32(sector, 0) as u32,
                            },
                        ),
                    }
                },
            }
        },
    }
}

/// What a metadata region says of the disk, or why the image is refused. A differencing
/// image is refused as such, ahead of the required items that go with it.
pub open spec fn geometry_meaning(region: Seq<u8>) -> core::result::Result<Geometry, Error> {
    let items = items_at(region);
    if metadata_fault(region) is Some {
        Err(metadata_fault(region)->Some_0)
    } else {
        match item_in(items, region, item_ids::FILE_PARAMETERS@) {
            None => Err(Error::BadMetadata("FileParameters item missing")),
            Some(params) => if params.len() < 8 {
                Err(Error::BadMetadata("FileParameters shorter than 8 bytes"))
            } else if le32(params, 4) / 2 % 2 == 1 {
                Err(Error::Unsupported("differencing image (parent chain walking not implemented)"))
            } else if index_of_barring_item(items, 0) is Some {
                Err(Error::Unsupported("a required metadata item is not recognised"))
            } else {
                sizes_meaning(
                    params,
                    item_in(items, region, item_ids::VIRTUAL_DISK_SIZE@),
                    item_in(items, region, item_ids::LOGICAL_SECTOR_SIZE@),
                )
            },
        }
    }
}

/// Check the block and sector sizes of an image.
pub fn check_geometry(block_size: u32, sector_size: u32) -> (r: Result<()>)
    ensures
        match r {
            Ok(_) => geometry_fault(block_size as int, sector_size as int) is None,
            Err(e) => geometry_fault(block_size as int, sector_size as int) == Some(e),
        },
{
    if !power_of_two(block_size) {
        return Err(Error::Corrupt("block_size not a power of two"));
    }
    if block_size < MIN_BLOCK_SIZE || block_size > MAX_BLOCK_SIZE {
        return Err(Error::Corrupt("block_size outside [1 MiB, 256 MiB]"));
    }
    if !power_of_two(sector_size) {
        return Err(Error::Corrupt("sector_size not a power of two"));
    }
    if sector_size != 512 && sector_size != 4096 {
        return Err(Error::Corrupt("sector_size must be 512 or 4096"));
    }
    Ok(())
}

/// Read the geometry of the disk out of its metadata region.
pub fn read_geometry(region: Vec<u8>) -> (r: Result<Geometry>)
    ensures
        match r {
            Ok(g) => geometry_meaning(region@) == Ok::<Geometry, Error>(g) && g.wf(),
            Err(e) => geometry_meaning(region@) == Err::<Geometry, Error>(e),
        },
{
    let metadata: MetadataTable = match MetadataTable::parse(region) {
        Ok(t) => t,
        Err(e) => {
            return Err(e);
        },
    };
    let params: FileParameters = match metadata.item_data(&item_ids::FILE_PARAMETERS) {
        None => {
            return Err(Error::BadMetadata("FileParameters item missing"));
        },
        Some(bytes) => match FileParameters::parse(bytes) {
            Ok(p) => p,
            Err(e) => {
                return Err(e);
            },
        },
    };
    if params.has_parent() {
        return Err(
            Error::Unsupported("differencing image (parent chain walking not implemented)"),
        );
    }
    if metadata.unknown_required().is_some() {
        return Err(Error::Unsupported("a required metadata item is not recognised"));
    }
    let virtual_size: u64 = match metadata.item_data(&item_ids::VIRTUAL_DISK_SIZE) {
        None => {
            return Err(Error::BadMetadata("VirtualDiskSize item missing"));
        },
        Some(bytes) => match read_virtual_disk_size(bytes) {
            Ok(size) => size,
            Err(e) => {
                return Err(e);
            },
        },
    };
    let sector_size: u32 = match metadata.item_data(&item_ids::LOGICAL_SECTOR_SIZE) {
        None => {
            return Err(Error::BadMetadata("LogicalSectorSize item missing"));
        },
        Some(bytes) => match read_sector_size(bytes) {
            Ok(size) => size,
            Err(e) => {
                return Err(e);
            },
        },
    };
    match check_geometry(params.block_size, sector_size) {
        Err(e) => Err(e),
        Ok(_) => Ok(Geometry { virtual_size, block_size: params.block_size, sector_size }),
    }
}

/// Facts about a permitted geometry: blocks are whole megabytes, a chunk holds at least
/// one entry, and BAT indices stay far below 64 bits.
pub proof fn lemma_geometry(g: Geometry)
    requires
        g.wf(),
    ensures
        g.block_size % 0x10_0000 == 0,
        16 <= g.chunk_ratio() <= 0x8000,
        forall|b: int|
            0 <= b <= u64::MAX / 0x10_0000 ==> 0 <= b <= #[trigger] bat_index(b, g.chunk_ratio())
                <= 2 * b,
{
    reveal_with_fuel(is_power_of_two, 21);
    assert(is_power_of_two(0x10_0000));
    lemma_powers_divide(g.block_size as int, 0x10_0000);
    let b = g.block_size as int;
    let s = g.sector_size as int;
    assert(16 <= 0x80_0000 * s / b <= 0x8000) by (nonlinear_arith)
        requires
            0x10_0000 <= b <= 0x1000_0000,
            s == 512 || s == 4096,
    ;
    assert forall|b: int| 0 <= b <= u64::MAX / 0x10_0000 implies 0 <= b <= #[trigger] bat_index(
        b,
        g.chunk_ratio(),
    ) <= 2 * b by {
        lemma_bat_index(b, g.chunk_ratio());
    }
}

/// Why a BAT region of this length does not suit a disk of this geometry; `None` when it
/// does.
pub open spec fn bat_length_fault(length: int, g: Geometry) -> Option<Error> {
    if length % 8 != 0 {
        Some(Error::Corrupt("BAT region is not a whole number of 8-byte entries long"))
    } else if length / 8 < g.required_entries() {
        Some(Error::Corrupt("BAT region is too short for the virtual disk"))
    } else {
        None
    }
}

/// Check that a BAT region of `length` bytes holds an entry for every block of the disk.
pub fn check_bat_length(length: u32, g: &Geometry) -> (r: Result<()>)
    requires
        g.wf(),
    ensures
        match r {
            Ok(_) => bat_length_fault(length as int, *g) is None,
            Err(e) => bat_length_fault(length as int, *g) == Some(e),
        },
{
    if length as u64 % BAT_ENTRY_BYTES != 0 {
        return Err(Error::Corrupt("BAT region is not a whole number of 8-byte entries long"));
    }
    if g.virtual_size > 0 {
        proof {
            lemma_geometry(*g);
            let last = (g.virtual_size - 1) / g.block_size as int;
            assert(0 <= last <= u64::MAX / 0x10_0000) by (nonlinear_arith)
                requires
                    last == (g.virtual_size - 1) / g.block_size as int,
                    g.virtual_size > 0,
                    g.block_size >= 0x10_0000,
            ;
            assert(bat_index(last, g.chunk_ratio()) <= 2 * last);
        }
        let last_block: u64 = (g.virtual_size - 1) / g.block_size as u64;
        let last_index: u64 = data_bat_index(
            last_block,
            chunk_ratio(g.block_size, g.sector_size),
        );
        if length as u64 / BAT_ENTRY_BYTES < last_index + 1 {
            return Err(Error::Corrupt("BAT region is too short for the virtual disk"));
        }
    }
    Ok(())
}

/// The BAT entries that `bytes` hold.
pub open spec fn bat_entries(bytes: Seq<u8>) -> Seq<BatEntry> {
    Seq::new(bytes.len() / 8, |i: int| bat_entry(le64(bytes, 8 * i)))
}

/// Decode the BAT entries that `bytes` hold.
pub fn decode_bat(bytes: &[u8]) -> (bat: Vec<BatEntry>)
    ensures
        bat@ == bat_entries(bytes@),
{
    let n: usize = bytes.len() / 8;
    let mut bat: Vec<BatEntry> = Vec::with_capacity(n);
    let mut i: usize = 0;
    while i < n
        invariant
            i <= n == bytes.len() / 8,
            bat@.len() == i,
            forall|k: int| 0 <= k < i ==> #[trigger] bat@[k] == bat_entries(bytes@)[k],
        decreases n - i,
    {
        bat.push(BatEntry::from_u64(read_u64_le(bytes, 8 * i)));
        i += 1;
    }
    assert(bat@ =~= bat_entries(bytes@));
    bat
}

/// Whether a region lies inside a device of `dev_size` bytes.
pub open spec fn region_in_file(r: RegionView, dev_size: int) -> bool {
    r.file_offset + r.length <= dev_size
}

/// Whether a region lies inside a device of `dev_size` bytes.
pub fn in_file(r: &RegionEntry, dev_size: u64) -> (ok: bool)
    ensures
        ok == region_in_file(r@, dev_size as int),
{
    r.file_offset <= dev_size && r.length as u64 <= dev_size - r.file_offset
}

/// Why a header's log format is refused; `None` when it is not. Version 0 is the only one
/// that is defined, and a log of another format is one that can neither be replayed nor
/// appended to.
pub open spec fn log_version_fault(h: HeaderView) -> Option<Error> {
    if h.log_version != 0 {
        Some(Error::Unsupported("unknown log version"))
    } else {
        None
    }
}

/// Check that a header's log format is the one that is defined.
pub fn check_log_version(h: &Header) -> (r: Result<()>)
    ensures
        match r {
            Ok(_) => log_version_fault(h@) is None,
            Err(e) => log_version_fault(h@) == Some(e),
        },
{
    if h.log_version != LOG_VERSION_V0 {
        return Err(Error::Unsupported("unknown log version"));
    }
    Ok(())
}

/// What halving tells of a number is whether it is two to some power.
proof fn lemma_power_of_two(n: int) -> (k: nat)
    requires
        is_power_of_two(n),
    ensures
        n == pow2(k),
    decreases n,
{
    if n == 1 {
        lemma2_to64();
        0
    } else {
        let k = lemma_power_of_two(n / 2);
        lemma_pow2_unfold(k + 1);
        k + 1
    }
}

/// Two to any power is told by halving.
proof fn lemma_powers_of_two(k: nat)
    ensures
        is_power_of_two(pow2(k) as int),
        pow2(k) > 0,
    decreases k,
{
    if k == 0 {
        lemma2_to64();
    } else {
        lemma_powers_of_two((k - 1) as nat);
        lemma_pow2_unfold(k);
    }
}

/// The powers of two are told from all other numbers.
pub proof fn powers_of_two_are_told(n: u32, r: bool)
    requires
        call_ensures(power_of_two, (n,), r),
    ensures
        call_requires(power_of_two, (n,)),
        r <==> exists|k: nat| n == #[trigger] pow2(k),
{
    if r {
        let k = lemma_power_of_two(n as int);
        assert(n == pow2(k));
    }
    if exists|k: nat| n == #[trigger] pow2(k) {
        let k = choose|k: nat| n == #[trigger] pow2(k);
        lemma_powers_of_two(k);
    }
}

/// The block sizes that the format permits, by halving and by name.
proof fn lemma_permitted_block_sizes(b: int)
    ensures
        is_power_of_two(b) && 0x10_0000 <= b <= 0x1000_0000 <==> b == 0x10_0000 || b == 0x20_0000
            || b == 0x40_0000 || b == 0x80_0000 || b == 0x100_0000 || b == 0x200_0000 || b
            == 0x400_0000 || b == 0x800_0000 || b == 0x1000_0000,
{
    lemma2_to64();
    lemma_powers_of_two(20);
    lemma_powers_of_two(21);
    lemma_powers_of_two(22);
    lemma_powers_of_two(23);
    lemma_powers_of_two(24);
    lemma_powers_of_two(25);
    lemma_powers_of_two(26);
    lemma_powers_of_two(27);
    lemma_powers_of_two(28);
    if is_power_of_two(b) && 0x10_0000 <= b <= 0x1000_0000 {
        let k = lemma_power_of_two(b);
        if k < 20 {
            lemma_pow2_strictly_increases(k, 20);
        }
        if k > 28 {
            lemma_pow2_strictly_increases(28, k);
        }
    }
}

/// The sizes that the format permits: blocks of 1 to 256 MiB, doubling, and sectors of 512 or 4096
/// bytes. No others are taken, and none of these is refused.
pub proof fn the_permitted_sizes(block_size: u32, sector_size: u32, r: Result<()>)
    requires
        call_ensures(check_geometry, (block_size, sector_size), r),
    ensures
        call_requires(check_geometry, (block_size, sector_size)),
        r is Ok <==> {
            &&& sector_size == 512 || sector_size == 4096
            &&& block_size == 0x10_0000 || block_size == 0x20_0000 || block_size == 0x40_0000
                || block_size == 0x80_0000 || block_size == 0x100_0000 || block_size == 0x200_0000
                || block_size == 0x400_0000 || block_size == 0x800_0000 || block_size
                == 0x1000_0000
        },
        r matches Err(e) ==> e is Corrupt,
{
    lemma_permitted_block_sizes(block_size as int);
    lemma_sector_sizes();
}

/// Whether entry `i` of the table of a metadata region is the first with the ID `id`, and names
/// `data` inside the region.
pub open spec fn stores_item(region: Seq<u8>, i: int, id: Seq<u8>, data: Seq<u8>) -> bool {
    let at = 32 + 32 * i;
    let from = le32(region, at + 16);
    let to = from + le32(region, at + 20);
    &&& 0 <= i < le16(region, 10)
    &&& region.subrange(at, at + 16) == id
    &&& forall|k: int|
        0 <= k < i ==> #[trigger] region.subrange(32 + 32 * k, 32 + 32 * k + 16) != id
    &&& to <= region.len()
    &&& region.subrange(from, to) == data
}

/// Whether a metadata region has its signature, and a table that lies inside it.
pub open spec fn has_item_table(region: Seq<u8>) -> bool {
    &&& region.len() >= 32
    &&& region.subrange(0, 8) == METADATA_SIGNATURE@
    &&& le16(region, 10) <= 2047
    &&& 32 + 32 * le16(region, 10) <= region.len()
}

/// Whether every item of a metadata region that is marked as required is one of the five that are
/// recognised.
pub open spec fn required_items_are_known(region: Seq<u8>) -> bool {
    forall|i: int|
        0 <= i < le16(region, 10) && #[trigger] region[32 + 32 * i + 24] / 4 % 2 == 1 ==> {
            let id = region.subrange(32 + 32 * i, 32 + 32 * i + 16);
            ||| id == item_ids::FILE_PARAMETERS@
            ||| id == item_ids::VIRTUAL_DISK_SIZE@
            ||| id == item_ids::LOGICAL_SECTOR_SIZE@
            ||| id == item_ids::PHYSICAL_SECTOR_SIZE@
            ||| id == item_ids::PAGE_83_DATA@
        }
}

/// An item that a region stores is found.
proof fn lemma_stored_item(region: Seq<u8>, i: int, id: Seq<u8>, data: Seq<u8>)
    requires
        has_item_table(region),
        stores_item(region, i, id, data),
    ensures
        item_in(items_at(region), region, id) == Some(data),
{
    let items = items_at(region);
    lemma_first_item(items, id, 0);
    assert(items[i].item_id == id);
    let n = index_of_item(items, id, 0)->Some_0;
    if n < i {
        assert(region.subrange(32 + 32 * n, 32 + 32 * n + 16) != id);
    }
}

/// An item that is found is stored in the region.
proof fn lemma_found_item(region: Seq<u8>, id: Seq<u8>) -> (i: int)
    requires
        has_item_table(region),
        item_in(items_at(region), region, id) is Some,
    ensures
        stores_item(region, i, id, item_in(items_at(region), region, id)->Some_0),
{
    let items = items_at(region);
    lemma_first_item(items, id, 0);
    let i = index_of_item(items, id, 0)->Some_0;
    assert forall|k: int| 0 <= k < i implies #[trigger] region.subrange(
        32 + 32 * k,
        32 + 32 * k + 16,
    ) != id by {
        assert(items[k].item_id != id);
    }
    i
}

/// Whether an item bars a file is told by the third bit of its flags.
proof fn lemma_required_items(region: Seq<u8>)
    requires
        has_item_table(region),
    ensures
        index_of_barring_item(items_at(region), 0) is None <==> required_items_are_known(region),
{
    let items = items_at(region);
    lemma_first_barring_item(items, 0);
    assert forall|i: int| 0 <= i < le16(region, 10) implies bars_loading(items[i]) == (
    #[trigger] region[32 + 32 * i + 24] / 4 % 2 == 1 && !is_known_item(
        region.subrange(32 + 32 * i, 32 + 32 * i + 16),
    )) by {
        let at = 32 + 32 * i + 24;
        assert(items[i].flags == le32(region, at));
        assert(le32(region, at) / 4 % 2 == region[at] / 4 % 2);
    }
    if index_of_barring_item(items, 0) is None {
        assert forall|i: int|
            0 <= i < le16(region, 10) && #[trigger] region[32 + 32 * i + 24] / 4 % 2
                == 1 implies is_known_item(region.subrange(32 + 32 * i, 32 + 32 * i + 16)) by {
            assert(!bars_loading(items[i]));
        }
    } else {
        let i = index_of_barring_item(items, 0)->Some_0;
        assert(region[32 + 32 * i + 24] / 4 % 2 == 1);
    }
}

/// The geometry of a disk is what its metadata items hold: a region that stores the bytes of a
/// permitted block size and sector size, and of any virtual size of 64 bits, reads as exactly
/// these, wherever in the region the items lie and whatever else it holds. The image must not be
/// a differencing one, and must not require an item that is not recognised.
pub proof fn geometry_reads_as_it_was_stored(
    region: Vec<u8>,
    r: Result<Geometry>,
    i: int,
    j: int,
    k: int,
    params: Seq<u8>,
    size: Seq<u8>,
    sector: Seq<u8>,
    g: Geometry,
)
    requires
        call_ensures(read_geometry, (region,), r),
        has_item_table(region@),
        required_items_are_known(region@),
        stores_item(region@, i, item_ids::FILE_PARAMETERS@, params),
        stores_item(region@, j, item_ids::VIRTUAL_DISK_SIZE@, size),
        stores_item(region@, k, item_ids::LOGICAL_SECTOR_SIZE@, sector),
        params.len() >= 8,
        size.len() >= 8,
        sector.len() >= 4,
        params.subrange(0, 4) == le32_bytes(g.block_size as int),
        params[4] % 4 < 2,
        size.subrange(0, 8) == le64_bytes(g.virtual_size as int),
        sector.subrange(0, 4) == le32_bytes(g.sector_size as int),
        g.sector_size == 512 || g.sector_size == 4096,
        exists|e: nat| 20 <= e <= 28 && g.block_size == #[trigger] pow2(e),
    ensures
        call_requires(read_geometry, (region,)),
        r == Ok::<Geometry, Error>(g),
{
    lemma_stored_item(region@, i, item_ids::FILE_PARAMETERS@, params);
    lemma_stored_item(region@, j, item_ids::VIRTUAL_DISK_SIZE@, size);
    lemma_stored_item(region@, k, item_ids::LOGICAL_SECTOR_SIZE@, sector);
    lemma_required_items(region@);
    lemma_sizes_as_stored(params, size, sector, g);
    lemma_parent_flag(params);
}

/// Whether a disk has a parent is told by the second bit of its flags.
proof fn lemma_parent_flag(params: Seq<u8>)
    requires
        params.len() >= 8,
    ensures
        le32(params, 4) / 2 % 2 == 1 <==> params[4] % 4 >= 2,
{
    assert(le32(params, 4) / 2 % 2 == params[4] / 2 % 2);
}

/// The three sizes are the numbers that their items hold.
proof fn lemma_sizes_as_stored(params: Seq<u8>, size: Seq<u8>, sector: Seq<u8>, g: Geometry)
    requires
        params.len() >= 8,
        size.len() >= 8,
        sector.len() >= 4,
        params.subrange(0, 4) == le32_bytes(g.block_size as int),
        size.subrange(0, 8) == le64_bytes(g.virtual_size as int),
        sector.subrange(0, 4) == le32_bytes(g.sector_size as int),
        g.sector_size == 512 || g.sector_size == 4096,
        exists|e: nat| 20 <= e <= 28 && g.block_size == #[trigger] pow2(e),
    ensures
        sizes_meaning(params, Some(size), Some(sector)) == Ok::<Geometry, Error>(g),
{
    lemma_le32_held(params, 0, g.block_size as int);
    lemma_le32_held(sector, 0, g.sector_size as int);
    lemma_le64_held(size, 0, g.virtual_size as int);
    let e = choose|e: nat| 20 <= e <= 28 && g.block_size == #[trigger] pow2(e);
    lemma_powers_of_two(e);
    lemma_permitted_powers(e);
    lemma_sector_sizes();
}

/// Two to the 20th up to two to the 28th are one to 256 megabytes.
proof fn lemma_permitted_powers(e: nat)
    ensures
        20 <= e <= 28 <==> 0x10_0000 <= pow2(e) <= 0x1000_0000,
{
    lemma2_to64();
    if e < 20 {
        lemma_pow2_strictly_increases(e, 20);
    } else if e > 28 {
        lemma_pow2_strictly_increases(28, e);
    } else {
        if e > 20 {
            lemma_pow2_strictly_increases(20, e);
        }
        if e < 28 {
            lemma_pow2_strictly_increases(e, 28);
        }
    }
}

/// The two sector sizes are powers of two.
proof fn lemma_sector_sizes()
    ensures
        is_power_of_two(512),
        is_power_of_two(4096),
{
    lemma2_to64();
    lemma_powers_of_two(9);
    lemma_powers_of_two(12);
}

/// Nothing else is read as a geometry: where one is, the region stores the three items with its
/// bytes, the sizes are permitted ones, the image is no differencing one, and every required item
/// is recognised.
pub proof fn geometry_that_is_read_was_stored(region: Vec<u8>, r: Result<Geometry>)
    requires
        call_ensures(read_geometry, (region,), r),
        r is Ok,
    ensures
        has_item_table(region@),
        required_items_are_known(region@),
        r->Ok_0.sector_size == 512 || r->Ok_0.sector_size == 4096,
        exists|e: nat| 20 <= e <= 28 && r->Ok_0.block_size == #[trigger] pow2(e),
        exists|i: int, params: Seq<u8>|
            {
                &&& #[trigger] stores_item(region@, i, item_ids::FILE_PARAMETERS@, params)
                &&& params.len() >= 8
                &&& params.subrange(0, 4) == le32_bytes(r->Ok_0.block_size as int)
                &&& params[4] % 4 < 2
            },
        exists|i: int, size: Seq<u8>|
            {
                &&& #[trigger] stores_item(region@, i, item_ids::VIRTUAL_DISK_SIZE@, size)
                &&& size.len() >= 8
                &&& size.subrange(0, 8) == le64_bytes(r->Ok_0.virtual_size as int)
            },
        exists|i: int, sector: Seq<u8>|
            {
                &&& #[trigger] stores_item(region@, i, item_ids::LOGICAL_SECTOR_SIZE@, sector)
                &&& sector.len() >= 4
                &&& sector.subrange(0, 4) == le32_bytes(r->Ok_0.sector_size as int)
            },
{
    let g = r->Ok_0;
    let items = items_at(region@);
    lemma_required_items(region@);
    let params = item_in(items, region@, item_ids::FILE_PARAMETERS@)->Some_0;
    let size = item_in(items, region@, item_ids::VIRTUAL_DISK_SIZE@)->Some_0;
    let sector = item_in(items, region@, item_ids::LOGICAL_SECTOR_SIZE@)->Some_0;
    let i = lemma_found_item(region@, item_ids::FILE_PARAMETERS@);
    let j = lemma_found_item(region@, item_ids::VIRTUAL_DISK_SIZE@);
    let k = lemma_found_item(region@, item_ids::LOGICAL_SECTOR_SIZE@);
    lemma_sizes_that_are_read(params, size, sector, g);
    lemma_parent_flag(params);
    assert(stores_item(region@, i, item_ids::FILE_PARAMETERS@, params));
    assert(stores_item(region@, j, item_ids::VIRTUAL_DISK_SIZE@, size));
    assert(stores_item(region@, k, item_ids::LOGICAL_SECTOR_SIZE@, sector));
}

/// Sizes that are read are those that the items hold, and are permitted ones.
proof fn lemma_sizes_that_are_read(params: Seq<u8>, size: Seq<u8>, sector: Seq<u8>, g: Geometry)
    requires
        params.len() >= 8,
        sizes_meaning(params, Some(size), Some(sector)) == Ok::<Geometry, Error>(g),
    ensures
        size.len() >= 8,
        sector.len() >= 4,
        params.subrange(0, 4) == le32_bytes(g.block_size as int),
        size.subrange(0, 8) == le64_bytes(g.virtual_size as int),
        sector.subrange(0, 4) == le32_bytes(g.sector_size as int),
        g.sector_size == 512 || g.sector_size == 4096,
        exists|e: nat| 20 <= e <= 28 && g.block_size == #[trigger] pow2(e),
{
    lemma_le32_digits(params, 0);
    lemma_le64_digits(size, 0);
    lemma_le32_digits(sector, 0);
    let e = lemma_power_of_two(g.block_size as int);
    lemma_permitted_powers(e);
    assert(20 <= e <= 28 && g.block_size == pow2(e));
}

/// A differencing image is refused as unsupported, and so is one that requires an item that is not
/// recognised; nothing else in the metadata is.
pub proof fn differencing_images_are_refused(
    region: Vec<u8>,
    r: Result<Geometry>,
    i: int,
    params: Seq<u8>,
)
    requires
        call_ensures(read_geometry, (region,), r),
        has_item_table(region@),
        stores_item(region@, i, item_ids::FILE_PARAMETERS@, params),
        params.len() >= 8,
    ensures
        params[4] % 4 >= 2 || !required_items_are_known(region@) <==> (r matches Err(e)
            && e is Unsupported),
        params[4] % 4 >= 2 ==> r == Err::<Geometry, Error>(
            Error::Unsupported("differencing image (parent chain walking not implemented)"),
        ),
{
    lemma_stored_item(region@, i, item_ids::FILE_PARAMETERS@, params);
    lemma_required_items(region@);
    lemma_parent_flag(params);
}

/// A BAT region suits a disk exactly when it is made of whole entries and holds the entry of every
/// block of the disk; `ratio` is the number of data entries in a chunk.
pub proof fn a_bat_reaches_every_block(length: u32, g: Geometry, ratio: int, r: Result<()>)
    requires
        g.wf(),
        ratio * g.block_size == 0x80_0000 * g.sector_size,
        call_ensures(check_bat_length, (length, &g), r),
    ensures
        call_requires(check_bat_length, (length, &g)),
        r is Ok <==> length % 8 == 0 && forall|b: int|
            0 <= b && #[trigger] (b * g.block_size) < g.virtual_size ==> 8 * (b + b / ratio + 1)
                <= length,
        r matches Err(e) ==> e is Corrupt,
{
    let bs = g.block_size as int;
    lemma_geometry(g);
    lemma_chunk_ratio_is(g, ratio);
    if g.virtual_size > 0 {
        let last = (g.virtual_size - 1) / bs;
        vstd::arithmetic::div_mod::lemma_fundamental_div_mod(g.virtual_size - 1, bs);
        vstd::arithmetic::div_mod::lemma_mod_bound(g.virtual_size - 1, bs);
        assert(0 <= last && last * bs == bs * last) by (nonlinear_arith)
            requires
                last == (g.virtual_size - 1) / bs,
                g.virtual_size > 0,
                bs > 0,
        ;
        lemma_bat_index(last, ratio);
        assert(last * g.block_size < g.virtual_size);
        assert forall|b: int| 0 <= b && #[trigger] (b * g.block_size) < g.virtual_size implies b + b
            / ratio <= last + last / ratio by {
            assert(b <= last) by (nonlinear_arith)
                requires
                    b * bs <= g.virtual_size - 1,
                    g.virtual_size - 1 < bs * last + bs,
                    bs > 0,
            ;
            assert(b / ratio <= last / ratio) by (nonlinear_arith)
                requires
                    0 <= b <= last,
                    ratio > 0,
            ;
        }
    } else {
        assert forall|b: int| 0 <= b implies !(#[trigger] (b * g.block_size) < g.virtual_size) by {
            assert(0 <= b * bs) by (nonlinear_arith)
                requires
                    0 <= b,
                    bs > 0,
            ;
        }
    }
}

/// The number of data entries in a chunk is the one whose blocks fill 2^23 sectors.
pub proof fn lemma_chunk_ratio_is(g: Geometry, ratio: int)
    requires
        g.wf(),
        ratio * g.block_size == 0x80_0000 * g.sector_size,
    ensures
        g.chunk_ratio() == ratio,
        ratio > 0,
{
    let bs = g.block_size as int;
    vstd::arithmetic::div_mod::lemma_div_multiples_vanish(ratio, bs);
    assert(bs * ratio == ratio * bs) by (nonlinear_arith);
    lemma_geometry(g);
}

/// Each eight bytes of a BAT region are one entry, and every one is decoded.
pub proof fn a_bat_is_decoded_entry_by_entry(
    bytes: &[u8],
    bat: Vec<BatEntry>,
    i: int,
    raw: u64,
    e: BatEntry,
)
    requires
        call_ensures(decode_bat, (bytes,), bat),
        0 <= i,
        8 * i + 8 <= bytes@.len(),
        bytes@.subrange(8 * i, 8 * i + 8) == le64_bytes(raw as int),
        call_ensures(BatEntry::from_u64, (raw,), e),
    ensures
        call_requires(decode_bat, (bytes,)),
        bat@.len() == bytes@.len() / 8,
        bat@[i] == e,
{
    lemma_le64_held(bytes@, 8 * i, raw as int);
}

/// A log region may lie exactly where it is whole megabytes, behind the first and inside the
/// device; a log of no length may lie anywhere.
pub proof fn where_a_log_may_lie(h: Header, dev_size: u64, r: Result<()>)
    requires
        call_ensures(check_log_region, (&h, dev_size), r),
    ensures
        call_requires(check_log_region, (&h, dev_size)),
        r is Ok <==> h.log_length == 0 || {
            &&& h.log_offset >= 0x10_0000
            &&& h.log_offset % 0x10_0000 == 0
            &&& h.log_length % 0x10_0000 == 0
            &&& h.log_offset + h.log_length <= dev_size
        },
        r matches Err(e) ==> e is Corrupt,
{
}

/// A log may be touched exactly when none of its bytes lies in a region of the table.
pub proof fn a_log_shares_no_byte_with_a_region(h: Header, t: RegionTable, r: Result<()>)
    requires
        call_ensures(check_log_overlap, (&h, &t), r),
    ensures
        call_requires(check_log_overlap, (&h, &t)),
        r is Ok <==> forall|i: int, k: int|
            0 <= i < t.entries@.len() && h.log_offset <= k < h.log_offset + h.log_length
                ==> !#[trigger] shares_byte(t.entries@[i], k),
        r matches Err(e) ==> e is Corrupt,
{
    assert forall|i: int| 0 <= i < t.entries@.len() implies t@[i] == (
    #[trigger] t.entries@[i])@ by {}
    if any_overlaps_log(h@, t@, 0) {
        let i = choose|i: int| 0 <= i < t@.len() && overlaps_log(h@, #[trigger] t@[i]);
        let e = t.entries@[i];
        let k = if e.file_offset > h.log_offset {
            e.file_offset as int
        } else {
            h.log_offset as int
        };
        assert(shares_byte(t.entries@[i], k));
    } else {
        assert forall|i: int, k: int|
            0 <= i < t.entries@.len() && h.log_offset <= k < h.log_offset
                + h.log_length implies !#[trigger] shares_byte(t.entries@[i], k) by {
            assert(!overlaps_log(h@, t@[i]));
        }
    }
}

/// Whether the byte `k` of the device lies in a region.
pub open spec fn shares_byte(e: RegionEntry, k: int) -> bool {
    e.file_offset <= k < e.file_offset + e.length
}

/// A layout is refused exactly when a required region is not known or the log overlaps one.
pub proof fn what_a_layout_is_refused_for(
    h: Header,
    t: RegionTable,
    r: Result<()>,
    overlap: Result<()>,
    unknown: Option<&RegionEntry>,
)
    requires
        call_ensures(check_layout, (&h, &t), r),
        call_ensures(check_log_overlap, (&h, &t), overlap),
        call_ensures(RegionTable::unknown_required, (&t,), unknown),
    ensures
        call_requires(check_layout, (&h, &t)),
        unknown is Some ==> (r matches Err(e) && e is Unsupported),
        unknown is None ==> (r is Ok <==> overlap is Ok) && (r matches Err(e) ==> e is Corrupt),
{
}

/// The log format 0 is taken, and no other; a region is inside a file that holds its last byte.
pub proof fn the_only_log_format(h: Header, r: Result<()>, e: RegionEntry, size: u64, inside: bool)
    requires
        call_ensures(check_log_version, (&h,), r),
        call_ensures(in_file, (&e, size), inside),
    ensures
        call_requires(check_log_version, (&h,)),
        call_requires(in_file, (&e, size)),
        r is Ok <==> h.log_version == 0,
        r matches Err(why) ==> why is Unsupported,
        inside <==> e.file_offset + e.length <= size,
{
}

/// An item that the region does not store is not found.
proof fn lemma_item_not_stored(region: Seq<u8>, id: Seq<u8>)
    requires
        has_item_table(region),
        forall|i: int, data: Seq<u8>| !#[trigger] stores_item(region, i, id, data),
    ensures
        item_in(items_at(region), region, id) is None,
{
    if item_in(items_at(region), region, id) is Some {
        let i = lemma_found_item(region, id);
        assert(stores_item(region, i, id, item_in(items_at(region), region, id)->Some_0));
    }
}

/// A region without a usable table, or without the file parameters, is bad metadata.
pub proof fn metadata_without_parameters_is_bad(region: Vec<u8>, r: Result<Geometry>)
    requires
        call_ensures(read_geometry, (region,), r),
        !has_item_table(region@) || (forall|i: int, data: Seq<u8>|
            !#[trigger] stores_item(region@, i, item_ids::FILE_PARAMETERS@, data)) || (exists|
            i: int,
            data: Seq<u8>,
        | #[trigger]
            stores_item(region@, i, item_ids::FILE_PARAMETERS@, data) && data.len() < 8),
    ensures
        r matches Err(e) && e is BadMetadata,
{
    if has_item_table(region@) {
        if exists|i: int, data: Seq<u8>| #[trigger]
            stores_item(region@, i, item_ids::FILE_PARAMETERS@, data) && data.len() < 8 {
            let (i, data) = choose|i: int, data: Seq<u8>| #[trigger]
                stores_item(region@, i, item_ids::FILE_PARAMETERS@, data) && data.len() < 8;
            lemma_stored_item(region@, i, item_ids::FILE_PARAMETERS@, data);
        } else {
            lemma_item_not_stored(region@, item_ids::FILE_PARAMETERS@);
        }
    }
}

/// A region that stores the file parameters of a disk without a parent, and requires no item that
/// is not recognised, is bad metadata when one of the two sizes is missing or cut short; and it is
/// corrupt when both are there, but the format does not permit them.
pub proof fn metadata_without_sizes_is_bad(
    region: Vec<u8>,
    r: Result<Geometry>,
    i: int,
    params: Seq<u8>,
)
    requires
        call_ensures(read_geometry, (region,), r),
        has_item_table(region@),
        required_items_are_known(region@),
        stores_item(region@, i, item_ids::FILE_PARAMETERS@, params),
        params.len() >= 8,
        params[4] % 4 < 2,
    ensures
        (forall|j: int, size: Seq<u8>| #[trigger]
            stores_item(region@, j, item_ids::VIRTUAL_DISK_SIZE@, size) ==> size.len() < 8) ==> (
        r matches Err(e) && e is BadMetadata),
        (forall|k: int, sector: Seq<u8>| #[trigger]
            stores_item(region@, k, item_ids::LOGICAL_SECTOR_SIZE@, sector) ==> sector.len() < 4)
            ==> (r matches Err(e) && e is BadMetadata),
        r matches Err(e) && e is Corrupt <==> {
            &&& exists|j: int, size: Seq<u8>| #[trigger]
                stores_item(region@, j, item_ids::VIRTUAL_DISK_SIZE@, size) && size.len() >= 8
            &&& exists|k: int, sector: Seq<u8>| #[trigger]
                stores_item(region@, k, item_ids::LOGICAL_SECTOR_SIZE@, sector) && sector.len()
                    >= 4 && !permitted_sizes(le32(params, 0), le32(sector, 0))
        },
{
    let items = items_at(region@);
    let size = item_in(items, region@, item_ids::VIRTUAL_DISK_SIZE@);
    let sector = item_in(items, region@, item_ids::LOGICAL_SECTOR_SIZE@);
    lemma_stored_item(region@, i, item_ids::FILE_PARAMETERS@, params);
    lemma_required_items(region@);
    lemma_parent_flag(params);
    lemma_permitted_block_sizes(le32(params, 0));
    lemma_sector_sizes();
    if size is Some {
        let j = lemma_found_item(region@, item_ids::VIRTUAL_DISK_SIZE@);
        assert(stores_item(region@, j, item_ids::VIRTUAL_DISK_SIZE@, size->Some_0));
    }
    if sector is Some {
        let k = lemma_found_item(region@, item_ids::LOGICAL_SECTOR_SIZE@);
        assert(stores_item(region@, k, item_ids::LOGICAL_SECTOR_SIZE@, sector->Some_0));
    }
    assert forall|j: int, data: Seq<u8>| #[trigger]
        stores_item(region@, j, item_ids::VIRTUAL_DISK_SIZE@, data) implies size == Some(data) by {
        lemma_stored_item(region@, j, item_ids::VIRTUAL_DISK_SIZE@, data);
    }
    assert forall|k: int, data: Seq<u8>| #[trigger]
        stores_item(region@, k, item_ids::LOGICAL_SECTOR_SIZE@, data) implies sector == Some(
        data,
    ) by {
        lemma_stored_item(region@, k, item_ids::LOGICAL_SECTOR_SIZE@, data);
    }
}

/// Whether the format permits these sizes of blocks and sectors.
pub open spec fn permitted_sizes(b: int, s: int) -> bool {
    &&& s == 512 || s == 4096
    &&& b == 0x10_0000 || b == 0x20_0000 || b == 0x40_0000 || b == 0x80_0000 || b == 0x100_0000 || b
        == 0x200_0000 || b == 0x400_0000 || b == 0x800_0000 || b == 0x1000_0000
}

} // verus!

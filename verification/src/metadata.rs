//! VHDX metadata region: a header (32 bytes) followed by entries (32 bytes each), each
//! pointing at an item's data inside the same region.
//!
//! Layout (offsets within the metadata region):
//!
//! ```text
//!   0   8  signature "metadata"
//!   8   2  reserved
//!  10   2  entry_count
//!  12  20  reserved
//!  32 ... entries (32 bytes each)
//! ```
//!
//! Entry layout (32 bytes):
//!
//! ```text
//!   0  16  item_id (GUID)
//!  16   4  offset  (relative to metadata region)
//!  20   4  length
//!  24   4  flags   (bit 0 = user, bit 1 = virtual_disk, bit 2 = required)
//!  28   4  reserved
//! ```
use crate::bytes::{matches_at, read_guid, same_guid};
use crate::endian::{le16, le32, le32_bytes, le64, le64_bytes, lemma_le32_digits, lemma_le64_digits};
use crate::endian::{read_u16_le, read_u32_le, read_u64_le};
use crate::error::{Error, Result};
use vstd::prelude::*;
use vstd::slice::slice_subrange;

pub mod item_ids;

verus! {

pub const METADATA_HEADER_SIZE: usize = 32;

pub const METADATA_ENTRY_SIZE: usize = 32;

/// "metadata"
pub const METADATA_SIGNATURE: [u8; 8] = [0x6D, 0x65, 0x74, 0x61, 0x64, 0x61, 0x74, 0x61];

/// Largest `entry_count` the metadata table may declare.
pub const MAX_METADATA_ENTRIES: u16 = 2047;

/// Where one metadata item lies.
#[derive(Debug, Clone, Copy)]
pub struct MetadataEntry {
    pub item_id: [u8; 16],
    pub offset: u32,
    pub length: u32,
    pub flags: u32,
}

/// A decoded metadata region.
#[derive(Debug, Clone)]
pub struct MetadataTable {
    pub entries: Vec<MetadataEntry>,
    /// Raw bytes of the entire metadata region: an item is the part of them that
    /// `entry.offset` / `entry.length` name.
    pub region_bytes: Vec<u8>,
}

/// What a [`MetadataEntry`] says.
#[verifier::ext_equal]
pub struct ItemView {
    pub item_id: Seq<u8>,
    pub offset: int,
    pub length: int,
    pub flags: int,
}

impl View for MetadataEntry {
    type V = ItemView;

    open spec fn view(&self) -> ItemView {
        ItemView {
            item_id: self.item_id@,
            offset: self.offset as int,
            length: self.length as int,
            flags: self.flags as int,
        }
    }
}

impl View for MetadataTable {
    type V = Seq<ItemView>;

    open spec fn view(&self) -> Seq<ItemView> {
        Seq::new(self.entries@.len(), |i: int| self.entries@[i]@)
    }
}

/// What entry `i` of the metadata table in `bytes` says.
pub open spec fn item_at(bytes: Seq<u8>, i: int) -> ItemView {
    let off = 32 + 32 * i;
    ItemView {
        item_id: bytes.subrange(off, off + 16),
        offset: le32(bytes, off + 16),
        length: le32(bytes, off + 20),
        flags: le32(bytes, off + 24),
    }
}

/// Why `bytes` are not a usable metadata region; `None` when they are.
pub open spec fn metadata_fault(bytes: Seq<u8>) -> Option<Error> {
    if bytes.len() < 32 {
        Some(Error::BadMetadata("region shorter than 32 bytes"))
    } else if bytes.subrange(0, 8) != METADATA_SIGNATURE@ {
        Some(Error::BadMetadata("signature mismatch"))
    } else if le16(bytes, 10) > 2047 {
        Some(Error::BadMetadata("entry_count > 2047"))
    } else if bytes.len() < 32 + 32 * le16(bytes, 10) {
        Some(Error::BadMetadata("region truncated mid-entry"))
    } else {
        None
    }
}

/// The entries of the metadata table in `bytes`.
pub open spec fn items_at(bytes: Seq<u8>) -> Seq<ItemView> {
    Seq::new(le16(bytes, 10) as nat, |i: int| item_at(bytes, i))
}

/// The index of the first item, from index `i` on, with this ID.
pub open spec fn index_of_item(items: Seq<ItemView>, id: Seq<u8>, i: int) -> Option<int>
    decreases items.len() - i,
{
    if i >= items.len() {
        None
    } else if items[i].item_id == id {
        Some(i)
    } else {
        index_of_item(items, id, i + 1)
    }
}

/// The data of the first item with this ID; `None` when there is no such item, and when
/// its data reach past the region.
pub open spec fn item_in(items: Seq<ItemView>, region: Seq<u8>, id: Seq<u8>) -> Option<Seq<u8>> {
    match index_of_item(items, id, 0) {
        None => None,
        Some(i) => if items[i].offset + items[i].length > region.len() {
            None
        } else {
            Some(region.subrange(items[i].offset, items[i].offset + items[i].length))
        },
    }
}

/// Whether an item is one that this library recognises.
pub open spec fn is_known_item(id: Seq<u8>) -> bool {
    ||| id == item_ids::FILE_PARAMETERS@
    ||| id == item_ids::VIRTUAL_DISK_SIZE@
    ||| id == item_ids::LOGICAL_SECTOR_SIZE@
    ||| id == item_ids::PHYSICAL_SECTOR_SIZE@
    ||| id == item_ids::PAGE_83_DATA@
}

/// Whether an item bars the file from being loaded: it is required and not recognised.
pub open spec fn bars_loading(item: ItemView) -> bool {
    item.flags / 4 % 2 == 1 && !is_known_item(item.item_id)
}

/// The index of the first item, from index `i` on, that bars the file from being loaded.
pub open spec fn index_of_barring_item(items: Seq<ItemView>, i: int) -> Option<int>
    decreases items.len() - i,
{
    if i >= items.len() {
        None
    } else if bars_loading(items[i]) {
        Some(i)
    } else {
        index_of_barring_item(items, i + 1)
    }
}

/// Whether this library recognises the item `id`.
fn recognises(id: &[u8; 16]) -> (r: bool)
    ensures
        r == is_known_item(id@),
{
    let file_parameters: [u8; 16] = item_ids::FILE_PARAMETERS;
    let virtual_disk_size: [u8; 16] = item_ids::VIRTUAL_DISK_SIZE;
    let logical_sector_size: [u8; 16] = item_ids::LOGICAL_SECTOR_SIZE;
    let physical_sector_size: [u8; 16] = item_ids::PHYSICAL_SECTOR_SIZE;
    let page_83_data: [u8; 16] = item_ids::PAGE_83_DATA;
    same_guid(id, &file_parameters) || same_guid(id, &virtual_disk_size) || same_guid(
        id,
        &logical_sector_size,
    ) || same_guid(id, &physical_sector_size) || same_guid(id, &page_83_data)
}

impl MetadataTable {
    /// Decode and validate a metadata region.
    pub fn parse(bytes: Vec<u8>) -> (r: Result<MetadataTable>)
        ensures
            match r {
                Ok(t) => {
                    &&& metadata_fault(bytes@) is None
                    &&& t@ == items_at(bytes@)
                    &&& t.region_bytes@ == bytes@
                },
                Err(e) => metadata_fault(bytes@) == Some(e),
            },
    {
        let b: &[u8] = bytes.as_slice();
        if b.len() < METADATA_HEADER_SIZE {
            return Err(Error::BadMetadata("region shorter than 32 bytes"));
        }
        let signature: [u8; 8] = METADATA_SIGNATURE;
        if !matches_at(b, 0, signature.as_slice()) {
            return Err(Error::BadMetadata("signature mismatch"));
        }
        let declared: u16 = read_u16_le(b, 10);
        if declared > MAX_METADATA_ENTRIES {
            return Err(Error::BadMetadata("entry_count > 2047"));
        }
        let entry_count: usize = declared as usize;
        if b.len() < METADATA_HEADER_SIZE + entry_count * METADATA_ENTRY_SIZE {
            return Err(Error::BadMetadata("region truncated mid-entry"));
        }
        let mut entries: Vec<MetadataEntry> = Vec::with_capacity(entry_count);
        let mut i: usize = 0;
        while i < entry_count
            invariant
                i <= entry_count <= 2047,
                b@ == bytes@,
                b.len() >= 32 + 32 * entry_count,
                entries@.len() == i,
                forall|k: int| 0 <= k < i ==> #[trigger] entries@[k]@ == item_at(bytes@, k),
            decreases entry_count - i,
        {
            let off: usize = METADATA_HEADER_SIZE + i * METADATA_ENTRY_SIZE;
            let entry = MetadataEntry {
                item_id: read_guid(b, off),
                offset: read_u32_le(b, off + 16),
                length: read_u32_le(b, off + 20),
                flags: read_u32_le(b, off + 24),
            };
            assert(entry@ == item_at(bytes@, i as int));
            entries.push(entry);
            i += 1;
        }
        let table = MetadataTable { entries, region_bytes: bytes };
        assert(table@ =~= items_at(bytes@));
        Ok(table)
    }

    /// The data of the first item with the ID `item_id`; `None` when there is no such
    /// item, and when its data reach past the region.
    pub fn item_data(&self, item_id: &[u8; 16]) -> (r: Option<&[u8]>)
        ensures
            match r {
                Some(data) => item_in(self@, self.region_bytes@, item_id@) == Some(data@),
                None => item_in(self@, self.region_bytes@, item_id@) is None,
            },
    {
        let mut i: usize = 0;
        while i < self.entries.len()
            invariant
                i <= self.entries.len(),
                index_of_item(self@, item_id@, 0) == index_of_item(self@, item_id@, i as int),
            decreases self.entries.len() - i,
        {
            let entry: &MetadataEntry = &self.entries[i];
            if same_guid(&entry.item_id, item_id) {
                let end: u64 = entry.offset as u64 + entry.length as u64;
                if end > self.region_bytes.len() as u64 {
                    return None;
                }
                return Some(
                    slice_subrange(
                        self.region_bytes.as_slice(),
                        entry.offset as usize,
                        end as usize,
                    ),
                );
            }
            i += 1;
        }
        None
    }

    /// The first item that is required and not recognised. A file that has one must not
    /// be loaded.
    pub fn unknown_required(&self) -> (r: Option<&MetadataEntry>)
        ensures
            match r {
                Some(e) => index_of_barring_item(self@, 0) matches Some(i) && self@[i] == e@,
                None => index_of_barring_item(self@, 0) is None,
            },
    {
        let mut i: usize = 0;
        while i < self.entries.len()
            invariant
                i <= self.entries.len(),
                index_of_barring_item(self@, 0) == index_of_barring_item(self@, i as int),
            decreases self.entries.len() - i,
        {
            let entry: &MetadataEntry = &self.entries[i];
            if entry.flags / 4 % 2 == 1 && !recognises(&entry.item_id) {
                return Some(entry);
            }
            i += 1;
        }
        None
    }
}

/// The File Parameters item.
#[derive(Debug, Clone, Copy)]
pub struct FileParameters {
    pub block_size: u32,
    /// bit 0 = leave_blocks_allocated, bit 1 = has_parent
    pub flags: u32,
}

impl FileParameters {
    /// Decode the File Parameters item.
    pub fn parse(bytes: &[u8]) -> (r: Result<FileParameters>)
        ensures
            match r {
                Ok(p) => {
                    &&& bytes.len() >= 8
                    &&& p.block_size == le32(bytes@, 0)
                    &&& p.flags == le32(bytes@, 4)
                },
                Err(e) => bytes.len() < 8 && e == Error::BadMetadata(
                    "FileParameters shorter than 8 bytes",
                ),
            },
    {
        if bytes.len() < 8 {
            return Err(Error::BadMetadata("FileParameters shorter than 8 bytes"));
        }
        Ok(FileParameters { block_size: read_u32_le(bytes, 0), flags: read_u32_le(bytes, 4) })
    }

    /// Whether the image is a differencing one.
    pub fn has_parent(&self) -> (r: bool)
        ensures
            r == (self.flags as int / 2 % 2 == 1),
    {
        self.flags / 2 % 2 == 1
    }
}

/// Decode the Virtual Disk Size item.
pub fn read_virtual_disk_size(bytes: &[u8]) -> (r: Result<u64>)
    ensures
        match r {
            Ok(size) => bytes.len() >= 8 && size == le64(bytes@, 0),
            Err(e) => bytes.len() < 8 && e == Error::BadMetadata(
                "VirtualDiskSize shorter than 8 bytes",
            ),
        },
{
    if bytes.len() < 8 {
        return Err(Error::BadMetadata("VirtualDiskSize shorter than 8 bytes"));
    }
    Ok(read_u64_le(bytes, 0))
}

/// Decode a sector size item.
pub fn read_sector_size(bytes: &[u8]) -> (r: Result<u32>)
    ensures
        match r {
            Ok(size) => bytes.len() >= 4 && size == le32(bytes@, 0),
            Err(e) => bytes.len() < 4 && e == Error::BadMetadata(
                "sector size shorter than 4 bytes",
            ),
        },
{
    if bytes.len() < 4 {
        return Err(Error::BadMetadata("sector size shorter than 4 bytes"));
    }
    Ok(read_u32_le(bytes, 0))
}

/// Where a search for an item lands: at the first item with the ID, if there is one.
pub proof fn lemma_first_item(items: Seq<ItemView>, id: Seq<u8>, from: int)
    requires
        0 <= from <= items.len(),
    ensures
        match index_of_item(items, id, from) {
            Some(i) => from <= i < items.len() && items[i].item_id == id && forall|k: int|
                from <= k < i ==> (#[trigger] items[k]).item_id != id,
            None => forall|k: int|
                from <= k < items.len() ==> (#[trigger] items[k]).item_id != id,
        },
    decreases items.len() - from,
{
    if from < items.len() && items[from].item_id != id {
        lemma_first_item(items, id, from + 1);
    }
}

/// Where a search for an item that bars the file lands: at the first one, if there is one.
pub proof fn lemma_first_barring_item(items: Seq<ItemView>, from: int)
    requires
        0 <= from <= items.len(),
    ensures
        match index_of_barring_item(items, from) {
            Some(i) => from <= i < items.len() && bars_loading(items[i]) && forall|k: int|
                from <= k < i ==> !bars_loading(#[trigger] items[k]),
            None => forall|k: int|
                from <= k < items.len() ==> !bars_loading(#[trigger] items[k]),
        },
    decreases items.len() - from,
{
    if from < items.len() && !bars_loading(items[from]) {
        lemma_first_barring_item(items, from + 1);
    }
}

/// What a metadata region is: the eight bytes "metadata", and a table of at most 2047 entries that
/// lies inside the region. Whatever else the bytes hold, they parse, and each field of each entry
/// is where the format puts it; bytes that lack one of these do not.
pub proof fn a_metadata_table_is_its_signature_and_count(bytes: Vec<u8>, r: Result<MetadataTable>)
    requires
        call_ensures(MetadataTable::parse, (bytes,), r),
    ensures
        call_requires(MetadataTable::parse, (bytes,)),
        r is Ok <==> {
            &&& bytes@.len() >= 32
            &&& bytes@[0] == 0x6D && bytes@[1] == 0x65 && bytes@[2] == 0x74 && bytes@[3] == 0x61
            &&& bytes@[4] == 0x64 && bytes@[5] == 0x61 && bytes@[6] == 0x74 && bytes@[7] == 0x61
            &&& le16(bytes@, 10) <= 2047
            &&& bytes@.len() >= 32 + 32 * le16(bytes@, 10)
        },
        r matches Ok(t) ==> {
            &&& t.region_bytes@ == bytes@
            &&& t.entries@.len() == le16(bytes@, 10)
            &&& forall|i: int|
                0 <= i < t.entries@.len() ==> {
                    let e = #[trigger] t.entries@[i];
                    let at = 32 + 32 * i;
                    &&& e.item_id@ == bytes@.subrange(at, at + 16)
                    &&& le32_bytes(e.offset as int) == bytes@.subrange(at + 16, at + 20)
                    &&& le32_bytes(e.length as int) == bytes@.subrange(at + 20, at + 24)
                    &&& le32_bytes(e.flags as int) == bytes@.subrange(at + 24, at + 28)
                }
        },
        r matches Err(e) ==> e is BadMetadata,
{
    let b = bytes@;
    if b.len() >= 32 {
        let sig = b.subrange(0, 8);
        if b[0] == 0x6D && b[1] == 0x65 && b[2] == 0x74 && b[3] == 0x61 && b[4] == 0x64 && b[5]
            == 0x61 && b[6] == 0x74 && b[7] == 0x61 {
            assert(sig =~= METADATA_SIGNATURE@);
        }
        if sig == METADATA_SIGNATURE@ {
            assert(sig[0] == 0x6D && sig[1] == 0x65 && sig[2] == 0x74 && sig[3] == 0x61 && sig[4]
                == 0x64 && sig[5] == 0x61 && sig[6] == 0x74 && sig[7] == 0x61);
        }
        if r is Ok {
            let t = r->Ok_0;
            assert(t@.len() == t.entries@.len());
            assert forall|i: int| 0 <= i < t.entries@.len() implies {
                let e = #[trigger] t.entries@[i];
                let at = 32 + 32 * i;
                &&& e.item_id@ == b.subrange(at, at + 16)
                &&& le32_bytes(e.offset as int) == b.subrange(at + 16, at + 20)
                &&& le32_bytes(e.length as int) == b.subrange(at + 20, at + 24)
                &&& le32_bytes(e.flags as int) == b.subrange(at + 24, at + 28)
            } by {
                let at = 32 + 32 * i;
                assert(t@[i] == item_at(b, i));
                lemma_le32_digits(b, at + 16);
                lemma_le32_digits(b, at + 20);
                lemma_le32_digits(b, at + 24);
            }
        }
    }
}

/// The data of an item are the bytes of the region that the first entry with its ID names, if it
/// names bytes inside the region.
pub proof fn an_item_is_the_bytes_that_its_entry_names(
    t: MetadataTable,
    id: [u8; 16],
    r: Option<&[u8]>,
    i: int,
)
    requires
        call_ensures(MetadataTable::item_data, (&t, &id), r),
    ensures
        call_requires(MetadataTable::item_data, (&t, &id)),
        (forall|k: int| 0 <= k < t.entries@.len() ==> (#[trigger] t.entries@[k]).item_id@ != id@)
            ==> r is None,
        0 <= i < t.entries@.len() && t.entries@[i].item_id@ == id@ && (forall|k: int|
            0 <= k < i ==> (#[trigger] t.entries@[k]).item_id@ != id@) ==> {
            let from = t.entries@[i].offset as int;
            let to = from + t.entries@[i].length;
            &&& r is Some <==> to <= t.region_bytes@.len()
            &&& r matches Some(data) ==> data@ == t.region_bytes@.subrange(from, to)
        },
{
    lemma_first_item(t@, id@, 0);
    assert forall|k: int| 0 <= k < t.entries@.len() implies t@[k] == (#[trigger] t.entries@[k])@ by {}
    if 0 <= i < t.entries@.len() && t.entries@[i].item_id@ == id@ && (forall|k: int|
        0 <= k < i ==> (#[trigger] t.entries@[k]).item_id@ != id@) {
        assert(t@[i].item_id == id@);
        assert(index_of_item(t@, id@, 0) == Some(i)) by {
            let n = index_of_item(t@, id@, 0)->Some_0;
            if n < i {
                assert(t.entries@[n].item_id@ != id@);
            }
        }
    }
    if forall|k: int| 0 <= k < t.entries@.len() ==> (#[trigger] t.entries@[k]).item_id@ != id@ {
        if index_of_item(t@, id@, 0) is Some {
            let n = index_of_item(t@, id@, 0)->Some_0;
            assert(t.entries@[n].item_id@ != id@);
        }
    }
}

/// An item bars a file exactly when it is required and is none of the five that are recognised,
/// and the first that does is named.
pub proof fn only_a_required_unknown_item_bars_a_file(t: MetadataTable, r: Option<&MetadataEntry>)
    requires
        call_ensures(MetadataTable::unknown_required, (&t,), r),
    ensures
        call_requires(MetadataTable::unknown_required, (&t,)),
        r is None <==> forall|i: int|
            0 <= i < t.entries@.len() && (#[trigger] t.entries@[i]).flags / 4 % 2 == 1 ==> {
                let id = t.entries@[i].item_id@;
                ||| id == item_ids::FILE_PARAMETERS@
                ||| id == item_ids::VIRTUAL_DISK_SIZE@
                ||| id == item_ids::LOGICAL_SECTOR_SIZE@
                ||| id == item_ids::PHYSICAL_SECTOR_SIZE@
                ||| id == item_ids::PAGE_83_DATA@
            },
        r matches Some(e) ==> {
            &&& e.flags / 4 % 2 == 1
            &&& e.item_id@ != item_ids::FILE_PARAMETERS@
            &&& e.item_id@ != item_ids::VIRTUAL_DISK_SIZE@
            &&& e.item_id@ != item_ids::LOGICAL_SECTOR_SIZE@
            &&& e.item_id@ != item_ids::PHYSICAL_SECTOR_SIZE@
            &&& e.item_id@ != item_ids::PAGE_83_DATA@
            &&& exists|i: int| 0 <= i < t.entries@.len() && (#[trigger] t.entries@[i])@ == e@
        },
{
    lemma_first_barring_item(t@, 0);
    assert forall|i: int| 0 <= i < t.entries@.len() implies t@[i] == (#[trigger] t.entries@[i])@ by {}
    match index_of_barring_item(t@, 0) {
        Some(i) => {
            assert(t.entries@[i]@ == t@[i]);
        },
        None => {
            assert forall|k: int| 0 <= k < t.entries@.len() && (
            #[trigger] t.entries@[k]).flags / 4 % 2 == 1 implies is_known_item(
                t.entries@[k].item_id@,
            ) by {
                assert(!bars_loading(t@[k]));
            }
        },
    }
}

/// The File Parameters item is two numbers of 32 bits, the block size and the flags, of which the
/// second tells a differencing image.
pub proof fn file_parameters_are_two_numbers(
    bytes: &[u8],
    r: Result<FileParameters>,
    p: FileParameters,
    parent: bool,
)
    requires
        call_ensures(FileParameters::parse, (bytes,), r),
        call_ensures(FileParameters::has_parent, (&p,), parent),
    ensures
        call_requires(FileParameters::parse, (bytes,)),
        call_requires(FileParameters::has_parent, (&p,)),
        r is Ok <==> bytes@.len() >= 8,
        r matches Ok(q) ==> {
            &&& le32_bytes(q.block_size as int) == bytes@.subrange(0, 4)
            &&& le32_bytes(q.flags as int) == bytes@.subrange(4, 8)
        },
        r matches Err(e) ==> e is BadMetadata,
        parent <==> p.flags % 4 >= 2,
{
    if bytes@.len() >= 8 {
        lemma_le32_digits(bytes@, 0);
        lemma_le32_digits(bytes@, 4);
    }
}

/// The size items are one number each, of which every byte counts.
pub proof fn size_items_are_one_number(bytes: &[u8], disk: Result<u64>, sector: Result<u32>)
    requires
        call_ensures(read_virtual_disk_size, (bytes,), disk),
        call_ensures(read_sector_size, (bytes,), sector),
    ensures
        call_requires(read_virtual_disk_size, (bytes,)),
        call_requires(read_sector_size, (bytes,)),
        disk is Ok <==> bytes@.len() >= 8,
        disk matches Ok(n) ==> le64_bytes(n as int) == bytes@.subrange(0, 8),
        disk matches Err(e) ==> e is BadMetadata,
        sector is Ok <==> bytes@.len() >= 4,
        sector matches Ok(n) ==> le32_bytes(n as int) == bytes@.subrange(0, 4),
        sector matches Err(e) ==> e is BadMetadata,
{
    if bytes@.len() >= 4 {
        lemma_le32_digits(bytes@, 0);
    }
    if bytes@.len() >= 8 {
        lemma_le64_digits(bytes@, 0);
    }
}

/// Whether a GUID is printed with these groups: the first three are numbers, the rest is bytes.
pub open spec fn is_printed(
    guid: Seq<u8>,
    first: int,
    second: int,
    third: int,
    rest: Seq<u8>,
) -> bool {
    &&& guid.len() == 16
    &&& le32(guid, 0) == first
    &&& le16(guid, 4) == second
    &&& le16(guid, 6) == third
    &&& guid.subrange(8, 16) == rest
}

/// The five items that are known have the IDs
/// CAA16737-FA36-4D43-B3B6-33F0AA44E76B,
/// 2FA54224-CD1B-4876-B211-5DBED83BF4B8,
/// 8141BF1D-A96F-4709-BA47-F233A8FAAB5F,
/// CDA348C7-445D-4471-9CC9-E9885251C556,
/// BECA12AB-B2E6-4523-93EF-C309E000C746.
pub proof fn the_known_items_have_their_ids()
    ensures
        is_printed(
            item_ids::FILE_PARAMETERS@,
            0xCAA16737,
            0xFA36,
            0x4D43,
            seq![0xB3u8, 0xB6u8, 0x33u8, 0xF0u8, 0xAAu8, 0x44u8, 0xE7u8, 0x6Bu8],
        ),
        is_printed(
            item_ids::VIRTUAL_DISK_SIZE@,
            0x2FA54224,
            0xCD1B,
            0x4876,
            seq![0xB2u8, 0x11u8, 0x5Du8, 0xBEu8, 0xD8u8, 0x3Bu8, 0xF4u8, 0xB8u8],
        ),
        is_printed(
            item_ids::LOGICAL_SECTOR_SIZE@,
            0x8141BF1D,
            0xA96F,
            0x4709,
            seq![0xBAu8, 0x47u8, 0xF2u8, 0x33u8, 0xA8u8, 0xFAu8, 0xABu8, 0x5Fu8],
        ),
        is_printed(
            item_ids::PHYSICAL_SECTOR_SIZE@,
            0xCDA348C7,
            0x445D,
            0x4471,
            seq![0x9Cu8, 0xC9u8, 0xE9u8, 0x88u8, 0x52u8, 0x51u8, 0xC5u8, 0x56u8],
        ),
        is_printed(
            item_ids::PAGE_83_DATA@,
            0xBECA12AB,
            0xB2E6,
            0x4523,
            seq![0x93u8, 0xEFu8, 0xC3u8, 0x09u8, 0xE0u8, 0x00u8, 0xC7u8, 0x46u8],
        ),
{
    assert(item_ids::FILE_PARAMETERS@.subrange(8, 16) =~= seq![
        0xB3u8,
        0xB6u8,
        0x33u8,
        0xF0u8,
        0xAAu8,
        0x44u8,
        0xE7u8,
        0x6Bu8,
    ]);
    assert(item_ids::VIRTUAL_DISK_SIZE@.subrange(8, 16) =~= seq![
        0xB2u8,
        0x11u8,
        0x5Du8,
        0xBEu8,
        0xD8u8,
        0x3Bu8,
        0xF4u8,
        0xB8u8,
    ]);
    assert(item_ids::LOGICAL_SECTOR_SIZE@.subrange(8, 16) =~= seq![
        0xBAu8,
        0x47u8,
        0xF2u8,
        0x33u8,
        0xA8u8,
        0xFAu8,
        0xABu8,
        0x5Fu8,
    ]);
    assert(item_ids::PHYSICAL_SECTOR_SIZE@.subrange(8, 16) =~= seq![
        0x9Cu8,
        0xC9u8,
        0xE9u8,
        0x88u8,
        0x52u8,
        0x51u8,
        0xC5u8,
        0x56u8,
    ]);
    assert(item_ids::PAGE_83_DATA@.subrange(8, 16) =~= seq![
        0x93u8,
        0xEFu8,
        0xC3u8,
        0x09u8,
        0xE0u8,
        0x00u8,
        0xC7u8,
        0x46u8,
    ]);
}

} // verus!

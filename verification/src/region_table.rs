//! VHDX region table (64 KiB at file offsets 192 KiB and 256 KiB).
//!
//! Lookup table for well-known regions: BAT, Metadata. The format allows other
//! (vendor-defined) regions; one that is marked as required and not known here means
//! that the file must not be loaded.
//!
//! Layout:
//!
//! ```text
//!   0   4   signature "regi"
//!   4   4   checksum (CRC-32C with field zeroed)
//!   8   4   entry_count
//!  12   4   reserved
//!  16  ... entries (32 bytes each, up to entry_count = 2047)
//! ```
//!
//! Entry layout (32 bytes):
//!
//! ```text
//!   0  16  guid
//!  16   8  file_offset
//!  24   4  length
//!  28   4  required (bit 0 = required-by-this-impl)
//! ```
use crate::bytes::{matches_at, read_guid, same_guid};
use crate::checksum::{checksum, checksum_of, lemma_checksum_ignores_its_field};
use crate::checksum::lemma_one_byte_changes_the_checksum;
use crate::endian::{le16, le32, le32_bytes, le64, le64_bytes, lemma_le32_digits, lemma_le64_digits};
use crate::endian::{read_u32_le, read_u64_le};
use crate::error::{Error, Result};
use vstd::prelude::*;
use vstd::slice::slice_subrange;

pub mod guids;

verus! {

/// Largest `entry_count` the region table header may declare.
pub const MAX_REGION_ENTRIES: u32 = 2047;

pub const REGION_TABLE_SIZE: usize = 64 * 1024;

pub const REGION_TABLE1_OFFSET: u64 = 192 * 1024;

pub const REGION_TABLE2_OFFSET: u64 = 256 * 1024;

/// "regi"
pub const REGION_TABLE_SIGNATURE: [u8; 4] = [0x72, 0x65, 0x67, 0x69];

/// Where one region lies.
#[derive(Debug, Clone, Copy)]
pub struct RegionEntry {
    pub guid: [u8; 16],
    pub file_offset: u64,
    pub length: u32,
    pub required: bool,
}

/// A decoded region table.
#[derive(Debug, Clone)]
pub struct RegionTable {
    pub entries: Vec<RegionEntry>,
}

/// What a [`RegionEntry`] says.
#[verifier::ext_equal]
pub struct RegionView {
    pub guid: Seq<u8>,
    pub file_offset: int,
    pub length: int,
    pub required: bool,
}

impl View for RegionEntry {
    type V = RegionView;

    open spec fn view(&self) -> RegionView {
        RegionView {
            guid: self.guid@,
            file_offset: self.file_offset as int,
            length: self.length as int,
            required: self.required,
        }
    }
}

impl View for RegionTable {
    type V = Seq<RegionView>;

    open spec fn view(&self) -> Seq<RegionView> {
        Seq::new(self.entries@.len(), |i: int| self.entries@[i]@)
    }
}

/// What entry `i` of the region table in `bytes` says.
pub open spec fn region_at(bytes: Seq<u8>, i: int) -> RegionView {
    let off = 16 + 32 * i;
    RegionView {
        guid: bytes.subrange(off, off + 16),
        file_offset: le64(bytes, off + 16),
        length: le32(bytes, off + 24),
        required: le32(bytes, off + 28) % 2 == 1,
    }
}

/// Why `bytes` do not start with a usable region table, given `crc` as the checksum of
/// the first 64 KiB; `None` when they do.
pub open spec fn region_table_fault(bytes: Seq<u8>, crc: u32) -> Option<Error> {
    if bytes.len() < 0x1_0000 {
        Some(Error::Corrupt("region table shorter than 64 KiB"))
    } else if bytes.subrange(0, 4) != REGION_TABLE_SIGNATURE@ {
        Some(Error::Corrupt("region-table signature mismatch"))
    } else if le32(bytes, 4) != crc {
        Some(
            Error::BadChecksum { expected: le32(bytes, 4) as u32, found: crc, what: "region-table" },
        )
    } else if le32(bytes, 8) > 2047 {
        Some(Error::Corrupt("region-table entry_count > 2047"))
    } else {
        None
    }
}

/// The entries of the region table in `bytes`.
pub open spec fn regions_at(bytes: Seq<u8>) -> Seq<RegionView> {
    Seq::new(le32(bytes, 8) as nat, |i: int| region_at(bytes, i))
}

/// The region table that `bytes` start with, or why there is none.
pub open spec fn region_table_meaning(bytes: Seq<u8>) -> core::result::Result<
    Seq<RegionView>,
    Error,
> {
    match region_table_fault(bytes, checksum_of(bytes.subrange(0, 0x1_0000))) {
        Some(why) => Err(why),
        None => Ok(regions_at(bytes)),
    }
}

/// The index of the first region, from index `i` on, with this GUID.
pub open spec fn index_of_region(entries: Seq<RegionView>, guid: Seq<u8>, i: int) -> Option<int>
    decreases entries.len() - i,
{
    if i >= entries.len() {
        None
    } else if entries[i].guid == guid {
        Some(i)
    } else {
        index_of_region(entries, guid, i + 1)
    }
}

/// The first region with this GUID.
pub open spec fn region_named(entries: Seq<RegionView>, guid: Seq<u8>) -> Option<RegionView> {
    match index_of_region(entries, guid, 0) {
        Some(i) => Some(entries[i]),
        None => None,
    }
}

/// Whether a region is one that this library knows how to honour.
pub open spec fn is_known_region(guid: Seq<u8>) -> bool {
    guid == guids::BAT@ || guid == guids::METADATA@
}

/// Whether a region bars the file from being loaded: it is required and not known.
pub open spec fn bars_loading(r: RegionView) -> bool {
    r.required && !is_known_region(r.guid)
}

/// The index of the first region, from index `i` on, that bars the file from being
/// loaded.
pub open spec fn index_of_barring_region(entries: Seq<RegionView>, i: int) -> Option<int>
    decreases entries.len() - i,
{
    if i >= entries.len() {
        None
    } else if bars_loading(entries[i]) {
        Some(i)
    } else {
        index_of_barring_region(entries, i + 1)
    }
}

/// CRC-32C of the region table with the checksum field zeroed.
pub fn compute_crc(bytes: &[u8]) -> (crc: u32)
    requires
        bytes.len() >= REGION_TABLE_SIZE,
    ensures
        crc == checksum_of(bytes@.subrange(0, 0x1_0000)),
{
    checksum(slice_subrange(bytes, 0, REGION_TABLE_SIZE))
}

impl RegionTable {
    /// Decode and validate the region table that `bytes` start with.
    pub fn parse(bytes: &[u8]) -> (r: Result<RegionTable>)
        ensures
            match r {
                Ok(t) => region_table_meaning(bytes@) == Ok::<Seq<RegionView>, Error>(t@),
                Err(e) => region_table_meaning(bytes@) == Err::<Seq<RegionView>, Error>(e),
            },
    {
        if bytes.len() < REGION_TABLE_SIZE {
            return Err(Error::Corrupt("region table shorter than 64 KiB"));
        }
        let crc: u32 = compute_crc(bytes);
        RegionTable::parse_given(bytes, crc)
    }

    /// Decode and validate the region table that `bytes` start with, given `crc` as the
    /// checksum of its 64 KiB.
    pub fn parse_given(bytes: &[u8], crc: u32) -> (r: Result<RegionTable>)
        ensures
            match r {
                Ok(t) => region_table_fault(bytes@, crc) is None && t@ == regions_at(bytes@),
                Err(e) => region_table_fault(bytes@, crc) == Some(e),
            },
    {
        if bytes.len() < REGION_TABLE_SIZE {
            return Err(Error::Corrupt("region table shorter than 64 KiB"));
        }
        let signature: [u8; 4] = REGION_TABLE_SIGNATURE;
        if !matches_at(bytes, 0, signature.as_slice()) {
            return Err(Error::Corrupt("region-table signature mismatch"));
        }
        let stored_crc: u32 = read_u32_le(bytes, 4);
        if stored_crc != crc {
            return Err(
                Error::BadChecksum { expected: stored_crc, found: crc, what: "region-table" },
            );
        }
        let entry_count: u32 = read_u32_le(bytes, 8);
        if entry_count > MAX_REGION_ENTRIES {
            return Err(Error::Corrupt("region-table entry_count > 2047"));
        }
        let mut entries: Vec<RegionEntry> = Vec::with_capacity(entry_count as usize);
        let mut i: usize = 0;
        while i < entry_count as usize
            invariant
                i <= entry_count <= 2047,
                bytes.len() >= 0x1_0000,
                entries@.len() == i,
                forall|k: int| 0 <= k < i ==> #[trigger] entries@[k]@ == region_at(bytes@, k),
            decreases entry_count - i,
        {
            let off: usize = 16 + i * 32;
            let entry = RegionEntry {
                guid: read_guid(bytes, off),
                file_offset: read_u64_le(bytes, off + 16),
                length: read_u32_le(bytes, off + 24),
                required: read_u32_le(bytes, off + 28) % 2 == 1,
            };
            assert(entry@ == region_at(bytes@, i as int));
            entries.push(entry);
            i += 1;
        }
        let table = RegionTable { entries };
        assert(table@ =~= regions_at(bytes@));
        Ok(table)
    }

    /// The first region with the GUID `target`.
    pub fn find(&self, target: &[u8; 16]) -> (r: Option<&RegionEntry>)
        ensures
            match r {
                Some(e) => region_named(self@, target@) == Some(e@),
                None => region_named(self@, target@) is None,
            },
    {
        let mut i: usize = 0;
        while i < self.entries.len()
            invariant
                i <= self.entries.len(),
                index_of_region(self@, target@, 0) == index_of_region(self@, target@, i as int),
            decreases self.entries.len() - i,
        {
            if same_guid(&self.entries[i].guid, target) {
                return Some(&self.entries[i]);
            }
            i += 1;
        }
        None
    }

    /// The first region that is required and not known. A file that has one must not be
    /// loaded: the region may transform the payload.
    pub fn unknown_required(&self) -> (r: Option<&RegionEntry>)
        ensures
            match r {
                Some(e) => index_of_barring_region(self@, 0) matches Some(i) && self@[i] == e@,
                None => index_of_barring_region(self@, 0) is None,
            },
    {
        let mut i: usize = 0;
        while i < self.entries.len()
            invariant
                i <= self.entries.len(),
                index_of_barring_region(self@, 0) == index_of_barring_region(self@, i as int),
            decreases self.entries.len() - i,
        {
            let entry: &RegionEntry = &self.entries[i];
            let bat: [u8; 16] = guids::BAT;
            let metadata: [u8; 16] = guids::METADATA;
            if entry.required && !same_guid(&entry.guid, &bat) && !same_guid(
                &entry.guid,
                &metadata,
            ) {
                return Some(entry);
            }
            i += 1;
        }
        None
    }
}

/// Where a search for a region lands: at the first region with the GUID, if there is one.
pub proof fn lemma_first_region(entries: Seq<RegionView>, guid: Seq<u8>, from: int)
    requires
        0 <= from <= entries.len(),
    ensures
        match index_of_region(entries, guid, from) {
            Some(i) => from <= i < entries.len() && entries[i].guid == guid && forall|k: int|
                from <= k < i ==> (#[trigger] entries[k]).guid != guid,
            None => forall|k: int|
                from <= k < entries.len() ==> (#[trigger] entries[k]).guid != guid,
        },
    decreases entries.len() - from,
{
    if from < entries.len() && entries[from].guid != guid {
        lemma_first_region(entries, guid, from + 1);
    }
}

/// Where a search for a region that bars the file lands: at the first one, if there is one.
pub proof fn lemma_first_barring_region(entries: Seq<RegionView>, from: int)
    requires
        0 <= from <= entries.len(),
    ensures
        match index_of_barring_region(entries, from) {
            Some(i) => from <= i < entries.len() && bars_loading(entries[i]) && forall|k: int|
                from <= k < i ==> !bars_loading(#[trigger] entries[k]),
            None => forall|k: int|
                from <= k < entries.len() ==> !bars_loading(#[trigger] entries[k]),
        },
    decreases entries.len() - from,
{
    if from < entries.len() && !bars_loading(entries[from]) {
        lemma_first_barring_region(entries, from + 1);
    }
}

/// What a region table is: the four bytes "regi", a checksum over all 64 KiB, and at most 2047
/// entries. Whatever else the bytes hold, they parse, and each field of each entry is where the
/// format puts it; bytes that lack one of these do not.
pub proof fn a_region_table_is_its_signature_checksum_and_count(
    bytes: &[u8],
    r: Result<RegionTable>,
)
    requires
        call_ensures(RegionTable::parse, (bytes,), r),
    ensures
        call_requires(RegionTable::parse, (bytes,)),
        r is Ok <==> {
            &&& bytes@.len() >= 65536
            &&& bytes@[0] == 0x72 && bytes@[1] == 0x65 && bytes@[2] == 0x67 && bytes@[3] == 0x69
            &&& le32(bytes@, 4) == checksum_of(bytes@.subrange(0, 65536))
            &&& le32(bytes@, 8) <= 2047
        },
        r matches Ok(t) ==> {
            &&& t.entries@.len() == le32(bytes@, 8)
            &&& forall|i: int|
                0 <= i < t.entries@.len() ==> {
                    let e = #[trigger] t.entries@[i];
                    let at = 16 + 32 * i;
                    &&& e.guid@ == bytes@.subrange(at, at + 16)
                    &&& le64_bytes(e.file_offset as int) == bytes@.subrange(at + 16, at + 24)
                    &&& le32_bytes(e.length as int) == bytes@.subrange(at + 24, at + 28)
                    &&& e.required <==> bytes@[at + 28] % 2 == 1
                }
        },
        r matches Err(e) ==> {
            &&& e is BadChecksum <==> bytes@.len() >= 65536 && bytes@.subrange(0, 4)
                == REGION_TABLE_SIGNATURE@ && le32(bytes@, 4) != checksum_of(
                bytes@.subrange(0, 65536),
            )
            &&& !(e is BadChecksum) ==> e is Corrupt
        },
{
    let b = bytes@;
    if b.len() >= 65536 {
        let sig = b.subrange(0, 4);
        if sig[0] == 0x72 && sig[1] == 0x65 && sig[2] == 0x67 && sig[3] == 0x69 {
            assert(sig =~= REGION_TABLE_SIGNATURE@);
        }
        if r is Ok {
            let t = r->Ok_0;
            assert(t@.len() == t.entries@.len());
            assert forall|i: int| 0 <= i < t.entries@.len() implies {
                let e = #[trigger] t.entries@[i];
                let at = 16 + 32 * i;
                &&& e.guid@ == b.subrange(at, at + 16)
                &&& le64_bytes(e.file_offset as int) == b.subrange(at + 16, at + 24)
                &&& le32_bytes(e.length as int) == b.subrange(at + 24, at + 28)
                &&& e.required <==> b[at + 28] % 2 == 1
            } by {
                let at = 16 + 32 * i;
                assert(t@[i] == region_at(b, i));
                lemma_le64_digits(b, at + 16);
                lemma_le32_digits(b, at + 24);
            }
        }
    }
}

/// A valid region table of which one byte was damaged is no longer valid.
pub proof fn a_damaged_region_table_is_refused(
    a: &[u8],
    b: &[u8],
    r: Result<RegionTable>,
    q: Result<RegionTable>,
    i: int,
)
    requires
        a@.len() == b@.len(),
        0 <= i < 65536,
        a@[i] != b@[i],
        forall|k: int| 0 <= k < 65536 && k != i ==> a@[k] == b@[k],
        call_ensures(RegionTable::parse, (a,), r),
        call_ensures(RegionTable::parse, (b,), q),
        r is Ok,
    ensures
        q is Err,
{
    let s = a@.subrange(0, 65536);
    let t = b@.subrange(0, 65536);
    assert(le32(s, 4) == le32(a@, 4) && le32(t, 4) == le32(b@, 4));
    if 4 <= i < 8 {
        lemma_checksum_ignores_its_field(s, t);
        assert(le32(s, 4) != le32(t, 4));
    } else {
        lemma_one_byte_changes_the_checksum(s, t, i);
    }
}

/// A region is found by its GUID, and of several with one GUID the first is.
pub proof fn a_region_is_found_by_its_guid(
    t: RegionTable,
    target: [u8; 16],
    r: Option<&RegionEntry>,
)
    requires
        call_ensures(RegionTable::find, (&t, &target), r),
    ensures
        call_requires(RegionTable::find, (&t, &target)),
        r is None <==> forall|i: int|
            0 <= i < t.entries@.len() ==> (#[trigger] t.entries@[i]).guid@ != target@,
        r matches Some(e) ==> exists|i: int|
            {
                &&& 0 <= i < t.entries@.len()
                &&& (#[trigger] t.entries@[i])@ == e@
                &&& e.guid@ == target@
                &&& forall|k: int| 0 <= k < i ==> (#[trigger] t.entries@[k]).guid@ != target@
            },
{
    lemma_first_region(t@, target@, 0);
    assert forall|i: int| 0 <= i < t.entries@.len() implies t@[i].guid == (
    #[trigger] t.entries@[i]).guid@ by {}
    match index_of_region(t@, target@, 0) {
        Some(i) => {
            assert(t.entries@[i]@ == t@[i]);
            assert forall|k: int| 0 <= k < i implies (#[trigger] t.entries@[k]).guid@ != target@ by {
                assert(t@[k].guid != target@);
            }
        },
        None => {
            assert forall|k: int| 0 <= k < t.entries@.len() implies (
            #[trigger] t.entries@[k]).guid@ != target@ by {
                assert(t@[k].guid != target@);
            }
        },
    }
}

/// A region bars a file exactly when it is required and is neither the BAT nor the metadata, and
/// the first that does is named.
pub proof fn only_a_required_unknown_region_bars_a_file(t: RegionTable, r: Option<&RegionEntry>)
    requires
        call_ensures(RegionTable::unknown_required, (&t,), r),
    ensures
        call_requires(RegionTable::unknown_required, (&t,)),
        r is None <==> forall|i: int|
            0 <= i < t.entries@.len() && (#[trigger] t.entries@[i]).required
                ==> t.entries@[i].guid@ == guids::BAT@ || t.entries@[i].guid@ == guids::METADATA@,
        r matches Some(e) ==> {
            &&& e.required
            &&& e.guid@ != guids::BAT@
            &&& e.guid@ != guids::METADATA@
            &&& exists|i: int|
                {
                    &&& 0 <= i < t.entries@.len()
                    &&& (#[trigger] t.entries@[i])@ == e@
                    &&& forall|k: int|
                        0 <= k < i && (#[trigger] t.entries@[k]).required ==> t.entries@[k].guid@
                            == guids::BAT@ || t.entries@[k].guid@ == guids::METADATA@
                }
        },
{
    lemma_first_barring_region(t@, 0);
    assert forall|i: int| 0 <= i < t.entries@.len() implies bars_loading(t@[i]) == ((
    #[trigger] t.entries@[i]).required && t.entries@[i].guid@ != guids::BAT@ && t.entries@[i].guid@
        != guids::METADATA@) by {}
    match index_of_barring_region(t@, 0) {
        Some(i) => {
            assert(t.entries@[i]@ == t@[i]);
            assert forall|k: int| 0 <= k < i && (#[trigger] t.entries@[k]).required implies
                t.entries@[k].guid@ == guids::BAT@ || t.entries@[k].guid@ == guids::METADATA@ by {
                assert(!bars_loading(t@[k]));
            }
        },
        None => {
            assert forall|k: int| 0 <= k < t.entries@.len() && (
            #[trigger] t.entries@[k]).required implies t.entries@[k].guid@ == guids::BAT@
                || t.entries@[k].guid@ == guids::METADATA@ by {
                assert(!bars_loading(t@[k]));
            }
        },
    }
}

/// A region table may be parsed with its checksum at hand: with the right one it parses as it does
/// without, and with another it is refused for it.
pub proof fn the_checksum_of_a_region_table_may_be_given(
    bytes: &[u8],
    right: u32,
    crc: u32,
    r: Result<RegionTable>,
    s: Result<RegionTable>,
)
    requires
        bytes@.len() >= 0x1_0000,
        call_ensures(compute_crc, (bytes,), right),
        call_ensures(RegionTable::parse, (bytes,), r),
        call_ensures(RegionTable::parse_given, (bytes, crc), s),
    ensures
        call_requires(compute_crc, (bytes,)),
        call_requires(RegionTable::parse_given, (bytes, crc)),
        crc == right ==> match r {
            Ok(t) => s matches Ok(same) && same@ == t@,
            Err(why) => s == Err::<RegionTable, Error>(why),
        },
        bytes@.subrange(0, 4) == REGION_TABLE_SIGNATURE@ && le32(bytes@, 4) != crc ==> s == Err::<
            RegionTable,
            Error,
        >(Error::BadChecksum { expected: le32(bytes@, 4) as u32, found: crc, what: "region-table" }),
        s is Ok ==> le32(bytes@, 4) == crc,
{
}

/// The two regions that are known have the GUIDs 2DC27766-F623-4200-9D64-115E9BFD4A08 and
/// 8B7CA206-4790-4B9A-B8FE-575F050F886E, the first three groups of each as numbers.
pub proof fn the_known_regions_have_their_guids()
    ensures
        le32(guids::BAT@, 0) == 0x2DC27766,
        le16(guids::BAT@, 4) == 0xF623,
        le16(guids::BAT@, 6) == 0x4200,
        guids::BAT@.subrange(8, 16) == seq![
            0x9Du8,
            0x64u8,
            0x11u8,
            0x5Eu8,
            0x9Bu8,
            0xFDu8,
            0x4Au8,
            0x08u8,
        ],
        le32(guids::METADATA@, 0) == 0x8B7CA206,
        le16(guids::METADATA@, 4) == 0x4790,
        le16(guids::METADATA@, 6) == 0x4B9A,
        guids::METADATA@.subrange(8, 16) == seq![
            0xB8u8,
            0xFEu8,
            0x57u8,
            0x5Fu8,
            0x05u8,
            0x0Fu8,
            0x88u8,
            0x6Eu8,
        ],
{
}

} // verus!

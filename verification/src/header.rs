//! VHDX header (4 KiB at file offset 64 KiB and 128 KiB; the higher
//! `sequence_number` of the two valid copies wins).
//!
//! Layout (offsets within the 4 KiB header):
//!
//! ```text
//!   0   4   signature "head"
//!   4   4   checksum (CRC-32C with field zeroed)
//!   8   8   sequence_number
//!  16  16   file_write_guid
//!  32  16   data_write_guid
//!  48  16   log_guid
//!  64   2   log_version
//!  66   2   version
//!  68   4   log_length
//!  72   8   log_offset
//!  80 4016  reserved
//! ```
use crate::bytes::{matches_at, push_bytes, push_zeros, read_guid, zeros};
use crate::checksum::{checksum, checksum_of, lemma_checksum_ignores_its_field};
use crate::checksum::{lemma_one_byte_changes_the_checksum, lemma_sealed, seal, sealed};
use crate::endian::{le16, le16_bytes, le32, le32_bytes, le64, le64_bytes, lemma_le16_bytes};
use crate::endian::{lemma_le16_digits, lemma_le16_of_equal_bytes, lemma_le32_bytes};
use crate::endian::{lemma_le32_digits, lemma_le32_of_equal_bytes, lemma_le64_bytes};
use crate::endian::{lemma_le64_digits, lemma_le64_of_equal_bytes, push_u16_le, push_u32_le};
use crate::endian::{push_u64_le, read_u16_le, read_u32_le, read_u64_le};
use crate::error::{Error, Result};
use vstd::prelude::*;
use vstd::slice::slice_subrange;

verus! {

pub const HEADER_SIZE: usize = 4096;

pub const HEADER1_OFFSET: u64 = 64 * 1024;

pub const HEADER2_OFFSET: u64 = 128 * 1024;

/// "head"
pub const HEADER_SIGNATURE: [u8; 4] = [0x68, 0x65, 0x61, 0x64];

pub const HEADER_VERSION: u16 = 1;

/// The only log format that is defined.
pub const LOG_VERSION_V0: u16 = 0;

/// A decoded header.
#[derive(Debug, Clone, Copy)]
pub struct Header {
    pub sequence_number: u64,
    pub file_write_guid: [u8; 16],
    pub data_write_guid: [u8; 16],
    pub log_guid: [u8; 16],
    pub log_version: u16,
    pub version: u16,
    pub log_length: u32,
    pub log_offset: u64,
}

/// What a [`Header`] says.
#[verifier::ext_equal]
pub struct HeaderView {
    pub sequence_number: int,
    pub file_write_guid: Seq<u8>,
    pub data_write_guid: Seq<u8>,
    pub log_guid: Seq<u8>,
    pub log_version: int,
    pub version: int,
    pub log_length: int,
    pub log_offset: int,
}

impl View for Header {
    type V = HeaderView;

    open spec fn view(&self) -> HeaderView {
        HeaderView {
            sequence_number: self.sequence_number as int,
            file_write_guid: self.file_write_guid@,
            data_write_guid: self.data_write_guid@,
            log_guid: self.log_guid@,
            log_version: self.log_version as int,
            version: self.version as int,
            log_length: self.log_length as int,
            log_offset: self.log_offset as int,
        }
    }
}

/// What the fields of the header in `bytes` say.
pub open spec fn header_at(bytes: Seq<u8>) -> HeaderView {
    HeaderView {
        sequence_number: le64(bytes, 8),
        file_write_guid: bytes.subrange(16, 32),
        data_write_guid: bytes.subrange(32, 48),
        log_guid: bytes.subrange(48, 64),
        log_version: le16(bytes, 64),
        version: le16(bytes, 66),
        log_length: le32(bytes, 68),
        log_offset: le64(bytes, 72),
    }
}

/// Why `bytes` do not start with a usable header, given `crc` as the checksum of the
/// first 4 KiB; `None` when they do.
pub open spec fn header_fault(bytes: Seq<u8>, crc: u32) -> Option<Error> {
    if bytes.len() < 4096 {
        Some(Error::Corrupt("header shorter than 4 KiB"))
    } else if bytes.subrange(0, 4) != HEADER_SIGNATURE@ {
        Some(Error::Corrupt("header signature mismatch"))
    } else if le32(bytes, 4) != crc {
        Some(Error::BadChecksum { expected: le32(bytes, 4) as u32, found: crc, what: "header" })
    } else if le16(bytes, 66) != 1 {
        Some(Error::Corrupt("unsupported VHDX header version"))
    } else {
        None
    }
}

/// The header that `bytes` start with, or why there is none.
pub open spec fn header_meaning(bytes: Seq<u8>) -> core::result::Result<HeaderView, Error> {
    match header_fault(bytes, checksum_of(bytes.subrange(0, 4096))) {
        Some(why) => Err(why),
        None => Ok(header_at(bytes)),
    }
}

/// Compute the header's CRC-32C with the checksum field zeroed.
pub fn compute_crc(bytes: &[u8]) -> (crc: u32)
    requires
        bytes.len() >= HEADER_SIZE,
    ensures
        crc == checksum_of(bytes@.subrange(0, 4096)),
{
    checksum(slice_subrange(bytes, 0, HEADER_SIZE))
}

impl Header {
    /// Decode and validate the header that `bytes` start with.
    pub fn parse(bytes: &[u8]) -> (r: Result<Header>)
        ensures
            match r {
                Ok(h) => header_meaning(bytes@) == Ok::<HeaderView, Error>(h@),
                Err(e) => header_meaning(bytes@) == Err::<HeaderView, Error>(e),
            },
    {
        if bytes.len() < HEADER_SIZE {
            return Err(Error::Corrupt("header shorter than 4 KiB"));
        }
        let crc: u32 = compute_crc(bytes);
        Header::parse_given(bytes, crc)
    }

    /// Decode and validate the header that `bytes` start with, given `crc` as the
    /// checksum of its 4 KiB.
    pub fn parse_given(bytes: &[u8], crc: u32) -> (r: Result<Header>)
        ensures
            match r {
                Ok(h) => header_fault(bytes@, crc) is None && h@ == header_at(bytes@),
                Err(e) => header_fault(bytes@, crc) == Some(e),
            },
    {
        if bytes.len() < HEADER_SIZE {
            return Err(Error::Corrupt("header shorter than 4 KiB"));
        }
        let signature: [u8; 4] = HEADER_SIGNATURE;
        if !matches_at(bytes, 0, signature.as_slice()) {
            return Err(Error::Corrupt("header signature mismatch"));
        }
        let stored_crc: u32 = read_u32_le(bytes, 4);
        if stored_crc != crc {
            return Err(Error::BadChecksum { expected: stored_crc, found: crc, what: "header" });
        }
        let version: u16 = read_u16_le(bytes, 66);
        if version != HEADER_VERSION {
            return Err(Error::Corrupt("unsupported VHDX header version"));
        }
        let header = Header {
            sequence_number: read_u64_le(bytes, 8),
            file_write_guid: read_guid(bytes, 16),
            data_write_guid: read_guid(bytes, 32),
            log_guid: read_guid(bytes, 48),
            log_version: read_u16_le(bytes, 64),
            version,
            log_length: read_u32_le(bytes, 68),
            log_offset: read_u64_le(bytes, 72),
        };
        Ok(header)
    }
}

/// The 4 KiB on-disk form of the header `h`, with its checksum field zero.
pub open spec fn unsealed_header(h: HeaderView) -> Seq<u8> {
    HEADER_SIGNATURE@ + zeros(4) + le64_bytes(h.sequence_number) + h.file_write_guid
        + h.data_write_guid + h.log_guid + le16_bytes(h.log_version) + le16_bytes(h.version)
        + le32_bytes(h.log_length) + le64_bytes(h.log_offset) + zeros(4016)
}

/// The 4 KiB on-disk form of the header `h`.
pub open spec fn header_bytes(h: HeaderView) -> Seq<u8> {
    sealed(unsealed_header(h))
}

impl HeaderView {
    /// Whether every field has the width that the on-disk form gives it.
    pub open spec fn fits(self) -> bool {
        &&& 0 <= self.sequence_number <= u64::MAX
        &&& self.file_write_guid.len() == 16
        &&& self.data_write_guid.len() == 16
        &&& self.log_guid.len() == 16
        &&& 0 <= self.log_version <= u16::MAX
        &&& 0 <= self.version <= u16::MAX
        &&& 0 <= self.log_length <= u32::MAX
        &&& 0 <= self.log_offset <= u64::MAX
    }
}

/// Encode a header into the 4 KiB on-disk representation with a fresh CRC-32C in the
/// checksum field.
pub fn encode_header(h: &Header) -> (bytes: Vec<u8>)
    ensures
        bytes@ == header_bytes(h@),
{
    let signature: [u8; 4] = HEADER_SIGNATURE;
    let mut buf: Vec<u8> = Vec::with_capacity(HEADER_SIZE);
    push_bytes(&mut buf, signature.as_slice());
    push_zeros(&mut buf, 4);
    push_u64_le(&mut buf, h.sequence_number);
    push_bytes(&mut buf, h.file_write_guid.as_slice());
    push_bytes(&mut buf, h.data_write_guid.as_slice());
    push_bytes(&mut buf, h.log_guid.as_slice());
    push_u16_le(&mut buf, h.log_version);
    push_u16_le(&mut buf, h.version);
    push_u32_le(&mut buf, h.log_length);
    push_u64_le(&mut buf, h.log_offset);
    push_zeros(&mut buf, HEADER_SIZE - 80);
    assert(buf@ =~= unsealed_header(h@));
    seal(&mut buf);
    buf
}

/// A header that was encoded parses back as it was: nothing is lost, the log version
/// included. The version field has to be the supported one, since no other parses.
pub proof fn encoded_header_parses_back(h: HeaderView)
    requires
        h.fits(),
        h.version == 1,
    ensures
        header_bytes(h).len() == 4096,
        header_meaning(header_bytes(h)) == Ok::<HeaderView, Error>(h),
{
    let body = unsealed_header(h);
    let bytes = header_bytes(h);
    lemma_sealed(body);
    assert(bytes.subrange(0, 4096) =~= bytes);
    assert(bytes.subrange(0, 4) =~= HEADER_SIGNATURE@);
    lemma_header_fields(h);
}

/// An encoded header is 4 KiB long.
pub proof fn lemma_header_length(h: HeaderView)
    requires
        h.fits(),
    ensures
        header_bytes(h).len() == 4096,
{
}

/// The fields of an encoded header are the header's.
proof fn lemma_header_fields(h: HeaderView)
    requires
        h.fits(),
    ensures
        header_at(header_bytes(h)) == h,
{
    let bytes = header_bytes(h);
    assert(bytes.subrange(8, 16) =~= le64_bytes(h.sequence_number).subrange(0, 8));
    assert(bytes.subrange(16, 32) =~= h.file_write_guid);
    assert(bytes.subrange(32, 48) =~= h.data_write_guid);
    assert(bytes.subrange(48, 64) =~= h.log_guid);
    assert(bytes.subrange(64, 66) =~= le16_bytes(h.log_version).subrange(0, 2));
    assert(bytes.subrange(66, 68) =~= le16_bytes(h.version).subrange(0, 2));
    assert(bytes.subrange(68, 72) =~= le32_bytes(h.log_length).subrange(0, 4));
    assert(bytes.subrange(72, 80) =~= le64_bytes(h.log_offset).subrange(0, 8));
    lemma_le64_of_equal_bytes(bytes, 8, le64_bytes(h.sequence_number), 0);
    lemma_le16_of_equal_bytes(bytes, 64, le16_bytes(h.log_version), 0);
    lemma_le16_of_equal_bytes(bytes, 66, le16_bytes(h.version), 0);
    lemma_le32_of_equal_bytes(bytes, 68, le32_bytes(h.log_length), 0);
    lemma_le64_of_equal_bytes(bytes, 72, le64_bytes(h.log_offset), 0);
    lemma_le64_bytes(h.sequence_number);
    lemma_le16_bytes(h.log_version);
    lemma_le16_bytes(h.version);
    lemma_le32_bytes(h.log_length);
    lemma_le64_bytes(h.log_offset);
}

/// One of the two places where a header is kept.
#[derive(Debug, Clone, Copy, PartialEq, Eq, Structural)]
pub enum HeaderSlot {
    One,
    Two,
}

impl HeaderSlot {
    /// Where the slot lies in the file.
    pub open spec fn position(self) -> int {
        match self {
            HeaderSlot::One => 0x1_0000,
            HeaderSlot::Two => 0x2_0000,
        }
    }

    /// The slot that this one takes turns with.
    pub open spec fn opposite(self) -> HeaderSlot {
        match self {
            HeaderSlot::One => HeaderSlot::Two,
            HeaderSlot::Two => HeaderSlot::One,
        }
    }

    /// Where the slot lies in the file.
    pub fn offset(self) -> (off: u64)
        ensures
            off == self.position(),
    {
        match self {
            HeaderSlot::One => HEADER1_OFFSET,
            HeaderSlot::Two => HEADER2_OFFSET,
        }
    }

    /// The slot that the next header goes to: the two take turns.
    pub fn other(self) -> (slot: HeaderSlot)
        ensures
            slot == self.opposite(),
    {
        match self {
            HeaderSlot::One => HeaderSlot::Two,
            HeaderSlot::Two => HeaderSlot::One,
        }
    }
}

/// Which of the two headers is the active one: the one with the higher sequence number,
/// the first on a tie.
pub open spec fn active_header(first: Option<HeaderView>, second: Option<HeaderView>) -> Option<
    (HeaderView, HeaderSlot),
> {
    match (first, second) {
        (Some(a), Some(b)) => if a.sequence_number >= b.sequence_number {
            Some((a, HeaderSlot::One))
        } else {
            Some((b, HeaderSlot::Two))
        },
        (Some(a), None) => Some((a, HeaderSlot::One)),
        (None, Some(b)) => Some((b, HeaderSlot::Two)),
        (None, None) => None,
    }
}

/// What an optional header says.
pub open spec fn header_view(h: Option<Header>) -> Option<HeaderView> {
    match h {
        Some(h) => Some(h@),
        None => None,
    }
}

/// Pick the active one of the headers found in the two slots.
pub fn pick_header(first: Option<Header>, second: Option<Header>) -> (r: Result<
    (Header, HeaderSlot),
>)
    ensures
        match r {
            Ok((h, slot)) => active_header(header_view(first), header_view(second)) == Some(
                (h@, slot),
            ),
            Err(e) => e == Error::NoValidHeader && first is None && second is None,
        },
{
    match (first, second) {
        (Some(a), Some(b)) => {
            if a.sequence_number >= b.sequence_number {
                Ok((a, HeaderSlot::One))
            } else {
                Ok((b, HeaderSlot::Two))
            }
        },
        (Some(a), None) => Ok((a, HeaderSlot::One)),
        (None, Some(b)) => Ok((b, HeaderSlot::Two)),
        (None, None) => Err(Error::NoValidHeader),
    }
}

/// What a header is: the four bytes "head", a checksum over all 4 KiB, and version 1. Whatever
/// else the bytes hold, they parse, and each field is where the format puts it; bytes that lack
/// one of these do not.
pub proof fn a_header_is_its_signature_checksum_and_version(bytes: &[u8], r: Result<Header>)
    requires
        call_ensures(Header::parse, (bytes,), r),
    ensures
        call_requires(Header::parse, (bytes,)),
        r is Ok <==> {
            &&& bytes@.len() >= 4096
            &&& bytes@[0] == 0x68 && bytes@[1] == 0x65 && bytes@[2] == 0x61 && bytes@[3] == 0x64
            &&& le32(bytes@, 4) == checksum_of(bytes@.subrange(0, 4096))
            &&& bytes@[66] == 1 && bytes@[67] == 0
        },
        r matches Ok(h) ==> {
            &&& le64_bytes(h.sequence_number as int) == bytes@.subrange(8, 16)
            &&& h.file_write_guid@ == bytes@.subrange(16, 32)
            &&& h.data_write_guid@ == bytes@.subrange(32, 48)
            &&& h.log_guid@ == bytes@.subrange(48, 64)
            &&& le16_bytes(h.log_version as int) == bytes@.subrange(64, 66)
            &&& h.version == 1
            &&& le32_bytes(h.log_length as int) == bytes@.subrange(68, 72)
            &&& le64_bytes(h.log_offset as int) == bytes@.subrange(72, 80)
        },
        r matches Err(e) ==> {
            &&& e is BadChecksum <==> bytes@.len() >= 4096 && bytes@.subrange(0, 4)
                == HEADER_SIGNATURE@ && le32(bytes@, 4) != checksum_of(bytes@.subrange(0, 4096))
            &&& !(e is BadChecksum) ==> e is Corrupt
        },
{
    if bytes@.len() >= 4096 {
        let sig = bytes@.subrange(0, 4);
        assert(sig == HEADER_SIGNATURE@ <==> sig[0] == 0x68 && sig[1] == 0x65 && sig[2] == 0x61
            && sig[3] == 0x64) by {
            if sig[0] == 0x68 && sig[1] == 0x65 && sig[2] == 0x61 && sig[3] == 0x64 {
                assert(sig =~= HEADER_SIGNATURE@);
            }
        }
        lemma_le64_digits(bytes@, 8);
        lemma_le16_digits(bytes@, 64);
        lemma_le16_digits(bytes@, 66);
        lemma_le32_digits(bytes@, 68);
        lemma_le64_digits(bytes@, 72);
    }
}

/// A valid header of which one byte was damaged is no longer valid.
pub proof fn a_damaged_header_is_refused(
    a: &[u8],
    b: &[u8],
    r: Result<Header>,
    q: Result<Header>,
    i: int,
)
    requires
        a@.len() == b@.len(),
        0 <= i < 4096,
        a@[i] != b@[i],
        forall|k: int| 0 <= k < 4096 && k != i ==> a@[k] == b@[k],
        call_ensures(Header::parse, (a,), r),
        call_ensures(Header::parse, (b,), q),
        r is Ok,
    ensures
        q is Err,
{
    let s = a@.subrange(0, 4096);
    let t = b@.subrange(0, 4096);
    assert(le32(s, 4) == le32(a@, 4) && le32(t, 4) == le32(b@, 4));
    if 4 <= i < 8 {
        lemma_checksum_ignores_its_field(s, t);
        assert(le32(s, 4) != le32(t, 4));
    } else {
        lemma_one_byte_changes_the_checksum(s, t, i);
    }
}

/// A header that was encoded parses back as it was.
pub proof fn encoding_a_header_loses_nothing(h: Header, bytes: Vec<u8>, b: &[u8], r: Result<Header>)
    requires
        h.version == 1,
        call_ensures(encode_header, (&h,), bytes),
        b@ == bytes@,
        call_ensures(Header::parse, (b,), r),
    ensures
        call_requires(encode_header, (&h,)),
        bytes@.len() == 4096,
        r matches Ok(back) && back@ == h@,
{
    encoded_header_parses_back(h@);
}

/// Of two headers the one with the higher sequence number is picked, the first on a tie; where
/// only one is valid, that one is; and where none is, none.
pub proof fn the_later_header_is_picked(
    first: Option<Header>,
    second: Option<Header>,
    r: Result<(Header, HeaderSlot)>,
)
    requires
        call_ensures(pick_header, (first, second), r),
    ensures
        call_requires(pick_header, (first, second)),
        r is Ok <==> first is Some || second is Some,
        r matches Err(e) ==> e is NoValidHeader,
        r matches Ok((h, slot)) ==> match slot {
            HeaderSlot::One => first matches Some(a) && h@ == a@ && (second matches Some(b)
                ==> b.sequence_number <= a.sequence_number),
            HeaderSlot::Two => second matches Some(b) && h@ == b@ && (first matches Some(a)
                ==> a.sequence_number < b.sequence_number),
        },
{
}

/// The two header slots are 64 KiB apart, behind the file identifier, and take turns.
pub proof fn header_slots_take_turns(slot: HeaderSlot, other: HeaderSlot, at: u64, opposite: u64)
    requires
        call_ensures(HeaderSlot::other, (slot,), other),
        call_ensures(HeaderSlot::offset, (slot,), at),
        call_ensures(HeaderSlot::offset, (other,), opposite),
    ensures
        call_requires(HeaderSlot::other, (slot,)),
        call_requires(HeaderSlot::offset, (slot,)),
        other != slot,
        slot is One ==> at == 65536 && opposite == 131072,
        slot is Two ==> at == 131072 && opposite == 65536,
        slot.position() == at,
        slot.opposite() == other,
{
}

/// A header may be parsed with its checksum at hand: with the right one it parses as it does
/// without, and with another it is refused for it.
pub proof fn the_checksum_of_a_header_may_be_given(
    bytes: &[u8],
    right: u32,
    crc: u32,
    r: Result<Header>,
    s: Result<Header>,
)
    requires
        bytes@.len() >= 4096,
        call_ensures(compute_crc, (bytes,), right),
        call_ensures(Header::parse, (bytes,), r),
        call_ensures(Header::parse_given, (bytes, crc), s),
    ensures
        call_requires(compute_crc, (bytes,)),
        call_requires(Header::parse_given, (bytes, crc)),
        crc == right ==> match r {
            Ok(h) => s matches Ok(same) && same@ == h@,
            Err(why) => s == Err::<Header, Error>(why),
        },
        bytes@.subrange(0, 4) == HEADER_SIGNATURE@ && le32(bytes@, 4) != crc ==> s == Err::<
            Header,
            Error,
        >(Error::BadChecksum { expected: le32(bytes@, 4) as u32, found: crc, what: "header" }),
        s is Ok ==> le32(bytes@, 4) == crc,
{
}

} // verus!

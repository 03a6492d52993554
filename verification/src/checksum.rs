//! The CRC-32C that guards headers, region tables and log entries.
use crate::bytes::{copy_into, slice_of, splice};
use crate::endian::{le32, le32_bytes, push_u32_le, same_outside};
use crate::endian::{lemma_le32_bytes, lemma_le32_of_equal_bytes};
use vstd::prelude::*;

verus! {

/// The register of a CRC-32C after one more bit: shifted towards the low end, with the Castagnoli
/// polynomial, bits reversed, taken off when a one fell out.
pub open spec fn shifted(register: u32) -> u32 {
    if register & 1 == 1 {
        (register >> 1) ^ 0x82F6_3B78
    } else {
        register >> 1
    }
}

/// The register after `bits` more bits.
pub open spec fn shifted_by(register: u32, bits: nat) -> u32
    decreases bits,
{
    if bits == 0 {
        register
    } else {
        shifted(shifted_by(register, (bits - 1) as nat))
    }
}

/// The register after a byte string: all ones before the first byte, each byte added at the low
/// end and shifted out.
pub open spec fn register_after(data: Seq<u8>) -> u32
    decreases data.len(),
{
    if data.len() == 0 {
        0xFFFF_FFFF
    } else {
        shifted_by(register_after(data.drop_last()) ^ data.last() as u32, 8)
    }
}

/// The CRC-32C (Castagnoli) of a byte string: the complement of the register after it.
#[verifier::opaque]
pub open spec fn crc32c_of(data: Seq<u8>) -> u32 {
    register_after(data) ^ 0xFFFF_FFFF
}

/// Calls `crc32c::crc32c`. The claim is that it returns the CRC-32-Castagnoli of the bytes, as
/// the crate documents, which is [`crc32c_of`].
#[verifier::external_body]
fn crc32c(data: &[u8]) -> (crc: u32)
    ensures
        crc == crc32c_of(data@),
{
    crc32c::crc32c(data)
}

/// `s` with its checksum field, bytes 4 to 8, zeroed.
pub open spec fn checksum_field_zeroed(s: Seq<u8>) -> Seq<u8> {
    s.update(4, 0u8).update(5, 0u8).update(6, 0u8).update(7, 0u8)
}

/// The checksum that belongs in bytes 4 to 8 of a structure: the CRC-32C of the
/// whole structure with that field zeroed.
pub open spec fn checksum_of(s: Seq<u8>) -> u32 {
    crc32c_of(checksum_field_zeroed(s))
}

/// A checksum does not depend on the checksum field: two structures that agree outside
/// bytes 4 to 8 have the same checksum.
pub proof fn lemma_checksum_ignores_its_field(a: Seq<u8>, b: Seq<u8>)
    requires
        a.len() >= 8,
        same_outside(a, b, 4, 8),
    ensures
        checksum_of(a) == checksum_of(b),
{
    assert(checksum_field_zeroed(a) =~= checksum_field_zeroed(b));
}

/// Compute the checksum of the structure that fills `bytes`.
pub fn checksum(bytes: &[u8]) -> (crc: u32)
    requires
        bytes.len() >= 8,
    ensures
        crc == checksum_of(bytes@),
{
    let mut tmp: Vec<u8> = slice_of(bytes, 0, bytes.len());
    assert(tmp@ =~= bytes@);
    tmp.set(4, 0);
    tmp.set(5, 0);
    tmp.set(6, 0);
    tmp.set(7, 0);
    crc32c(tmp.as_slice())
}

/// `s` with its checksum stored in its checksum field.
pub open spec fn sealed(s: Seq<u8>) -> Seq<u8> {
    splice(s, 4, le32_bytes(checksum_of(s) as int))
}

/// A structure that was sealed holds its own checksum, and is unchanged elsewhere.
pub proof fn lemma_sealed(s: Seq<u8>)
    requires
        s.len() >= 8,
    ensures
        le32(sealed(s), 4) == checksum_of(sealed(s)),
        same_outside(s, sealed(s), 4, 8),
{
    let crc = checksum_of(s) as int;
    lemma_checksum_ignores_its_field(s, sealed(s));
    lemma_le32_bytes(crc);
    assert(sealed(s).subrange(4, 8) =~= le32_bytes(crc).subrange(0, 4));
    lemma_le32_of_equal_bytes(sealed(s), 4, le32_bytes(crc), 0);
}

/// Store the checksum of the structure that fills `buf` in its checksum field.
pub fn seal(buf: &mut Vec<u8>)
    requires
        old(buf).len() >= 8,
    ensures
        final(buf)@ == sealed(old(buf)@),
{
    let crc: u32 = checksum(buf.as_slice());
    let mut field: Vec<u8> = Vec::new();
    push_u32_le(&mut field, crc);
    assert(field@ =~= le32_bytes(crc as int));
    copy_into(buf, 4, field.as_slice());
}

/// Different registers stay different, whatever is shifted out.
proof fn lemma_shifting_keeps_registers_apart(a: u32, b: u32, bits: nat)
    requires
        a != b,
    ensures
        shifted_by(a, bits) != shifted_by(b, bits),
    decreases bits,
{
    if bits > 0 {
        lemma_shifting_keeps_registers_apart(a, b, (bits - 1) as nat);
        let x = shifted_by(a, (bits - 1) as nat);
        let y = shifted_by(b, (bits - 1) as nat);
        assert(x != y ==> (if x & 1 == 1 {
            (x >> 1) ^ 0x82F6_3B78
        } else {
            x >> 1
        }) != (if y & 1 == 1 {
            (y >> 1) ^ 0x82F6_3B78
        } else {
            y >> 1
        })) by (bit_vector);
    }
}

/// Byte strings of one length that differ in one byte leave different registers.
proof fn lemma_one_byte_changes_the_register(s: Seq<u8>, t: Seq<u8>, i: int)
    requires
        s.len() == t.len(),
        0 <= i < s.len(),
        s[i] != t[i],
        forall|k: int| 0 <= k < s.len() && k != i ==> s[k] == t[k],
    ensures
        register_after(s) != register_after(t),
    decreases s.len(),
{
    let a = register_after(s.drop_last());
    let b = register_after(t.drop_last());
    let x = s.last() as u32;
    let y = t.last() as u32;
    if i == s.len() - 1 {
        assert(s.drop_last() =~= t.drop_last());
        assert(x != y ==> a ^ x != a ^ y) by (bit_vector);
    } else {
        lemma_one_byte_changes_the_register(s.drop_last(), t.drop_last(), i);
        assert(a != b ==> a ^ x != b ^ x) by (bit_vector);
    }
    lemma_shifting_keeps_registers_apart(a ^ x, b ^ y, 8);
}

/// A structure of which one byte outside the checksum field was damaged has another checksum,
/// however long it is and wherever the byte lies.
pub proof fn lemma_one_byte_changes_the_checksum(s: Seq<u8>, t: Seq<u8>, i: int)
    requires
        s.len() == t.len(),
        s.len() >= 8,
        0 <= i < s.len(),
        !(4 <= i < 8),
        s[i] != t[i],
        forall|k: int| 0 <= k < s.len() && k != i ==> s[k] == t[k],
    ensures
        checksum_of(s) != checksum_of(t),
{
    let a = checksum_field_zeroed(s);
    let b = checksum_field_zeroed(t);
    lemma_one_byte_changes_the_register(a, b, i);
    reveal(crc32c_of);
    let x = register_after(a);
    let y = register_after(b);
    assert(x != y ==> x ^ 0xFFFF_FFFF != y ^ 0xFFFF_FFFF) by (bit_vector);
}

/// A checksum covers every byte of a structure but those of its own field: it changes with any
/// other byte, and not with these.
pub proof fn a_checksum_covers_every_other_byte(s: &[u8], t: &[u8], x: u32, y: u32, i: int)
    requires
        s@.len() == t@.len(),
        s@.len() >= 8,
        0 <= i < s@.len(),
        s@[i] != t@[i],
        forall|k: int| 0 <= k < s@.len() && k != i ==> s@[k] == t@[k],
        call_ensures(checksum, (s,), x),
        call_ensures(checksum, (t,), y),
    ensures
        call_requires(checksum, (s,)),
        x == y <==> 4 <= i < 8,
{
    if 4 <= i < 8 {
        lemma_checksum_ignores_its_field(s@, t@);
    } else {
        lemma_one_byte_changes_the_checksum(s@, t@, i);
    }
}

/// A checksum is the CRC-32C of the structure with zeros in the checksum field.
pub proof fn a_checksum_is_taken_over_a_zero_field(s: &[u8], x: u32, t: Seq<u8>)
    requires
        s@.len() >= 8,
        call_ensures(checksum, (s,), x),
        t.len() == s@.len(),
        forall|k: int| 4 <= k < 8 ==> t[k] == 0,
        forall|k: int| 0 <= k < t.len() && !(4 <= k < 8) ==> t[k] == s@[k],
    ensures
        x == crc32c_of(t),
{
    assert(checksum_field_zeroed(s@) =~= t);
}

/// A structure that is sealed holds its checksum in the checksum field, and is otherwise what it
/// was.
pub proof fn sealing_stores_the_checksum(buf: &mut Vec<u8>, b: &[u8], crc: u32)
    requires
        call_ensures(seal, (buf,), ()),
        old(buf)@.len() >= 8,
        b@ == final(buf)@,
        call_ensures(checksum, (b,), crc),
    ensures
        call_requires(seal, (buf,)),
        final(buf)@.len() == old(buf)@.len(),
        final(buf)@.subrange(4, 8) == le32_bytes(crc as int),
        forall|k: int|
            0 <= k < old(buf)@.len() && !(4 <= k < 8) ==> #[trigger] final(buf)@[k] == old(buf)@[k],
{
    lemma_sealed(old(buf)@);
    lemma_checksum_ignores_its_field(old(buf)@, final(buf)@);
    assert(final(buf)@.subrange(4, 8) =~= le32_bytes(crc as int));
}

} // verus!

//! Reading and appending fixed-width little-endian fields.
//!
//! VHDX is little-endian throughout, so there is deliberately no big-endian
//! half here.
use vstd::prelude::*;

verus! {

/// The number held by the two bytes of `s` at `off`, low byte first.
pub open spec fn le16(s: Seq<u8>, off: int) -> int {
    s[off] + 0x100 * s[off + 1]
}

/// The number held by the four bytes of `s` at `off`, low byte first.
pub open spec fn le32(s: Seq<u8>, off: int) -> int {
    s[off] + 0x100 * s[off + 1] + 0x1_0000 * s[off + 2] + 0x100_0000 * s[off + 3]
}

/// The number held by the eight bytes of `s` at `off`, low byte first.
pub open spec fn le64(s: Seq<u8>, off: int) -> int {
    le32(s, off) + 0x1_0000_0000 * le32(s, off + 4)
}

/// Whether `a` and `b` have one length and agree outside `[from, to)`.
pub open spec fn same_outside(a: Seq<u8>, b: Seq<u8>, from: int, to: int) -> bool {
    &&& a.len() == b.len()
    &&& forall|i: int| 0 <= i < a.len() && !(from <= i < to) ==> #[trigger] a[i] == b[i]
}

/// Read a little-endian `u16` at byte offset `off`.
pub fn read_u16_le(b: &[u8], off: usize) -> (v: u16)
    requires
        off + 2 <= b.len(),
    ensures
        v == le16(b@, off as int),
{
    b[off] as u16 + 0x100 * (b[off + 1] as u16)
}

/// Read a little-endian `u32` at byte offset `off`.
pub fn read_u32_le(b: &[u8], off: usize) -> (v: u32)
    requires
        off + 4 <= b.len(),
    ensures
        v == le32(b@, off as int),
{
    b[off] as u32 + 0x100 * (b[off + 1] as u32) + 0x1_0000 * (b[off + 2] as u32) + 0x100_0000 * (
    b[off + 3] as u32)
}

/// Read a little-endian `u64` at byte offset `off`.
pub fn read_u64_le(b: &[u8], off: usize) -> (v: u64)
    requires
        off + 8 <= b.len(),
    ensures
        v == le64(b@, off as int),
{
    let low: u32 = read_u32_le(b, off);
    let high: u32 = read_u32_le(b, off + 4);
    low as u64 + 0x1_0000_0000 * (high as u64)
}

/// The two bytes that hold the number `v`, low byte first.
pub open spec fn le16_bytes(v: int) -> Seq<u8> {
    seq![(v % 0x100) as u8, (v / 0x100 % 0x100) as u8]
}

/// The four bytes that hold the number `v`, low byte first.
pub open spec fn le32_bytes(v: int) -> Seq<u8> {
    seq![
        (v % 0x100) as u8,
        (v / 0x100 % 0x100) as u8,
        (v / 0x1_0000 % 0x100) as u8,
        (v / 0x100_0000 % 0x100) as u8,
    ]
}

/// The eight bytes that hold the number `v`, low byte first.
pub open spec fn le64_bytes(v: int) -> Seq<u8> {
    le32_bytes(v % 0x1_0000_0000) + le32_bytes(v / 0x1_0000_0000)
}

/// Append `v`, little-endian.
pub fn push_u16_le(b: &mut Vec<u8>, v: u16)
    ensures
        final(b)@ == old(b)@ + le16_bytes(v as int),
{
    b.push((v % 0x100) as u8);
    b.push((v / 0x100) as u8);
    assert(b@ =~= old(b)@ + le16_bytes(v as int));
}

/// Append `v`, little-endian.
pub fn push_u32_le(b: &mut Vec<u8>, v: u32)
    ensures
        final(b)@ == old(b)@ + le32_bytes(v as int),
{
    b.push((v % 0x100) as u8);
    b.push((v / 0x100 % 0x100) as u8);
    b.push((v / 0x1_0000 % 0x100) as u8);
    b.push((v / 0x100_0000) as u8);
    assert(b@ =~= old(b)@ + le32_bytes(v as int));
}

/// Append `v`, little-endian.
pub fn push_u64_le(b: &mut Vec<u8>, v: u64)
    ensures
        final(b)@ == old(b)@ + le64_bytes(v as int),
{
    push_u32_le(b, (v % 0x1_0000_0000) as u32);
    push_u32_le(b, (v / 0x1_0000_0000) as u32);
    assert(b@ =~= old(b)@ + le64_bytes(v as int));
}

/// The bytes that hold a number hold that number.
pub proof fn lemma_le16_bytes(v: int)
    requires
        0 <= v < 0x1_0000,
    ensures
        le16(le16_bytes(v), 0) == v,
{
}

/// The bytes that hold a number hold that number.
pub proof fn lemma_le32_bytes(v: int)
    requires
        0 <= v < 0x1_0000_0000,
    ensures
        le32(le32_bytes(v), 0) == v,
{
}

/// The bytes that hold a number hold that number.
pub proof fn lemma_le64_bytes(v: int)
    requires
        0 <= v < 0x1_0000_0000_0000_0000,
    ensures
        le64(le64_bytes(v), 0) == v,
{
    let low = le32_bytes(v % 0x1_0000_0000);
    let high = le32_bytes(v / 0x1_0000_0000);
    lemma_le32_bytes(v % 0x1_0000_0000);
    lemma_le32_bytes(v / 0x1_0000_0000);
    assert(le64_bytes(v).subrange(0, 4) =~= low.subrange(0, 4));
    assert(le64_bytes(v).subrange(4, 8) =~= high.subrange(0, 4));
    lemma_le32_of_equal_bytes(le64_bytes(v), 0, low, 0);
    lemma_le32_of_equal_bytes(le64_bytes(v), 4, high, 0);
}

/// Equal bytes hold equal numbers, wherever they lie.
pub proof fn lemma_le16_of_equal_bytes(a: Seq<u8>, i: int, b: Seq<u8>, j: int)
    requires
        0 <= i <= a.len() - 2,
        0 <= j <= b.len() - 2,
        a.subrange(i, i + 2) == b.subrange(j, j + 2),
    ensures
        le16(a, i) == le16(b, j),
{
    let s = a.subrange(i, i + 2);
    let t = b.subrange(j, j + 2);
    assert(s[0] == t[0] && s[1] == t[1]);
}

/// Equal bytes hold equal numbers, wherever they lie.
pub proof fn lemma_le32_of_equal_bytes(a: Seq<u8>, i: int, b: Seq<u8>, j: int)
    requires
        0 <= i <= a.len() - 4,
        0 <= j <= b.len() - 4,
        a.subrange(i, i + 4) == b.subrange(j, j + 4),
    ensures
        le32(a, i) == le32(b, j),
{
    let s = a.subrange(i, i + 4);
    let t = b.subrange(j, j + 4);
    assert(s[0] == t[0] && s[1] == t[1] && s[2] == t[2] && s[3] == t[3]);
}

/// Equal bytes hold equal numbers, wherever they lie.
pub proof fn lemma_le64_of_equal_bytes(a: Seq<u8>, i: int, b: Seq<u8>, j: int)
    requires
        0 <= i <= a.len() - 8,
        0 <= j <= b.len() - 8,
        a.subrange(i, i + 8) == b.subrange(j, j + 8),
    ensures
        le64(a, i) == le64(b, j),
{
    let s = a.subrange(i, i + 8);
    let t = b.subrange(j, j + 8);
    assert(a.subrange(i, i + 4) =~= s.subrange(0, 4));
    assert(b.subrange(j, j + 4) =~= t.subrange(0, 4));
    assert(a.subrange(i + 4, i + 8) =~= s.subrange(4, 8));
    assert(b.subrange(j + 4, j + 8) =~= t.subrange(4, 8));
    lemma_le32_of_equal_bytes(a, i, b, j);
    lemma_le32_of_equal_bytes(a, i + 4, b, j + 4);
}

/// What is read as two bytes is the number whose digits to the base 256 they are, the lowest first.
pub proof fn two_bytes_are_the_digits(b: &[u8], off: usize, v: u16)
    requires
        off + 2 <= b@.len(),
        call_ensures(read_u16_le, (b, off), v),
    ensures
        call_requires(read_u16_le, (b, off)),
        v % 0x100 == b@[off as int],
        v / 0x100 == b@[off + 1],
{
}

/// What is read as four bytes is the number whose digits to the base 256 they are, the lowest
/// first.
pub proof fn four_bytes_are_the_digits(b: &[u8], off: usize, v: u32)
    requires
        off + 4 <= b@.len(),
        call_ensures(read_u32_le, (b, off), v),
    ensures
        call_requires(read_u32_le, (b, off)),
        v % 0x100 == b@[off as int],
        v / 0x100 % 0x100 == b@[off + 1],
        v / 0x1_0000 % 0x100 == b@[off + 2],
        v / 0x100_0000 == b@[off + 3],
{
}

/// What is read as eight bytes is the number whose lower half the first four hold, and whose upper
/// half the last four.
pub proof fn eight_bytes_are_two_halves(
    b: &[u8],
    off: usize,
    behind: usize,
    low: u32,
    high: u32,
    v: u64,
)
    requires
        off + 8 <= b@.len(),
        behind == off + 4,
        call_ensures(read_u64_le, (b, off), v),
        call_ensures(read_u32_le, (b, off), low),
        call_ensures(read_u32_le, (b, behind), high),
    ensures
        call_requires(read_u64_le, (b, off)),
        v % 0x1_0000_0000 == low,
        v / 0x1_0000_0000 == high,
{
}

/// The bytes that hold a number of 16 bits are its digits to the base 256, the lowest first.
pub proof fn digits_of_two_bytes(v: u16)
    ensures
        le16_bytes(v as int).len() == 2,
        le16_bytes(v as int)[0] == v % 0x100,
        le16_bytes(v as int)[1] == v / 0x100,
{
}

/// The bytes that hold a number of 32 bits are its digits to the base 256, the lowest first.
pub proof fn digits_of_four_bytes(v: u32)
    ensures
        le32_bytes(v as int).len() == 4,
        le32_bytes(v as int)[0] == v % 0x100,
        le32_bytes(v as int)[1] == v / 0x100 % 0x100,
        le32_bytes(v as int)[2] == v / 0x1_0000 % 0x100,
        le32_bytes(v as int)[3] == v / 0x100_0000,
{
}

/// The bytes that hold a number of 64 bits are those of its lower half, and then those of its
/// upper half.
pub proof fn eight_bytes_hold_two_halves(low: u32, high: u32)
    ensures
        le64_bytes(low + 0x1_0000_0000 * high) == le32_bytes(low as int) + le32_bytes(high as int),
{
    let v = low + 0x1_0000_0000 * high;
    assert(v % 0x1_0000_0000 == low && v / 0x1_0000_0000 == high);
}

/// Two bytes hold the number that is read from them.
pub proof fn lemma_le16_digits(s: Seq<u8>, off: int)
    requires
        0 <= off <= s.len() - 2,
    ensures
        le16_bytes(le16(s, off)) == s.subrange(off, off + 2),
        0 <= le16(s, off) < 0x1_0000,
{
    assert(le16_bytes(le16(s, off)) =~= s.subrange(off, off + 2));
}

/// Four bytes hold the number that is read from them.
pub proof fn lemma_le32_digits(s: Seq<u8>, off: int)
    requires
        0 <= off <= s.len() - 4,
    ensures
        le32_bytes(le32(s, off)) == s.subrange(off, off + 4),
        0 <= le32(s, off) < 0x1_0000_0000,
{
    lemma_four_digits(s[off], s[off + 1], s[off + 2], s[off + 3]);
    assert(s.subrange(off, off + 4) =~= seq![s[off], s[off + 1], s[off + 2], s[off + 3]]);
}

/// The bytes of a number that is given by its digits.
proof fn lemma_four_digits(a: u8, b: u8, c: u8, d: u8)
    ensures
        ({
            let v = a + 0x100 * b + 0x1_0000 * c + 0x100_0000 * d;
            &&& le32_bytes(v) == seq![a, b, c, d]
            &&& 0 <= v < 0x1_0000_0000
        }),
{
    let v = a + 0x100 * b + 0x1_0000 * c + 0x100_0000 * d;
    let x = b + 0x100 * c + 0x1_0000 * d;
    let y = c + 0x100 * d;
    assert(v == a + 0x100 * x);
    assert(v % 0x100 == a && v / 0x100 == x);
    assert(x % 0x100 == b && x / 0x100 == y);
    assert(y % 0x100 == c && y / 0x100 == d);
    assert(v / 0x1_0000 == y);
    assert(v / 0x100_0000 == d);
    assert(le32_bytes(v) =~= seq![a, b, c, d]);
}

/// Eight bytes hold the number that is read from them.
pub proof fn lemma_le64_digits(s: Seq<u8>, off: int)
    requires
        0 <= off <= s.len() - 8,
    ensures
        le64_bytes(le64(s, off)) == s.subrange(off, off + 8),
        0 <= le64(s, off) < 0x1_0000_0000_0000_0000,
{
    let low = le32(s, off);
    let high = le32(s, off + 4);
    lemma_le32_digits(s, off);
    lemma_le32_digits(s, off + 4);
    lemma_halves(low, high);
    assert(s.subrange(off, off + 8) =~= s.subrange(off, off + 4) + s.subrange(off + 4, off + 8));
}

/// The bytes of a number that is given by its two halves.
proof fn lemma_halves(low: int, high: int)
    requires
        0 <= low < 0x1_0000_0000,
        0 <= high < 0x1_0000_0000,
    ensures
        le64_bytes(low + 0x1_0000_0000 * high) == le32_bytes(low) + le32_bytes(high),
        0 <= low + 0x1_0000_0000 * high < 0x1_0000_0000_0000_0000,
{
    let v = low + 0x1_0000_0000 * high;
    assert(v % 0x1_0000_0000 == low && v / 0x1_0000_0000 == high);
}

/// Four bytes that are the digits of a number hold it.
pub proof fn lemma_le32_held(s: Seq<u8>, off: int, v: int)
    requires
        0 <= off,
        off + 4 <= s.len(),
        0 <= v < 0x1_0000_0000,
        s.subrange(off, off + 4) == le32_bytes(v),
    ensures
        le32(s, off) == v,
{
    lemma_le32_bytes(v);
    let digits = le32_bytes(v);
    assert(digits.subrange(0, 4) =~= digits);
    lemma_le32_of_equal_bytes(s, off, digits, 0);
}

/// Eight bytes that are the digits of a number hold it.
pub proof fn lemma_le64_held(s: Seq<u8>, off: int, v: int)
    requires
        0 <= off,
        off + 8 <= s.len(),
        0 <= v < 0x1_0000_0000_0000_0000,
        s.subrange(off, off + 8) == le64_bytes(v),
    ensures
        le64(s, off) == v,
{
    lemma_le64_bytes(v);
    let digits = le64_bytes(v);
    assert(digits.subrange(0, 8) =~= digits);
    lemma_le64_of_equal_bytes(s, off, digits, 0);
}

/// A number is appended as its bytes, behind what is there.
pub proof fn numbers_are_appended_as_their_bytes(
    two: &mut Vec<u8>,
    v: u16,
    four: &mut Vec<u8>,
    w: u32,
    eight: &mut Vec<u8>,
    x: u64,
)
    requires
        call_ensures(push_u16_le, (two, v), ()),
        call_ensures(push_u32_le, (four, w), ()),
        call_ensures(push_u64_le, (eight, x), ()),
    ensures
        call_requires(push_u16_le, (two, v)),
        call_requires(push_u32_le, (four, w)),
        call_requires(push_u64_le, (eight, x)),
        final(two)@ == old(two)@ + le16_bytes(v as int),
        final(four)@ == old(four)@ + le32_bytes(w as int),
        final(eight)@ == old(eight)@ + le64_bytes(x as int),
{
}

} // verus!

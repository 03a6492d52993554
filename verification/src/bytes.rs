//! Byte-buffer helpers shared by every structure of the format: comparing a
//! field with a signature, splicing one buffer into another, and the 16-byte
//! GUIDs.
use vstd::prelude::*;

verus! {

/// `s` with the bytes from `at` on replaced by `t`.
pub open spec fn splice(s: Seq<u8>, at: int, t: Seq<u8>) -> Seq<u8> {
    Seq::new(
        s.len(),
        |i: int|
            if at <= i < at + t.len() {
                t[i - at]
            } else {
                s[i]
            },
    )
}

/// A sequence of `n` zero bytes.
pub open spec fn zeros(n: nat) -> Seq<u8> {
    Seq::new(n, |i: int| 0u8)
}

/// Whether every byte of `s` is zero.
pub open spec fn all_zero(s: Seq<u8>) -> bool {
    forall|i: int| 0 <= i < s.len() ==> s[i] == 0
}

/// A part of a part of `s` is a part of `s`.
pub proof fn lemma_subrange_of_subrange(s: Seq<u8>, at: int, len: int, from: int, to: int)
    requires
        0 <= at,
        0 <= from <= to <= len,
        at + len <= s.len(),
    ensures
        s.subrange(at, at + len).subrange(from, to) == s.subrange(at + from, at + to),
{
    assert(s.subrange(at, at + len).subrange(from, to) =~= s.subrange(at + from, at + to));
}

/// Whether the bytes of `b` from `off` on begin with `sig`.
pub fn matches_at(b: &[u8], off: usize, sig: &[u8]) -> (r: bool)
    requires
        off + sig.len() <= b.len(),
    ensures
        r == (b@.subrange(off as int, off + sig.len()) == sig@),
{
    let mut i: usize = 0;
    while i < sig.len()
        invariant
            i <= sig.len(),
            off + sig.len() <= b.len(),
            forall|k: int| 0 <= k < i ==> b@[off + k] == sig@[k],
        decreases sig.len() - i,
    {
        if b[off + i] != sig[i] {
            assert(b@.subrange(off as int, off + sig.len())[i as int] != sig@[i as int]);
            return false;
        }
        i += 1;
    }
    assert(b@.subrange(off as int, off + sig.len()) =~= sig@);
    true
}

/// Whether two byte buffers hold the same bytes.
pub fn same_bytes(a: &[u8], b: &[u8]) -> (r: bool)
    ensures
        r == (a@ == b@),
{
    if a.len() != b.len() {
        return false;
    }
    assert(a@.subrange(0, 0 + b.len()) =~= a@);
    matches_at(a, 0, b)
}

/// Overwrite the bytes of `dst` from `at` on with `src`.
pub fn copy_into(dst: &mut Vec<u8>, at: usize, src: &[u8])
    requires
        at + src.len() <= old(dst).len(),
    ensures
        final(dst)@ == splice(old(dst)@, at as int, src@),
{
    let mut i: usize = 0;
    while i < src.len()
        invariant
            i <= src.len(),
            at + src.len() <= dst.len(),
            dst@ == splice(old(dst)@, at as int, src@.take(i as int)),
        decreases src.len() - i,
    {
        dst.set(at + i, src[i]);
        i += 1;
        assert(dst@ =~= splice(old(dst)@, at as int, src@.take(i as int)));
    }
    assert(src@.take(src@.len() as int) =~= src@);
    assert(dst@ =~= splice(old(dst)@, at as int, src@));
}

/// Append a copy of `src`.
pub fn push_bytes(dst: &mut Vec<u8>, src: &[u8])
    ensures
        final(dst)@ == old(dst)@ + src@,
{
    let mut i: usize = 0;
    assert(dst@ =~= old(dst)@ + src@.take(0));
    while i < src.len()
        invariant
            i <= src.len(),
            dst@ == old(dst)@ + src@.take(i as int),
        decreases src.len() - i,
    {
        dst.push(src[i]);
        i += 1;
        assert(dst@ =~= old(dst)@ + src@.take(i as int));
    }
    assert(src@.take(src@.len() as int) =~= src@);
}

/// Append `n` zero bytes.
pub fn push_zeros(dst: &mut Vec<u8>, n: usize)
    ensures
        final(dst)@ == old(dst)@ + zeros(n as nat),
{
    let mut i: usize = 0;
    assert(dst@ =~= old(dst)@ + zeros(0));
    while i < n
        invariant
            i <= n,
            dst@ == old(dst)@ + zeros(i as nat),
        decreases n - i,
    {
        dst.push(0);
        i += 1;
        assert(dst@ =~= old(dst)@ + zeros(i as nat));
    }
}

/// A copy of the bytes of `b` in `[from, to)`.
pub fn slice_of(b: &[u8], from: usize, to: usize) -> (r: Vec<u8>)
    requires
        from <= to <= b.len(),
    ensures
        r@ == b@.subrange(from as int, to as int),
{
    let mut r: Vec<u8> = Vec::with_capacity(to - from);
    let mut i: usize = from;
    while i < to
        invariant
            from <= i <= to <= b.len(),
            r@ == b@.subrange(from as int, i as int),
        decreases to - i,
    {
        r.push(b[i]);
        i += 1;
        assert(r@ =~= b@.subrange(from as int, i as int));
    }
    r
}

/// The 16 bytes of `b` from `off` on.
pub fn read_guid(b: &[u8], off: usize) -> (g: [u8; 16])
    requires
        off + 16 <= b.len(),
    ensures
        g@ == b@.subrange(off as int, off + 16),
{
    let mut g: [u8; 16] = [0u8; 16];
    let mut i: usize = 0;
    while i < 16
        invariant
            i <= 16,
            off + 16 <= b.len(),
            forall|k: int| 0 <= k < i ==> g@[k] == b@[off + k],
        decreases 16 - i,
    {
        g[i] = b[off + i];
        i += 1;
    }
    assert(g@ =~= b@.subrange(off as int, off + 16));
    g
}

/// Whether two GUIDs are the same.
pub fn same_guid(a: &[u8; 16], b: &[u8; 16]) -> (r: bool)
    ensures
        r == (a@ == b@),
{
    same_bytes(a.as_slice(), b.as_slice())
}

/// Whether a GUID is the all-zero sentinel.
pub fn is_zero_guid(g: &[u8; 16]) -> (r: bool)
    ensures
        r == all_zero(g@),
{
    let mut i: usize = 0;
    while i < 16
        invariant
            i <= 16,
            forall|k: int| 0 <= k < i ==> g@[k] == 0,
        decreases 16 - i,
    {
        if g[i] != 0 {
            return false;
        }
        i += 1;
    }
    true
}

} // verus!

//! What the library asks of the device that holds an image, and what it means.
//!
//! The library performs no I/O. It plans: a plan is a list of [`DeviceOp`]s to be
//! carried out one after the other. On the model of a device, its contents as a
//! byte sequence, a plan is a function from contents to contents.
use crate::bytes::zeros;
use vstd::prelude::*;

verus! {

/// Largest span that is zeroed in one device write.
pub const ZERO_CHUNK: u64 = 1024 * 1024;

/// One operation on the device that holds an image.
#[derive(Debug, Clone)]
pub enum DeviceOp {
    /// Write `data` at `offset`, growing the device where it reaches past the end.
    Write { offset: u64, data: Vec<u8> },
    /// Write `len` zero bytes at `offset`, in pieces as [`ZeroSpan`] cuts them.
    Zeros { offset: u64, len: u64 },
    /// Make every earlier write durable before any later one.
    Flush,
}

/// What a [`DeviceOp`] says.
#[verifier::ext_equal]
pub enum OpView {
    Write { offset: int, data: Seq<u8> },
    Zeros { offset: int, len: int },
    Flush,
}

impl View for DeviceOp {
    type V = OpView;

    open spec fn view(&self) -> OpView {
        match *self {
            DeviceOp::Write { offset, data } => OpView::Write { offset: offset as int, data: data@ },
            DeviceOp::Zeros { offset, len } => OpView::Zeros {
                offset: offset as int,
                len: len as int,
            },
            DeviceOp::Flush => OpView::Flush,
        }
    }
}

/// What a list of operations says.
pub open spec fn op_views(ops: Seq<DeviceOp>) -> Seq<OpView> {
    Seq::new(ops.len(), |i: int| ops[i]@)
}

/// The contents of a device after `data` was written at `offset`: the device grows,
/// zero-filled, as far as the write reaches.
pub open spec fn written(disk: Seq<u8>, offset: int, data: Seq<u8>) -> Seq<u8> {
    if data.len() == 0 {
        disk
    } else {
        Seq::new(
            if offset + data.len() > disk.len() {
                (offset + data.len()) as nat
            } else {
                disk.len()
            },
            |i: int|
                if offset <= i < offset + data.len() {
                    data[i - offset]
                } else if i < disk.len() {
                    disk[i]
                } else {
                    0u8
                },
        )
    }
}

/// The contents of a device after one operation.
pub open spec fn performed(disk: Seq<u8>, op: OpView) -> Seq<u8> {
    match op {
        OpView::Write { offset, data } => written(disk, offset, data),
        OpView::Zeros { offset, len } => written(disk, offset, zeros(len as nat)),
        OpView::Flush => disk,
    }
}

/// The contents of a device after the operations `ops`, in order.
pub open spec fn after_ops(disk: Seq<u8>, ops: Seq<OpView>) -> Seq<u8>
    decreases ops.len(),
{
    if ops.len() == 0 {
        disk
    } else {
        performed(after_ops(disk, ops.drop_last()), ops.last())
    }
}

/// The two halves of a plan may be carried out one after the other.
pub proof fn lemma_after_ops_split(disk: Seq<u8>, first: Seq<OpView>, second: Seq<OpView>)
    ensures
        after_ops(disk, first + second) == after_ops(after_ops(disk, first), second),
    decreases second.len(),
{
    if second.len() == 0 {
        assert(first + second =~= first);
    } else {
        assert((first + second).drop_last() =~= first + second.drop_last());
        assert((first + second).last() == second.last());
        lemma_after_ops_split(disk, first, second.drop_last());
    }
}

/// One operation and a flush.
pub proof fn lemma_after_one_op(disk: Seq<u8>, op: OpView)
    ensures
        after_ops(disk, seq![op]) == performed(disk, op),
        after_ops(disk, seq![op, OpView::Flush]) == performed(disk, op),
{
    assert(seq![op].drop_last() =~= Seq::<OpView>::empty());
    assert(seq![op, OpView::Flush].drop_last() =~= seq![op]);
    reveal_with_fuel(after_ops, 3);
}

/// Two operations, each with a flush.
pub proof fn lemma_after_two_ops(disk: Seq<u8>, a: OpView, b: OpView)
    ensures
        after_ops(disk, seq![a, OpView::Flush, b, OpView::Flush]) == performed(
            performed(disk, a),
            b,
        ),
{
    let first = seq![a, OpView::Flush];
    let second = seq![b, OpView::Flush];
    assert(seq![a, OpView::Flush, b, OpView::Flush] =~= first + second);
    lemma_after_ops_split(disk, first, second);
    lemma_after_one_op(disk, a);
    lemma_after_one_op(performed(disk, a), b);
}

/// Three operations, each with a flush.
pub proof fn lemma_after_three_ops(disk: Seq<u8>, a: OpView, b: OpView, c: OpView)
    ensures
        after_ops(disk, seq![a, OpView::Flush, b, OpView::Flush, c, OpView::Flush]) == performed(
            performed(performed(disk, a), b),
            c,
        ),
{
    let first = seq![a, OpView::Flush, b, OpView::Flush];
    let second = seq![c, OpView::Flush];
    assert(seq![a, OpView::Flush, b, OpView::Flush, c, OpView::Flush] =~= first + second);
    lemma_after_ops_split(disk, first, second);
    lemma_after_two_ops(disk, a, b);
    lemma_after_one_op(performed(performed(disk, a), b), c);
}

/// What is left of a span that is being zeroed.
#[derive(Debug, Clone, Copy)]
pub struct ZeroSpan {
    pub offset: u64,
    pub remaining: u64,
}

impl ZeroSpan {
    /// The next piece to write, as its offset and its length; `None` once the whole
    /// span is zeroed. No piece is longer than [`ZERO_CHUNK`], and the pieces meet
    /// end to end.
    pub fn next_piece(&mut self) -> (piece: Option<(u64, usize)>)
        requires
            old(self).offset + old(self).remaining <= u64::MAX,
        ensures
            match piece {
                Some((offset, len)) => {
                    &&& offset == old(self).offset
                    &&& len == if old(self).remaining < ZERO_CHUNK {
                        old(self).remaining
                    } else {
                        ZERO_CHUNK
                    }
                    &&& len > 0
                    &&& final(self).offset == offset + len
                    &&& final(self).remaining == old(self).remaining - len
                },
                None => old(self).remaining == 0 && *final(self) == *old(self),
            },
    {
        if self.remaining == 0 {
            return None;
        }
        let offset: u64 = self.offset;
        let len: u64 = if self.remaining < ZERO_CHUNK {
            self.remaining
        } else {
            ZERO_CHUNK
        };
        self.offset = offset + len;
        self.remaining = self.remaining - len;
        Some((offset, len as usize))
    }
}

/// Zeroing a span piece by piece leaves the device as zeroing it at once does: the
/// first `n` bytes of the span, then the rest.
pub proof fn lemma_zeroing_in_pieces(disk: Seq<u8>, offset: int, n: int, len: int)
    requires
        0 <= offset,
        0 <= n <= len,
    ensures
        written(written(disk, offset, zeros(n as nat)), offset + n, zeros((len - n) as nat))
            == written(disk, offset, zeros(len as nat)),
{
    assert(written(written(disk, offset, zeros(n as nat)), offset + n, zeros((len - n) as nat))
        =~= written(disk, offset, zeros(len as nat)));
}

/// Where an operation starts to write.
spec fn op_offset(op: OpView) -> int {
    match op {
        OpView::Write { offset, data } => offset,
        OpView::Zeros { offset, len } => offset,
        OpView::Flush => 0,
    }
}

/// The bytes that an operation writes.
spec fn op_data(op: OpView) -> Seq<u8> {
    match op {
        OpView::Write { offset, data } => data,
        OpView::Zeros { offset, len } => zeros(len as nat),
        OpView::Flush => Seq::empty(),
    }
}

/// The byte that operations leave at `i`, if one of them writes there.
spec fn byte_left(ops: Seq<OpView>, i: int) -> Option<u8>
    decreases ops.len(),
{
    if ops.len() == 0 {
        None
    } else {
        let at = op_offset(ops.last());
        let data = op_data(ops.last());
        if at <= i < at + data.len() {
            Some(data[i - at])
        } else {
            byte_left(ops.drop_last(), i)
        }
    }
}

/// How long a device has to be to hold what operations write.
spec fn reach(ops: Seq<OpView>) -> int
    decreases ops.len(),
{
    if ops.len() == 0 {
        0
    } else {
        let before = reach(ops.drop_last());
        let end = op_offset(ops.last()) + op_data(ops.last()).len();
        if op_data(ops.last()).len() > 0 && end > before {
            end
        } else {
            before
        }
    }
}

/// Operations write nothing past their reach.
proof fn lemma_byte_in_reach(ops: Seq<OpView>, i: int)
    requires
        byte_left(ops, i) is Some,
    ensures
        i < reach(ops),
    decreases ops.len(),
{
    if byte_left(ops.drop_last(), i) is Some {
        lemma_byte_in_reach(ops.drop_last(), i);
    }
}

/// What operations leave on a device, byte by byte.
proof fn lemma_after_ops_bytes(disk: Seq<u8>, ops: Seq<OpView>)
    ensures
        after_ops(disk, ops).len() == if reach(ops) > disk.len() {
            reach(ops)
        } else {
            disk.len() as int
        },
        forall|i: int|
            0 <= i < after_ops(disk, ops).len() ==> #[trigger] after_ops(disk, ops)[i] == match
                byte_left(ops, i) {
                Some(b) => b,
                None => if i < disk.len() {
                    disk[i]
                } else {
                    0
                },
            },
    decreases ops.len(),
{
    if ops.len() > 0 {
        lemma_after_ops_bytes(disk, ops.drop_last());
        assert(after_ops(disk, ops) == written(
            after_ops(disk, ops.drop_last()),
            op_offset(ops.last()),
            op_data(ops.last()),
        ));
        assert forall|i: int| 0 <= i < after_ops(disk, ops).len() implies #[trigger] after_ops(
            disk,
            ops,
        )[i] == match byte_left(ops, i) {
            Some(b) => b,
            None => if i < disk.len() {
                disk[i]
            } else {
                0
            },
        } by {
            if byte_left(ops.drop_last(), i) is Some {
                lemma_byte_in_reach(ops.drop_last(), i);
            }
        }
    }
}

/// What the first operations write, all of them write too.
proof fn lemma_first_ops(ops: Seq<OpView>, k: int)
    requires
        0 <= k <= ops.len(),
    ensures
        reach(ops.take(k)) <= reach(ops),
        forall|i: int| #[trigger]
            byte_left(ops.take(k), i) is Some ==> byte_left(ops, i) is Some,
    decreases ops.len(),
{
    if k == ops.len() {
        assert(ops.take(k) =~= ops);
    } else {
        assert(ops.drop_last().take(k) =~= ops.take(k));
        lemma_first_ops(ops.drop_last(), k);
    }
}

/// Operations that were interrupted can be performed again from the start: the device ends up as
/// if they had gone through the first time.
pub proof fn interrupted_operations_can_be_repeated(disk: Seq<u8>, ops: Seq<OpView>, k: int)
    requires
        0 <= k <= ops.len(),
    ensures
        after_ops(after_ops(disk, ops.take(k)), ops) == after_ops(disk, ops),
{
    let torn = after_ops(disk, ops.take(k));
    lemma_after_ops_bytes(disk, ops);
    lemma_after_ops_bytes(disk, ops.take(k));
    lemma_after_ops_bytes(torn, ops);
    lemma_first_ops(ops, k);
    assert(after_ops(torn, ops) =~= after_ops(disk, ops)) by {
        assert forall|i: int| 0 <= i < after_ops(disk, ops).len() implies #[trigger] after_ops(
            torn,
            ops,
        )[i] == after_ops(disk, ops)[i] by {
            assert(byte_left(ops.take(k), i) is Some ==> byte_left(ops, i) is Some);
        }
    }
}

/// Whether an operation writes nothing to the `len` bytes at `from`.
pub open spec fn op_spares(op: OpView, from: int, len: int) -> bool {
    match op {
        OpView::Write { offset, data } => {
            ||| offset + data.len() <= from
            ||| from + len <= offset
        },
        OpView::Zeros { offset, len: n } => {
            ||| offset + (n as nat) <= from
            ||| from + len <= offset
        },
        OpView::Flush => true,
    }
}

/// Whether none of the operations writes to the `len` bytes at `from`.
pub open spec fn ops_spare(ops: Seq<OpView>, from: int, len: int) -> bool {
    forall|i: int| 0 <= i < ops.len() ==> op_spares(#[trigger] ops[i], from, len)
}

/// Operations leave what they spare alone, and never shorten the device.
pub proof fn lemma_after_ops_spares(disk: Seq<u8>, ops: Seq<OpView>, from: int, len: int)
    requires
        0 <= from,
        from + len <= disk.len(),
        ops_spare(ops, from, len),
    ensures
        after_ops(disk, ops).len() >= disk.len(),
        forall|k: int|
            from <= k < from + len ==> #[trigger] after_ops(disk, ops)[k] == disk[k],
    decreases ops.len(),
{
    if ops.len() > 0 {
        assert(op_spares(ops[ops.len() - 1], from, len));
        lemma_after_ops_spares(disk, ops.drop_last(), from, len);
    }
}

/// A span is zeroed piece by piece, from its start on: each piece is as long as what is left, but
/// no longer than a megabyte, and what is left then starts where it ends. Nothing is left out, and
/// nothing past the end of the span is touched.
pub proof fn a_span_is_zeroed_piece_by_piece(s: &mut ZeroSpan, piece: Option<(u64, usize)>)
    requires
        call_ensures(ZeroSpan::next_piece, (s,), piece),
    ensures
        old(s).offset + old(s).remaining <= u64::MAX ==> call_requires(ZeroSpan::next_piece, (s,)),
        piece is None <==> old(s).remaining == 0,
        piece matches Some((offset, len)) ==> {
            &&& offset == old(s).offset
            &&& 0 < len <= 0x10_0000
            &&& len < 0x10_0000 ==> len == old(s).remaining
            &&& final(s).offset == offset + len
            &&& final(s).remaining == old(s).remaining - len
        },
{
}

} // verus!

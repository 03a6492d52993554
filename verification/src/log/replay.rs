//! Turning the entries of a chain into the device writes that replay them.
use crate::bytes::{slice_of, zeros};
use crate::device::{after_ops, interrupted_operations_can_be_repeated, lemma_after_ops_split};
use crate::device::{op_views, ops_spare, written, DeviceOp, OpView};
use crate::log::{entry_views, Descriptor, DescriptorView, EntryView, LogEntry};
use vstd::prelude::*;

verus! {

/// The contents of a device after one descriptor was replayed: a "desc" descriptor
/// writes its sector, a "zero" descriptor zeroes its span.
pub open spec fn replayed_descriptor(disk: Seq<u8>, d: DescriptorView) -> Seq<u8> {
    match d {
        DescriptorView::Zero { zero_length, file_offset, .. } => written(
            disk,
            file_offset,
            zeros(zero_length as nat),
        ),
        DescriptorView::Data { file_offset, sector, .. } => written(disk, file_offset, sector),
    }
}

/// The contents of a device after the descriptors `ds` were replayed in order.
pub open spec fn replayed_descriptors(disk: Seq<u8>, ds: Seq<DescriptorView>) -> Seq<u8>
    decreases ds.len(),
{
    if ds.len() == 0 {
        disk
    } else {
        replayed_descriptor(replayed_descriptors(disk, ds.drop_last()), ds.last())
    }
}

/// The contents of a device after a chain was replayed in order.
pub open spec fn replayed(disk: Seq<u8>, chain: Seq<EntryView>) -> Seq<u8>
    decreases chain.len(),
{
    if chain.len() == 0 {
        disk
    } else {
        replayed_descriptors(replayed(disk, chain.drop_last()), chain.last().descriptors)
    }
}

/// The operations that replay a descriptor; a "zero" descriptor of length zero
/// needs none.
pub open spec fn descriptor_ops(d: DescriptorView) -> Seq<OpView> {
    match d {
        DescriptorView::Zero { zero_length, file_offset, .. } => if zero_length == 0 {
            Seq::empty()
        } else {
            seq![OpView::Zeros { offset: file_offset, len: zero_length }]
        },
        DescriptorView::Data { file_offset, sector, .. } => seq![
            OpView::Write { offset: file_offset, data: sector },
        ],
    }
}

/// The operations that replay the descriptors `ds`.
pub open spec fn descriptors_ops(ds: Seq<DescriptorView>) -> Seq<OpView>
    decreases ds.len(),
{
    if ds.len() == 0 {
        Seq::empty()
    } else {
        descriptors_ops(ds.drop_last()) + descriptor_ops(ds.last())
    }
}

/// The operations that replay a chain: each entry's descriptors in order, and a flush
/// after each entry.
pub open spec fn chain_ops(chain: Seq<EntryView>) -> Seq<OpView>
    decreases chain.len(),
{
    if chain.len() == 0 {
        Seq::empty()
    } else {
        chain_ops(chain.drop_last()) + descriptors_ops(chain.last().descriptors).push(OpView::Flush)
    }
}

/// Carrying out the operations of a list of descriptors replays them.
proof fn lemma_descriptors_ops_replay(disk: Seq<u8>, ds: Seq<DescriptorView>)
    ensures
        after_ops(disk, descriptors_ops(ds)) == replayed_descriptors(disk, ds),
    decreases ds.len(),
{
    if ds.len() > 0 {
        let before = descriptors_ops(ds.drop_last());
        let last = descriptor_ops(ds.last());
        lemma_descriptors_ops_replay(disk, ds.drop_last());
        lemma_after_ops_split(disk, before, last);
        reveal_with_fuel(after_ops, 2);
        if last.len() > 0 {
            assert(last.drop_last() =~= Seq::<OpView>::empty());
        }
    }
}

/// Carrying out the operations of a chain replays it: the device ends up with exactly
/// the writes that the chain's descriptors name, in order.
pub proof fn lemma_chain_ops_replay(disk: Seq<u8>, chain: Seq<EntryView>)
    ensures
        after_ops(disk, chain_ops(chain)) == replayed(disk, chain),
    decreases chain.len(),
{
    if chain.len() > 0 {
        let before = chain_ops(chain.drop_last());
        let ds = chain.last().descriptors;
        let last = descriptors_ops(ds).push(OpView::Flush);
        let mid = after_ops(disk, before);
        lemma_chain_ops_replay(disk, chain.drop_last());
        lemma_after_ops_split(disk, before, last);
        lemma_descriptors_ops_replay(mid, ds);
        assert(last.drop_last() =~= descriptors_ops(ds));
    }
}

/// Whether replaying a descriptor writes nothing to the `len` bytes at `from`.
pub open spec fn descriptor_spares(d: DescriptorView, from: int, len: int) -> bool {
    match d {
        DescriptorView::Zero { zero_length, file_offset, .. } => {
            ||| zero_length == 0
            ||| file_offset + (zero_length as nat) <= from
            ||| from + len <= file_offset
        },
        DescriptorView::Data { file_offset, sector, .. } => {
            ||| file_offset + sector.len() <= from
            ||| from + len <= file_offset
        },
    }
}

/// Whether replaying a chain writes nothing to the `len` bytes at `from`.
pub open spec fn chain_spares(chain: Seq<EntryView>, from: int, len: int) -> bool {
    forall|i: int, j: int|
        0 <= i < chain.len() && 0 <= j < chain[i].descriptors.len() ==> descriptor_spares(
            #[trigger] chain[i].descriptors[j],
            from,
            len,
        )
}

/// The operations of descriptors that spare a span spare it.
proof fn lemma_descriptors_ops_spare(ds: Seq<DescriptorView>, from: int, len: int)
    requires
        forall|j: int| 0 <= j < ds.len() ==> descriptor_spares(#[trigger] ds[j], from, len),
    ensures
        ops_spare(descriptors_ops(ds), from, len),
    decreases ds.len(),
{
    if ds.len() > 0 {
        lemma_descriptors_ops_spare(ds.drop_last(), from, len);
        assert(descriptor_spares(ds[ds.len() - 1], from, len));
    }
}

/// The operations of a chain that spares a span spare it.
pub proof fn lemma_chain_ops_spare(chain: Seq<EntryView>, from: int, len: int)
    requires
        chain_spares(chain, from, len),
    ensures
        ops_spare(chain_ops(chain), from, len),
    decreases chain.len(),
{
    if chain.len() > 0 {
        let ds = chain.last().descriptors;
        assert forall|i: int, j: int|
            0 <= i < chain.drop_last().len() && 0 <= j
                < chain.drop_last()[i].descriptors.len() implies descriptor_spares(
            #[trigger] chain.drop_last()[i].descriptors[j],
            from,
            len,
        ) by {
            assert(descriptor_spares(chain[i].descriptors[j], from, len));
        }
        assert forall|j: int| 0 <= j < ds.len() implies descriptor_spares(
            #[trigger] ds[j],
            from,
            len,
        ) by {
            assert(descriptor_spares(chain[chain.len() - 1].descriptors[j], from, len));
        }
        lemma_chain_ops_spare(chain.drop_last(), from, len);
        lemma_descriptors_ops_spare(ds, from, len);
    }
}

/// A chain may write further on a longer device, if anything.
pub proof fn lemma_extent_grows(chain: Seq<EntryView>, a: int, b: int)
    requires
        a <= b,
    ensures
        a <= allowed_extent(chain, a) <= allowed_extent(chain, b),
    decreases chain.len(),
{
    if chain.len() > 0 {
        lemma_extent_grows(chain.drop_last(), a, b);
    }
}

/// A replay that a crash interrupted can be repeated: replaying the whole chain again leaves what
/// one replay would have left.
pub proof fn interrupted_replay_can_be_repeated(disk: Seq<u8>, chain: Seq<EntryView>, k: int)
    requires
        0 <= k <= chain_ops(chain).len(),
    ensures
        replayed(after_ops(disk, chain_ops(chain).take(k)), chain) == replayed(disk, chain),
{
    interrupted_operations_can_be_repeated(disk, chain_ops(chain), k);
    lemma_chain_ops_replay(disk, chain);
    lemma_chain_ops_replay(after_ops(disk, chain_ops(chain).take(k)), chain);
}

/// Plan the replay of a log chain. Each descriptor is replayed in order: "desc"
/// descriptors write a 4 KiB restored sector at `file_offset`; "zero" descriptors
/// zero a span at `file_offset`. After every entry the device is flushed, so a crash
/// during the replay leaves a state that the next replay completes.
pub fn apply_chain(chain: &[LogEntry]) -> (ops: Vec<DeviceOp>)
    ensures
        op_views(ops@) == chain_ops(entry_views(chain@)),
        forall|disk: Seq<u8>|
            #![trigger after_ops(disk, op_views(ops@))]
            after_ops(disk, op_views(ops@)) == replayed(disk, entry_views(chain@)),
{
    let ghost views = entry_views(chain@);
    let mut ops: Vec<DeviceOp> = Vec::new();
    let mut i: usize = 0;
    assert(op_views(ops@) =~= chain_ops(views.take(0)));
    while i < chain.len()
        invariant
            i <= chain.len(),
            views == entry_views(chain@),
            op_views(ops@) == chain_ops(views.take(i as int)),
        decreases chain.len() - i,
    {
        plan_entry(&chain[i], &mut ops);
        i += 1;
        assert(views.take(i as int).drop_last() =~= views.take(i - 1));
        assert(views.take(i as int).last() == chain@[i - 1]@);
    }
    assert(views.take(views.len() as int) =~= views);
    proof {
        assert forall|disk: Seq<u8>|
            #![trigger after_ops(disk, op_views(ops@))]
            after_ops(disk, op_views(ops@)) == replayed(disk, views) by {
            lemma_chain_ops_replay(disk, views);
        }
    }
    ops
}

/// Append the operations that replay one entry.
fn plan_entry(entry: &LogEntry, ops: &mut Vec<DeviceOp>)
    ensures
        op_views(final(ops)@) == op_views(old(ops)@) + descriptors_ops(entry@.descriptors).push(
            OpView::Flush,
        ),
{
    let ghost before = op_views(ops@);
    let ghost ds = entry@.descriptors;
    let mut i: usize = 0;
    assert(op_views(ops@) =~= before + descriptors_ops(ds.take(0)));
    while i < entry.descriptors.len()
        invariant
            i <= entry.descriptors.len(),
            ds == entry@.descriptors,
            op_views(ops@) == before + descriptors_ops(ds.take(i as int)),
        decreases entry.descriptors.len() - i,
    {
        let ghost so_far = ops@;
        match &entry.descriptors[i] {
            Descriptor::Zero { zero_length, file_offset, .. } => {
                if *zero_length != 0 {
                    ops.push(DeviceOp::Zeros { offset: *file_offset, len: *zero_length });
                }
            },
            Descriptor::Data { file_offset, sector, .. } => {
                let data: Vec<u8> = slice_of(sector.as_slice(), 0, sector.len());
                assert(data@ =~= sector@);
                ops.push(DeviceOp::Write { offset: *file_offset, data });
            },
        }
        i += 1;
        assert(ds.take(i as int).drop_last() =~= ds.take(i - 1));
        assert(ds.take(i as int).last() == entry.descriptors@[i - 1]@);
        assert(op_views(ops@) =~= op_views(so_far) + descriptor_ops(ds[i - 1]));
        assert(op_views(ops@) =~= before + descriptors_ops(ds.take(i as int)));
    }
    assert(ds.take(ds.len() as int) =~= ds);
    let ghost so_far = ops@;
    ops.push(DeviceOp::Flush);
    assert(op_views(ops@) =~= op_views(so_far).push(OpView::Flush));
    assert(op_views(ops@) =~= before + descriptors_ops(ds).push(OpView::Flush));
}

/// How far a descriptor reaches; one that writes nothing reaches nowhere.
pub open spec fn descriptor_reach(d: DescriptorView) -> int {
    match d {
        DescriptorView::Zero { zero_length, file_offset, .. } => if zero_length == 0 {
            0
        } else {
            file_offset + zero_length
        },
        DescriptorView::Data { file_offset, sector, .. } => file_offset + sector.len(),
    }
}

/// How far a chain may write on a device of `dev_size` bytes: to its end, or as far as
/// the entries say the file reached when they were written.
pub open spec fn allowed_extent(chain: Seq<EntryView>, dev_size: int) -> int
    decreases chain.len(),
{
    if chain.len() == 0 {
        dev_size
    } else {
        let before = allowed_extent(chain.drop_last(), dev_size);
        if chain.last().last_file_offset > before {
            chain.last().last_file_offset
        } else {
            before
        }
    }
}

/// Whether every descriptor of an entry stays within `extent`.
pub open spec fn entry_within(entry: EntryView, extent: int) -> bool {
    forall|j: int|
        0 <= j < entry.descriptors.len() ==> descriptor_reach(#[trigger] entry.descriptors[j])
            <= extent
}

/// Whether every descriptor of a chain stays within `extent`.
pub open spec fn chain_within(chain: Seq<EntryView>, extent: int) -> bool {
    forall|i: int| 0 <= i < chain.len() ==> entry_within(#[trigger] chain[i], extent)
}

/// How far a chain may write on a device of `dev_size` bytes.
///
/// A chain may legitimately grow the file, as far as its entries say the file reached.
pub fn extent_of(chain: &[LogEntry], dev_size: u64) -> (extent: u64)
    ensures
        extent == allowed_extent(entry_views(chain@), dev_size as int),
{
    let ghost views = entry_views(chain@);
    let mut extent: u64 = dev_size;
    let mut i: usize = 0;
    while i < chain.len()
        invariant
            i <= chain.len(),
            views == entry_views(chain@),
            extent == allowed_extent(views.take(i as int), dev_size as int),
        decreases chain.len() - i,
    {
        let last: u64 = chain[i].header.last_file_offset;
        if last > extent {
            extent = last;
        }
        i += 1;
        assert(views.take(i as int).drop_last() =~= views.take(i - 1));
        assert(views.take(i as int).last() == chain@[i - 1]@);
    }
    assert(views.take(views.len() as int) =~= views);
    extent
}

/// Whether a descriptor stays within `extent`.
fn descriptor_stays_within(d: &Descriptor, extent: u64) -> (r: bool)
    ensures
        r == (descriptor_reach(d@) <= extent),
{
    match d {
        Descriptor::Zero { zero_length, file_offset, .. } => *zero_length == 0 || (*file_offset
            <= extent && *zero_length <= extent - *file_offset),
        Descriptor::Data { file_offset, sector, .. } => *file_offset <= extent
            && sector.len() as u64 <= extent - *file_offset,
    }
}

/// Whether every descriptor of a chain stays within `extent`. The spans come out of the
/// image, so a chain that does not is never applied.
pub fn stays_within(chain: &[LogEntry], extent: u64) -> (r: bool)
    ensures
        r == chain_within(entry_views(chain@), extent as int),
{
    let ghost views = entry_views(chain@);
    let mut i: usize = 0;
    while i < chain.len()
        invariant
            i <= chain.len(),
            views == entry_views(chain@),
            forall|k: int| 0 <= k < i ==> entry_within(#[trigger] views[k], extent as int),
        decreases chain.len() - i,
    {
        let entry: &LogEntry = &chain[i];
        let ghost ds = entry@.descriptors;
        assert(views[i as int] == entry@);
        let mut j: usize = 0;
        while j < entry.descriptors.len()
            invariant
                j <= entry.descriptors.len(),
                i < chain.len(),
                views == entry_views(chain@),
                views[i as int] == entry@,
                ds == entry@.descriptors,
                forall|k: int| 0 <= k < j ==> descriptor_reach(#[trigger] ds[k]) <= extent,
            decreases entry.descriptors.len() - j,
        {
            assert(ds[j as int] == entry.descriptors@[j as int]@);
            if !descriptor_stays_within(&entry.descriptors[j], extent) {
                assert(!entry_within(views[i as int], extent as int));
                return false;
            }
            j += 1;
        }
        i += 1;
    }
    true
}

/// Whether replaying a descriptor writes the byte `k` of the device.
pub open spec fn covers(d: Descriptor, k: int) -> bool {
    match d {
        Descriptor::Zero { zero_length, file_offset, .. } => file_offset <= k < file_offset
            + zero_length,
        Descriptor::Data { file_offset, sector, .. } => file_offset <= k < file_offset
            + sector@.len(),
    }
}

/// The byte that replaying a descriptor writes at `k`.
pub open spec fn byte_for(d: Descriptor, k: int) -> u8 {
    match d {
        Descriptor::Zero { .. } => 0u8,
        Descriptor::Data { file_offset, sector, .. } => sector@[k - file_offset],
    }
}

/// What one descriptor makes of the byte `k`.
proof fn lemma_one_descriptor(disk: Seq<u8>, d: Descriptor, k: int)
    requires
        0 <= k,
    ensures
        disk.len() <= replayed_descriptor(disk, d@).len(),
        covers(d, k) ==> k < replayed_descriptor(disk, d@).len() && replayed_descriptor(
            disk,
            d@,
        )[k] == byte_for(d, k),
        !covers(d, k) && k < disk.len() ==> replayed_descriptor(disk, d@)[k] == disk[k],
        !covers(d, k) && disk.len() <= k < replayed_descriptor(disk, d@).len()
            ==> replayed_descriptor(disk, d@)[k] == 0,
        !covers(d, k) && disk.len() <= k < replayed_descriptor(disk, d@).len() ==> exists|m: int|
            k < m && #[trigger] covers(d, m),
{
    if !covers(d, k) && disk.len() <= k < replayed_descriptor(disk, d@).len() {
        assert(covers(d, replayed_descriptor(disk, d@).len() - 1));
    }
}

/// What the first `n` descriptors of an entry make of the byte `k`, where `j` is the last of them
/// that writes it.
proof fn lemma_last_descriptor(disk: Seq<u8>, entry: LogEntry, n: int, j: int, k: int)
    requires
        0 <= j < n <= entry.descriptors@.len(),
        0 <= k,
        covers(entry.descriptors@[j], k),
        forall|l: int| j < l < n ==> !covers(#[trigger] entry.descriptors@[l], k),
    ensures
        ({
            let after = replayed_descriptors(disk, entry@.descriptors.take(n));
            k < after.len() && after[k] == byte_for(entry.descriptors@[j], k)
        }),
    decreases n,
{
    let ds = entry@.descriptors.take(n);
    let d = entry.descriptors@[n - 1];
    let before = replayed_descriptors(disk, ds.drop_last());
    assert(ds.last() == d@);
    assert(ds.drop_last() =~= entry@.descriptors.take(n - 1));
    lemma_one_descriptor(before, d, k);
    if j < n - 1 {
        lemma_last_descriptor(disk, entry, n - 1, j, k);
        assert(!covers(entry.descriptors@[n - 1], k));
    }
}

/// The first `n` descriptors of an entry leave a byte that none of them writes.
proof fn lemma_no_descriptor(disk: Seq<u8>, entry: LogEntry, n: int, k: int)
    requires
        0 <= n <= entry.descriptors@.len(),
        0 <= k,
        forall|l: int| 0 <= l < n ==> !covers(#[trigger] entry.descriptors@[l], k),
    ensures
        ({
            let after = replayed_descriptors(disk, entry@.descriptors.take(n));
            &&& disk.len() <= after.len()
            &&& k < disk.len() ==> after[k] == disk[k]
            &&& disk.len() <= k < after.len() ==> after[k] == 0
        }),
    decreases n,
{
    let ds = entry@.descriptors.take(n);
    if n > 0 {
        let d = entry.descriptors@[n - 1];
        let before = replayed_descriptors(disk, ds.drop_last());
        assert(ds.last() == d@);
        assert(ds.drop_last() =~= entry@.descriptors.take(n - 1));
        lemma_one_descriptor(before, d, k);
        lemma_no_descriptor(disk, entry, n - 1, k);
    }
}

/// Whether descriptor `j` of entry `i` is the last of a chain that writes the byte `k`.
pub open spec fn writes_last(chain: Seq<LogEntry>, i: int, j: int, k: int) -> bool {
    &&& 0 <= i < chain.len()
    &&& 0 <= j < chain[i].descriptors@.len()
    &&& covers(chain[i].descriptors@[j], k)
    &&& forall|m: int, l: int|
        0 <= m < chain.len() && 0 <= l < chain[m].descriptors@.len() && (m > i || m == i && l > j)
            ==> !covers(#[trigger] chain[m].descriptors@[l], k)
}

/// What the first `n` entries of a chain make of a byte that a descriptor of them writes last.
proof fn lemma_last_entry(disk: Seq<u8>, chain: Seq<LogEntry>, n: int, i: int, j: int, k: int)
    requires
        0 <= i < n <= chain.len(),
        0 <= k,
        writes_last(chain, i, j, k),
    ensures
        ({
            let after = replayed(disk, entry_views(chain).take(n));
            k < after.len() && after[k] == byte_for(chain[i].descriptors@[j], k)
        }),
    decreases n,
{
    let views = entry_views(chain).take(n);
    let last = chain[n - 1];
    let before = replayed(disk, views.drop_last());
    assert(views.drop_last() =~= entry_views(chain).take(n - 1));
    assert(views.last() == last@);
    assert(last@.descriptors.take(last.descriptors@.len() as int) =~= last@.descriptors);
    if i == n - 1 {
        assert forall|l: int| j < l < last.descriptors@.len() implies !covers(
            #[trigger] last.descriptors@[l],
            k,
        ) by {
            assert(!covers(chain[n - 1].descriptors@[l], k));
        }
        lemma_last_descriptor(before, last, last.descriptors@.len() as int, j, k);
    } else {
        lemma_last_entry(disk, chain, n - 1, i, j, k);
        assert forall|l: int| 0 <= l < last.descriptors@.len() implies !covers(
            #[trigger] last.descriptors@[l],
            k,
        ) by {
            assert(!covers(chain[n - 1].descriptors@[l], k));
        }
        lemma_no_descriptor(before, last, last.descriptors@.len() as int, k);
    }
}

/// The first `n` entries of a chain leave a byte that none of them writes.
proof fn lemma_no_entry(disk: Seq<u8>, chain: Seq<LogEntry>, n: int, k: int)
    requires
        0 <= n <= chain.len(),
        0 <= k,
        forall|m: int, l: int|
            0 <= m < n && 0 <= l < chain[m].descriptors@.len() ==> !covers(
                #[trigger] chain[m].descriptors@[l],
                k,
            ),
    ensures
        ({
            let after = replayed(disk, entry_views(chain).take(n));
            &&& disk.len() <= after.len()
            &&& k < disk.len() ==> after[k] == disk[k]
            &&& disk.len() <= k < after.len() ==> after[k] == 0
        }),
    decreases n,
{
    let views = entry_views(chain).take(n);
    if n > 0 {
        let last = chain[n - 1];
        let before = replayed(disk, views.drop_last());
        assert(views.drop_last() =~= entry_views(chain).take(n - 1));
        assert(views.last() == last@);
        assert(last@.descriptors.take(last.descriptors@.len() as int) =~= last@.descriptors);
        lemma_no_entry(disk, chain, n - 1, k);
        assert forall|l: int| 0 <= l < last.descriptors@.len() implies !covers(
            #[trigger] last.descriptors@[l],
            k,
        ) by {
            assert(!covers(chain[n - 1].descriptors@[l], k));
        }
        lemma_no_descriptor(before, last, last.descriptors@.len() as int, k);
    }
}

/// Replaying a chain leaves at each place what the last descriptor that writes there says: a "desc"
/// descriptor the byte of its sector, a "zero" descriptor zero.
pub proof fn the_last_descriptor_says_what_a_byte_is(
    chain: &[LogEntry],
    ops: Vec<DeviceOp>,
    disk: Seq<u8>,
    i: int,
    j: int,
    k: int,
)
    requires
        call_ensures(apply_chain, (chain,), ops),
        0 <= k,
        writes_last(chain@, i, j, k),
    ensures
        call_requires(apply_chain, (chain,)),
        k < after_ops(disk, op_views(ops@)).len(),
        after_ops(disk, op_views(ops@))[k] == byte_for(chain@[i].descriptors@[j], k),
{
    let views = entry_views(chain@);
    assert(views.take(chain@.len() as int) =~= views);
    lemma_chain_ops_replay(disk, views);
    lemma_last_entry(disk, chain@, chain@.len() as int, i, j, k);
}

/// Replaying a chain leaves a byte that no descriptor writes; the device is never cut short, and
/// where it grows past what is written it reads as zero.
pub proof fn replay_leaves_every_other_byte(
    chain: &[LogEntry],
    ops: Vec<DeviceOp>,
    disk: Seq<u8>,
    k: int,
)
    requires
        call_ensures(apply_chain, (chain,), ops),
        0 <= k,
        forall|m: int, l: int|
            0 <= m < chain@.len() && 0 <= l < chain@[m].descriptors@.len() ==> !covers(
                #[trigger] chain@[m].descriptors@[l],
                k,
            ),
    ensures
        disk.len() <= after_ops(disk, op_views(ops@)).len(),
        k < disk.len() ==> after_ops(disk, op_views(ops@))[k] == disk[k],
        disk.len() <= k < after_ops(disk, op_views(ops@)).len() ==> after_ops(
            disk,
            op_views(ops@),
        )[k] == 0,
{
    let views = entry_views(chain@);
    assert(views.take(chain@.len() as int) =~= views);
    lemma_chain_ops_replay(disk, views);
    lemma_no_entry(disk, chain@, chain@.len() as int, k);
}

/// How long the device is once a chain was replayed.
proof fn lemma_replayed_length(disk: Seq<u8>, chain: Seq<EntryView>, extent: int)
    requires
        chain_within(chain, extent),
        forall|i: int| 0 <= i < chain.len() ==> spans_are_lengths(#[trigger] chain[i].descriptors),
        disk.len() <= extent,
    ensures
        replayed(disk, chain).len() <= extent,
    decreases chain.len(),
{
    if chain.len() > 0 {
        let rest = chain.drop_last();
        assert forall|i: int| 0 <= i < rest.len() implies entry_within(
            #[trigger] rest[i],
            extent,
        ) by {
            assert(entry_within(chain[i], extent));
        }
        assert forall|i: int| 0 <= i < rest.len() implies spans_are_lengths(
            #[trigger] rest[i].descriptors,
        ) by {
            assert(spans_are_lengths(chain[i].descriptors));
        }
        lemma_replayed_length(disk, rest, extent);
        assert(entry_within(chain[chain.len() - 1], extent));
        assert(spans_are_lengths(chain[chain.len() - 1].descriptors));
        let ds = chain.last().descriptors;
        lemma_descriptors_length(replayed(disk, chain.drop_last()), ds, extent);
    }
}

/// Whether no span of a list of descriptors is of negative length.
spec fn spans_are_lengths(ds: Seq<DescriptorView>) -> bool {
    forall|j: int|
        0 <= j < ds.len() ==> (#[trigger] ds[j] matches DescriptorView::Zero { zero_length, .. }
            ==> 0 <= zero_length)
}

/// How long the device is once descriptors were replayed.
proof fn lemma_descriptors_length(disk: Seq<u8>, ds: Seq<DescriptorView>, extent: int)
    requires
        spans_are_lengths(ds),
        forall|j: int| 0 <= j < ds.len() ==> descriptor_reach(#[trigger] ds[j]) <= extent,
        disk.len() <= extent,
    ensures
        replayed_descriptors(disk, ds).len() <= extent,
    decreases ds.len(),
{
    if ds.len() > 0 {
        lemma_descriptors_length(disk, ds.drop_last(), extent);
        assert(descriptor_reach(ds[ds.len() - 1]) <= extent);
    }
}

/// A chain that was found to stay within an extent grows the device no further.
pub proof fn a_replay_stays_within_its_extent(
    chain: &[LogEntry],
    ops: Vec<DeviceOp>,
    disk: Seq<u8>,
    extent: u64,
)
    requires
        call_ensures(apply_chain, (chain,), ops),
        call_ensures(stays_within, (chain, extent), true),
        disk.len() <= extent,
    ensures
        after_ops(disk, op_views(ops@)).len() <= extent,
{
    let views = entry_views(chain@);
    assert forall|i: int| 0 <= i < views.len() implies spans_are_lengths(
        #[trigger] views[i].descriptors,
    ) by {
        assert(views[i] == chain@[i]@);
    }
    lemma_chain_ops_replay(disk, views);
    lemma_replayed_length(disk, entry_views(chain@), extent as int);
}

/// The operations of a chain are those of its first entries, and then those of the rest.
proof fn lemma_chain_ops_split(first: Seq<EntryView>, second: Seq<EntryView>)
    ensures
        chain_ops(first + second) == chain_ops(first) + chain_ops(second),
    decreases second.len(),
{
    if second.len() == 0 {
        assert(first + second =~= first);
        assert(chain_ops(first) + chain_ops(second) =~= chain_ops(first));
    } else {
        lemma_chain_ops_split(first, second.drop_last());
        assert((first + second).drop_last() =~= first + second.drop_last());
        assert((first + second).last() == second.last());
        let last = descriptors_ops(second.last().descriptors).push(OpView::Flush);
        assert(chain_ops(first) + chain_ops(second.drop_last()) + last =~= chain_ops(first) + (
        chain_ops(second.drop_last()) + last));
    }
}

/// A chain is replayed entry by entry: the operations of a chain are those of its first entries,
/// and then those of the rest.
pub proof fn a_chain_is_replayed_entry_by_entry(
    first: &[LogEntry],
    second: &[LogEntry],
    whole: &[LogEntry],
    a: Vec<DeviceOp>,
    b: Vec<DeviceOp>,
    ops: Vec<DeviceOp>,
)
    requires
        whole@ == first@ + second@,
        call_ensures(apply_chain, (first,), a),
        call_ensures(apply_chain, (second,), b),
        call_ensures(apply_chain, (whole,), ops),
    ensures
        op_views(ops@) == op_views(a@) + op_views(b@),
{
    assert(entry_views(whole@) =~= entry_views(first@) + entry_views(second@));
    lemma_chain_ops_split(entry_views(first@), entry_views(second@));
}

/// No operation of a descriptor is a flush.
proof fn lemma_descriptors_do_not_flush(ds: Seq<DescriptorView>)
    ensures
        forall|i: int|
            0 <= i < descriptors_ops(ds).len() ==> !(#[trigger] descriptors_ops(ds)[i] is Flush),
    decreases ds.len(),
{
    if ds.len() > 0 {
        lemma_descriptors_do_not_flush(ds.drop_last());
        let before = descriptors_ops(ds.drop_last());
        assert forall|i: int| 0 <= i < descriptors_ops(ds).len() implies !(
        #[trigger] descriptors_ops(ds)[i] is Flush) by {
            if i < before.len() {
                assert(descriptors_ops(ds)[i] == before[i]);
            }
        }
    }
}

/// Replaying one entry ends in a flush, and there is none before: an entry is durable before the
/// next one starts. A chain of no entries asks for nothing.
pub proof fn every_entry_ends_in_a_flush(chain: &[LogEntry], ops: Vec<DeviceOp>)
    requires
        call_ensures(apply_chain, (chain,), ops),
        chain@.len() <= 1,
    ensures
        chain@.len() == 0 ==> ops@.len() == 0,
        chain@.len() == 1 ==> {
            &&& ops@.len() > 0
            &&& forall|i: int|
                0 <= i < ops@.len() ==> ((#[trigger] ops@[i]) is Flush <==> i == ops@.len() - 1)
        },
{
    let views = entry_views(chain@);
    let plan = op_views(ops@);
    assert(plan.len() == ops@.len());
    if chain@.len() == 1 {
        let ds = views.last().descriptors;
        reveal_with_fuel(chain_ops, 2);
        assert(views.drop_last().len() == 0);
        assert(plan =~= descriptors_ops(ds).push(OpView::Flush));
        lemma_descriptors_do_not_flush(ds);
        assert forall|i: int| 0 <= i < ops@.len() implies ((#[trigger] ops@[i]) is Flush <==> i
            == ops@.len() - 1) by {
            assert(plan[i] == ops@[i]@);
            if i < ops@.len() - 1 {
                assert(plan[i] == descriptors_ops(ds)[i]);
            }
        }
    }
}

/// How far a chain may write is the furthest of the end of the device and of what its entries say.
pub proof fn the_extent_is_the_furthest(chain: &[LogEntry], dev_size: u64, extent: u64)
    requires
        call_ensures(extent_of, (chain, dev_size), extent),
    ensures
        call_requires(extent_of, (chain, dev_size)),
        dev_size <= extent,
        forall|i: int|
            0 <= i < chain@.len() ==> (#[trigger] chain@[i]).header.last_file_offset <= extent,
        extent == dev_size || exists|i: int|
            0 <= i < chain@.len() && (#[trigger] chain@[i]).header.last_file_offset == extent,
{
    let views = entry_views(chain@);
    lemma_extent(views, dev_size as int);
    assert forall|i: int| 0 <= i < chain@.len() implies (
    #[trigger] chain@[i]).header.last_file_offset == views[i].last_file_offset by {}
    if extent != dev_size {
        let i = choose|i: int|
            0 <= i < views.len() && (#[trigger] views[i]).last_file_offset == extent;
        assert(chain@[i].header.last_file_offset == extent);
    }
}

/// The furthest of a size and of what entries say.
proof fn lemma_extent(chain: Seq<EntryView>, dev_size: int)
    ensures
        dev_size <= allowed_extent(chain, dev_size),
        forall|i: int|
            0 <= i < chain.len() ==> (#[trigger] chain[i]).last_file_offset <= allowed_extent(
                chain,
                dev_size,
            ),
        allowed_extent(chain, dev_size) == dev_size || exists|i: int|
            0 <= i < chain.len() && (#[trigger] chain[i]).last_file_offset == allowed_extent(
                chain,
                dev_size,
            ),
    decreases chain.len(),
{
    if chain.len() > 0 {
        let rest = chain.drop_last();
        lemma_extent(rest, dev_size);
        assert forall|i: int| 0 <= i < chain.len() implies (#[trigger] chain[i]).last_file_offset
            <= allowed_extent(chain, dev_size) by {
            if i < rest.len() {
                assert(rest[i] == chain[i]);
            }
        }
        if allowed_extent(rest, dev_size) != dev_size {
            let i = choose|i: int|
                0 <= i < rest.len() && (#[trigger] rest[i]).last_file_offset == allowed_extent(
                    rest,
                    dev_size,
                );
            assert(chain[i].last_file_offset == allowed_extent(rest, dev_size));
        }
        assert(chain[chain.len() - 1] == chain.last());
    }
}

/// A chain stays within an extent exactly when it writes no byte at or past it; its data sectors
/// must not be empty ones.
pub proof fn a_chain_within_an_extent_writes_nothing_past_it(
    chain: &[LogEntry],
    extent: u64,
    within: bool,
)
    requires
        call_ensures(stays_within, (chain, extent), within),
        forall|i: int, j: int|
            0 <= i < chain@.len() && 0 <= j < chain@[i].descriptors@.len() ==> (
            #[trigger] chain@[i].descriptors@[j] matches Descriptor::Data { sector, .. }
                ==> sector@.len() > 0),
    ensures
        call_requires(stays_within, (chain, extent)),
        within <==> forall|i: int, j: int, k: int|
            0 <= i < chain@.len() && 0 <= j < chain@[i].descriptors@.len() && extent <= k
                ==> !#[trigger] writes_at(chain@, i, j, k),
{
    let views = entry_views(chain@);
    if within {
        assert forall|i: int, j: int, k: int|
            0 <= i < chain@.len() && 0 <= j < chain@[i].descriptors@.len() && extent
                <= k implies !#[trigger] writes_at(chain@, i, j, k) by {
            assert(entry_within(views[i], extent as int));
            assert(views[i].descriptors[j] == chain@[i].descriptors@[j]@);
        }
    } else {
        let i = choose|i: int|
            0 <= i < views.len() && !entry_within(#[trigger] views[i], extent as int);
        let j = choose|j: int|
            0 <= j < views[i].descriptors.len() && descriptor_reach(
                #[trigger] views[i].descriptors[j],
            ) > extent;
        let d = chain@[i].descriptors@[j];
        assert(views[i].descriptors[j] == d@);
        let k = descriptor_reach(d@) - 1;
        if k >= file_start(d) {
            assert(writes_at(chain@, i, j, k));
        }
    }
}

/// Whether descriptor `j` of entry `i` of a chain writes the byte `k`.
pub open spec fn writes_at(chain: Seq<LogEntry>, i: int, j: int, k: int) -> bool {
    covers(chain[i].descriptors@[j], k)
}

/// Where a descriptor starts to write.
spec fn file_start(d: Descriptor) -> int {
    match d {
        Descriptor::Zero { file_offset, .. } => file_offset as int,
        Descriptor::Data { file_offset, .. } => file_offset as int,
    }
}

} // verus!

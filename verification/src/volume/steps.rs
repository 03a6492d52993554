//! The steps of a write: what it comes to is settled when it is begun, and every answer that is
//! true to the device leaves it so.
use crate::device::{after_ops, op_views, DeviceOp};
use crate::error::Error;
use crate::reader::VhdxReader;
use crate::write::{has_room, lemma_write_steps_are_counted, wrote, Volume, WriteApply, WriteRead};
use crate::write::WriteStep;
use vstd::prelude::*;

verus! {

/// A write that is begun comes to what is stated, whatever the device holds.
pub proof fn a_write_that_is_begun(
    r: &mut VhdxReader,
    offset: u64,
    data: &[u8],
    step: WriteStep<'_>,
    disk: Seq<u8>,
)
    requires
        call_ensures(VhdxReader::write_at, (r, offset, data), step),
    ensures
        old(r).wf() && has_room(old(r)@, offset as int, data@.len() as int) ==> call_requires(
            VhdxReader::write_at,
            (r, offset, data),
        ),
        final(r).wf(),
        step.belongs_to(final(r)@),
        step.outcome(Volume { reader: final(r)@, disk }) == wrote(
            Volume { reader: old(r)@, disk },
            offset as int,
            data@,
        ),
{
}

/// A write that is answered with the bytes of the device that it asks for comes to what it came to
/// before the answer, and comes nearer to its end. The bytes lie inside the device.
pub proof fn an_answer_leaves_what_a_write_comes_to(
    read: WriteRead<'_>,
    reader: &mut VhdxReader,
    offset: u64,
    len: usize,
    bytes: Vec<u8>,
    step: WriteStep<'_>,
    disk: Seq<u8>,
)
    requires
        old(reader).wf(),
        WriteStep::Read(read).belongs_to(old(reader)@),
        disk.len() == old(reader)@.dev_size,
        call_ensures(WriteRead::offset, (&read,), offset),
        call_ensures(WriteRead::len, (&read,), len),
        bytes@ == disk.subrange(offset as int, offset + len),
        call_ensures(WriteRead::supply, (read, reader, bytes), step),
    ensures
        offset + len <= disk.len(),
        call_requires(WriteRead::supply, (read, reader, bytes)),
        *final(reader) == *old(reader),
        step.belongs_to(final(reader)@),
        step.outcome(Volume { reader: final(reader)@, disk }) == WriteStep::Read(read).outcome(
            Volume { reader: old(reader)@, disk },
        ),
        0 <= step.steps_left() < WriteStep::Read(read).steps_left(),
{
    let v = Volume { reader: old(reader)@, disk };
    assert(step.outcome(Volume { reader: final(reader)@, disk }) == read.outcome(v));
    lemma_write_steps_are_counted(step, final(reader)@);
}

/// A write whose operations are carried out comes to what it came to before, and comes nearer to
/// its end.
pub proof fn carrying_out_leaves_what_a_write_comes_to(
    apply: WriteApply<'_>,
    reader: &mut VhdxReader,
    ops: &[DeviceOp],
    step: WriteStep<'_>,
    disk: Seq<u8>,
)
    requires
        old(reader).wf(),
        WriteStep::Apply(apply).belongs_to(old(reader)@),
        call_ensures(WriteApply::ops, (&apply,), ops),
        call_ensures(WriteApply::applied, (apply, reader), step),
    ensures
        call_requires(WriteApply::applied, (apply, reader)),
        final(reader).wf(),
        step.belongs_to(final(reader)@),
        ({
            let left = after_ops(disk, op_views(ops@));
            let before = WriteStep::Apply(apply).outcome(Volume { reader: old(reader)@, disk });
            let after = step.outcome(Volume { reader: final(reader)@, disk: left });
            &&& before.volume == after.volume
            &&& before.failure == after.failure
            &&& before.ops == op_views(ops@) + after.ops
        }),
        0 <= step.steps_left() < WriteStep::Apply(apply).steps_left(),
{
    let left = after_ops(disk, op_views(ops@));
    assert(step.outcome(Volume { reader: final(reader)@, disk: left }) == apply.outcome_after(
        Volume { reader: old(reader)@, disk: left },
    ));
    lemma_write_steps_are_counted(step, final(reader)@);
}

/// A write that is over says what it came to, with nothing left to perform.
pub proof fn a_write_that_is_over_says_what_it_came_to(v: Volume, why: Error)
    ensures
        WriteStep::Done(Ok(())).outcome(v).failure is None,
        WriteStep::Done(Ok(())).outcome(v).ops.len() == 0,
        WriteStep::Done(Ok(())).outcome(v).volume == v,
        WriteStep::Done(Err(why)).outcome(v).failure == Some(why),
        WriteStep::Done(Err(why)).outcome(v).ops.len() == 0,
        WriteStep::Done(Err(why)).outcome(v).volume == v,
{
}

} // verus!

//! Choosing the entries of a log that may be replayed.
//!
//! Discovery scans the whole region, because an entry can be anywhere in it.
//! Selection then walks forward from the chain's start and stops at the first
//! entry that is not a valid continuation, so the result is always a run of one
//! chain and never a set of survivors gathered from either side of a break.
use crate::bytes::{all_zero, is_zero_guid};
use crate::log::{all_counted, entry_views, parse_log_entry, slot_meaning, EntryReject, EntryView};
use crate::log::{LogEntry, ParseOutcome, LOG_ENTRY_SIGNATURE, LOG_SECTOR_SIZE};
use vstd::prelude::*;

verus! {

/// The entries of the chain `guid` that the log holds from `pos` on, in order of
/// offset.
pub open spec fn entries_from(log: Seq<u8>, guid: Seq<u8>, pos: int) -> Seq<EntryView>
    decreases log.len() - pos,
{
    if pos < 0 || pos + 4096 > log.len() {
        Seq::empty()
    } else {
        match slot_meaning(log, pos, guid) {
            Ok(entry) => seq![entry] + entries_from(log, guid, pos + entry.entry_length),
            Err(_) => entries_from(log, guid, pos + 4096),
        }
    }
}

/// The index of the entry with the highest sequence number among the first `n`;
/// of several, the first.
pub open spec fn head_index(found: Seq<EntryView>, n: int) -> int
    decreases n,
{
    if n <= 1 {
        0
    } else {
        let best = head_index(found, n - 1);
        if found[n - 1].sequence_number > found[best].sequence_number {
            n - 1
        } else {
            best
        }
    }
}

/// The index of the first entry, from index `i` on, that starts at `offset` in
/// the log.
pub open spec fn index_starting_at(found: Seq<EntryView>, offset: int, i: int) -> Option<int>
    decreases found.len() - i,
{
    if i >= found.len() {
        None
    } else if found[i].offset == offset {
        Some(i)
    } else {
        index_starting_at(found, offset, i + 1)
    }
}

/// Whether `b` continues the chain after `a`: it sits immediately after it and
/// carries exactly the next sequence number.
pub open spec fn continues(a: EntryView, b: EntryView) -> bool {
    &&& b.offset == a.offset + a.entry_length
    &&& b.sequence_number == a.sequence_number + 1
}

/// How many entries, from index `i` on, each continue the one before.
pub open spec fn run_length(found: Seq<EntryView>, i: int) -> int
    decreases found.len() - i,
{
    if i >= found.len() {
        0
    } else if i + 1 < found.len() && continues(found[i], found[i + 1]) {
        1 + run_length(found, i + 1)
    } else {
        1
    }
}

/// The index at which the active chain starts: where the head's `tail` points,
/// or the first entry when it points at none.
pub open spec fn chain_start(found: Seq<EntryView>) -> int {
    match index_starting_at(found, found[head_index(found, found.len() as int)].tail, 0) {
        Some(i) => i,
        None => 0,
    }
}

/// The active chain among the entries `found` in a log.
pub open spec fn active_chain(found: Seq<EntryView>) -> Seq<EntryView> {
    if found.len() == 0 {
        found
    } else {
        let start = chain_start(found);
        found.subrange(start, start + run_length(found, start))
    }
}

/// The entries of the log that may be replayed for the chain `guid`, in apply
/// order. The all-zero GUID says that the log is empty.
pub open spec fn replay_chain(log: Seq<u8>, guid: Seq<u8>) -> Seq<EntryView> {
    if all_zero(guid) {
        Seq::empty()
    } else {
        active_chain(entries_from(log, guid, 0))
    }
}

/// The index of the entry that starts at exactly `offset`, if discovery found one.
pub fn entry_starting_at(found: &[LogEntry], offset: u64) -> (r: Option<usize>)
    ensures
        match r {
            Some(i) => index_starting_at(entry_views(found@), offset as int, 0) == Some(i as int)
                && i < found.len(),
            None => index_starting_at(entry_views(found@), offset as int, 0) is None,
        },
{
    let ghost views = entry_views(found@);
    let mut i: usize = 0;
    while i < found.len()
        invariant
            i <= found.len(),
            views == entry_views(found@),
            index_starting_at(views, offset as int, 0) == index_starting_at(
                views,
                offset as int,
                i as int,
            ),
        decreases found.len() - i,
    {
        if found[i].log_offset_in_region == offset {
            return Some(i);
        }
        i += 1;
    }
    None
}

/// Find every entry of the chain `expected_log_guid` in the log.
///
/// Probes every 4 KiB slot and never stops early: an entry can sit anywhere in
/// the region. A refused slot says nothing trustworthy about how far whatever is
/// there extends, so the probe steps one sector past it.
pub fn discover_entries(log_bytes: &[u8], expected_log_guid: &[u8; 16]) -> (found: Vec<LogEntry>)
    ensures
        entry_views(found@) == entries_from(log_bytes@, expected_log_guid@, 0),
        all_counted(found@),
{
    let ghost log = log_bytes@;
    let ghost guid = expected_log_guid@;
    let mut found: Vec<LogEntry> = Vec::new();
    let mut pos: usize = 0;
    assert(entry_views(found@) + entries_from(log, guid, 0) =~= entries_from(log, guid, 0));
    while log_bytes.len() - pos >= LOG_SECTOR_SIZE
        invariant
            log == log_bytes@,
            guid == expected_log_guid@,
            pos <= log_bytes.len(),
            entry_views(found@) + entries_from(log, guid, pos as int) == entries_from(log, guid, 0),
            all_counted(found@),
        decreases log_bytes.len() - pos,
    {
        let ghost before = found@;
        let ghost from = pos as int;
        match parse_log_entry(log_bytes, pos, expected_log_guid) {
            Ok(entry) => {
                proof {
                    assert(entry_views(before.push(entry)) =~= entry_views(before).push(entry@));
                    assert(entry_views(before).push(entry@) + entries_from(
                        log,
                        guid,
                        from + entry@.entry_length,
                    ) =~= entry_views(before) + entries_from(log, guid, from));
                }
                pos += entry.header.entry_length as usize;
                found.push(entry);
            },
            Err(_) => {
                pos += LOG_SECTOR_SIZE;
            },
        }
    }
    assert(entry_views(found@) + entries_from(log, guid, pos as int) =~= entry_views(found@));
    found
}

/// Keep, of the entries that discovery found, those of the active chain.
///
/// The chain ends at the highest sequence number present; of two entries that
/// claim it, the one at the lower offset counts. It starts where that entry's
/// `tail` says, or at the first entry found when `tail` points at none. From
/// there each entry must sit immediately after its predecessor and carry exactly
/// the next sequence number; the first that does not ends the chain.
pub fn select_chain(found: Vec<LogEntry>) -> (chain: Vec<LogEntry>)
    ensures
        entry_views(chain@) == active_chain(entry_views(found@)),
        all_counted(found@) ==> all_counted(chain@),
{
    let mut found = found;
    let ghost all = found@;
    let ghost views = entry_views(found@);
    if found.len() == 0 {
        return found;
    }
    let mut head: usize = 0;
    let mut i: usize = 1;
    while i < found.len()
        invariant
            1 <= i <= found.len(),
            head < i,
            found@ == all,
            views == entry_views(found@),
            head == head_index(views, i as int),
        decreases found.len() - i,
    {
        if found[i].header.sequence_number > found[head].header.sequence_number {
            head = i;
        }
        i += 1;
    }
    let start: usize = match entry_starting_at(found.as_slice(), found[head].header.tail as u64) {
        Some(at) => at,
        None => 0,
    };
    let mut end: usize = start + 1;
    while end < found.len() && follows(&found[end - 1], &found[end])
        invariant
            start < end <= found.len(),
            found@ == all,
            views == entry_views(found@),
            run_length(views, start as int) == end - start - 1 + run_length(views, end - 1),
        decreases found.len() - end,
    {
        end += 1;
    }
    assert(run_length(views, end - 1) == 1);
    found.truncate(end);
    let chain: Vec<LogEntry> = found.split_off(start);
    assert(chain@ =~= all.subrange(start as int, end as int));
    assert(entry_views(chain@) =~= views.subrange(start as int, end as int));
    chain
}

/// Whether `b` continues the chain after `a`.
fn follows(a: &LogEntry, b: &LogEntry) -> (r: bool)
    ensures
        r == continues(a@, b@),
{
    let next_offset = a.log_offset_in_region.checked_add(a.header.entry_length as u64);
    let next_sequence = a.header.sequence_number.checked_add(1);
    match (next_offset, next_sequence) {
        (Some(offset), Some(sequence)) => b.log_offset_in_region == offset
            && b.header.sequence_number == sequence,
        _ => false,
    }
}

/// Collect the entries that may be replayed, in apply order.
///
/// The result is always a run of one chain, and never a set of survivors gathered
/// from either side of a break. It is empty when `expected_log_guid` is all-zero
/// (the sentinel for "log is empty") and when the region holds no entry of this
/// chain.
pub fn collect_replay_chain(log_bytes: &[u8], expected_log_guid: &[u8; 16]) -> (chain: Vec<
    LogEntry,
>)
    ensures
        entry_views(chain@) == replay_chain(log_bytes@, expected_log_guid@),
        all_counted(chain@),
{
    if is_zero_guid(expected_log_guid) {
        let chain: Vec<LogEntry> = Vec::new();
        assert(entry_views(chain@) =~= Seq::<EntryView>::empty());
        return chain;
    }
    select_chain(discover_entries(log_bytes, expected_log_guid))
}

/// A zeroed slot holds no entry.
proof fn lemma_zero_slot_is_empty(log: Seq<u8>, guid: Seq<u8>, pos: int)
    requires
        0 <= pos,
        pos + 4096 <= log.len(),
        log[pos] == 0,
    ensures
        slot_meaning(log, pos, guid) is Err,
{
    assert(log.subrange(pos, pos + 4)[0] != LOG_ENTRY_SIGNATURE@[0]);
}

/// Zeroed slots at `from` up to `to` hold no entries.
pub proof fn lemma_zeros_hold_no_entries(log: Seq<u8>, guid: Seq<u8>, from: int, to: int)
    requires
        0 <= from <= to <= log.len(),
        from % 4096 == 0,
        to % 4096 == 0,
        forall|k: int| from <= k < to ==> log[k] == 0,
    ensures
        entries_from(log, guid, from) == entries_from(log, guid, to),
    decreases to - from,
{
    if from < to {
        lemma_zero_slot_is_empty(log, guid, from);
        lemma_zeros_hold_no_entries(log, guid, from + 4096, to);
    }
}

/// Zeros up to the end of the log hold no entries.
pub proof fn lemma_zeros_end_the_scan(log: Seq<u8>, guid: Seq<u8>, from: int)
    requires
        0 <= from <= log.len(),
        forall|k: int| from <= k < log.len() ==> log[k] == 0,
    ensures
        entries_from(log, guid, from) == Seq::<EntryView>::empty(),
    decreases log.len() - from,
{
    if from + 4096 <= log.len() {
        lemma_zero_slot_is_empty(log, guid, from);
        lemma_zeros_end_the_scan(log, guid, from + 4096);
    }
}

/// Every entry found is one that the slot at its offset holds, whole and inside the
/// log; and no entry found starts before the one found before it ends.
pub proof fn found_entries_are_sound_and_disjoint(log: Seq<u8>, guid: Seq<u8>, pos: int)
    requires
        0 <= pos,
    ensures
        forall|i: int|
            0 <= i < entries_from(log, guid, pos).len() ==> {
                let e = #[trigger] entries_from(log, guid, pos)[i];
                &&& slot_meaning(log, e.offset, guid) == Ok::<EntryView, EntryReject>(e)
                &&& pos <= e.offset
                &&& e.entry_length >= 4096
                &&& e.offset + e.entry_length <= log.len()
                &&& e.log_guid == guid
            },
        forall|i: int, j: int|
            0 <= i < j < entries_from(log, guid, pos).len() ==> {
                let a = #[trigger] entries_from(log, guid, pos)[i];
                let b = #[trigger] entries_from(log, guid, pos)[j];
                a.offset + a.entry_length <= b.offset
            },
    decreases log.len() - pos,
{
    if pos + 4096 <= log.len() {
        match slot_meaning(log, pos, guid) {
            Ok(entry) => {
                let next = pos + entry.entry_length;
                let rest = entries_from(log, guid, next);
                found_entries_are_sound_and_disjoint(log, guid, next);
                assert(entries_from(log, guid, pos) =~= seq![entry] + rest);
                assert forall|i: int| 0 <= i < entries_from(log, guid, pos).len() implies {
                    let e = #[trigger] entries_from(log, guid, pos)[i];
                    &&& slot_meaning(log, e.offset, guid) == Ok::<EntryView, EntryReject>(e)
                    &&& pos <= e.offset
                    &&& e.entry_length >= 4096
                    &&& e.offset + e.entry_length <= log.len()
                    &&& e.log_guid == guid
                } by {
                    if i > 0 {
                        assert(entries_from(log, guid, pos)[i] == rest[i - 1]);
                    }
                }
                assert forall|i: int, j: int|
                    0 <= i < j < entries_from(log, guid, pos).len() implies {
                    let a = #[trigger] entries_from(log, guid, pos)[i];
                    let b = #[trigger] entries_from(log, guid, pos)[j];
                    a.offset + a.entry_length <= b.offset
                } by {
                    assert(entries_from(log, guid, pos)[j] == rest[j - 1]);
                    if i > 0 {
                        assert(entries_from(log, guid, pos)[i] == rest[i - 1]);
                    }
                }
            },
            Err(_) => {
                found_entries_are_sound_and_disjoint(log, guid, pos + 4096);
            },
        }
    }
}

/// The bounds of a run, and that each entry of it continues the one before.
proof fn lemma_run(found: Seq<EntryView>, start: int)
    requires
        0 <= start < found.len(),
    ensures
        1 <= run_length(found, start) <= found.len() - start,
        forall|i: int, j: int|
            #![trigger found[i], found[j]]
            start <= i && j == i + 1 && j < start + run_length(found, start) ==> continues(
                found[i],
                found[j],
            ),
        start + run_length(found, start) < found.len() ==> !continues(
            found[start + run_length(found, start) - 1],
            found[start + run_length(found, start)],
        ),
    decreases found.len() - start,
{
    if start + 1 < found.len() && continues(found[start], found[start + 1]) {
        lemma_run(found, start + 1);
    }
}

/// Where an index search lands.
proof fn lemma_index_starting_at(found: Seq<EntryView>, offset: int, from: int)
    requires
        0 <= from <= found.len(),
    ensures
        match index_starting_at(found, offset, from) {
            Some(i) => from <= i < found.len() && found[i].offset == offset && (forall|k: int|
                from <= k < i ==> (#[trigger] found[k]).offset != offset),
            None => forall|k: int|
                from <= k < found.len() ==> (#[trigger] found[k]).offset != offset,
        },
    decreases found.len() - from,
{
    if from < found.len() && found[from].offset != offset {
        lemma_index_starting_at(found, offset, from + 1);
    }
}

/// The head of a non-empty list of entries has the highest sequence number, and is the
/// first that has it.
pub proof fn head_has_the_highest_sequence(found: Seq<EntryView>, n: int)
    requires
        1 <= n <= found.len(),
    ensures
        0 <= head_index(found, n) < n,
        forall|i: int|
            0 <= i < n ==> (#[trigger] found[i]).sequence_number <= found[head_index(
                found,
                n,
            )].sequence_number,
        forall|i: int|
            0 <= i < head_index(found, n) ==> (#[trigger] found[i]).sequence_number
                < found[head_index(found, n)].sequence_number,
    decreases n,
{
    if n > 1 {
        head_has_the_highest_sequence(found, n - 1);
    }
}

/// The chain is one unbroken run of the entries found: each entry sits immediately
/// after its predecessor and carries exactly the next sequence number.
///
/// It starts at the entry that the head's `tail` names, or at the first entry found
/// when `tail` names none, and it is never empty when anything was found.
pub proof fn chain_is_one_unbroken_run(found: Seq<EntryView>)
    requires
        found.len() > 0,
    ensures
        ({
            let chain = active_chain(found);
            let head = found[head_index(found, found.len() as int)];
            &&& 1 <= chain.len() <= found.len()
            &&& forall|i: int, j: int|
                #![trigger chain[i], chain[j]]
                0 <= i && j == i + 1 && j < chain.len() ==> continues(chain[i], chain[j])
            &&& chain[0] == found[chain_start(found)]
            &&& (exists|i: int| 0 <= i < found.len() && (#[trigger] found[i]).offset == head.tail)
                ==> chain[0].offset == head.tail
            &&& (forall|i: int|
                0 <= i < found.len() ==> (#[trigger] found[i]).offset != head.tail) ==> chain[0]
                == found[0]
        }),
{
    let head = found[head_index(found, found.len() as int)];
    lemma_index_starting_at(found, head.tail, 0);
    let start = chain_start(found);
    lemma_run(found, start);
    let chain = active_chain(found);
    assert forall|i: int, j: int|
        #![trigger chain[i], chain[j]]
        0 <= i && j == i + 1 && j < chain.len() implies continues(chain[i], chain[j]) by {
        assert(continues(found[start + i], found[start + j]));
    }
}

/// Whether the entries of a list lie one behind the other, and none is empty.
spec fn in_order(found: Seq<EntryView>) -> bool {
    &&& forall|i: int| 0 <= i < found.len() ==> (#[trigger] found[i]).entry_length >= 4096
    &&& forall|i: int, j: int|
        0 <= i < j < found.len() ==> (#[trigger] found[i]).offset + found[i].entry_length <= (
        #[trigger] found[j]).offset
}

/// A run of entries that lie in order ends only at a break.
proof fn lemma_run_ends_at_a_break(found: Seq<EntryView>, start: int, i: int)
    requires
        in_order(found),
        0 <= start < found.len(),
        0 <= i < found.len(),
    ensures
        1 <= run_length(found, start) <= found.len() - start,
        !continues(found[start + run_length(found, start) - 1], found[i]),
{
    lemma_run(found, start);
    let last = start + run_length(found, start) - 1;
    if continues(found[last], found[i]) {
        if i < last {
            assert(found[i].offset + found[i].entry_length <= found[last].offset);
        } else if i > last + 1 {
            assert(found[last].offset + found[last].entry_length <= found[last + 1].offset);
            assert(found[last + 1].offset + found[last + 1].entry_length <= found[i].offset);
        }
    }
}

/// The chain ends only at a break: no entry of the log continues its last entry. So
/// whatever follows a torn entry, a gap in the sequence or an entry of another chain is
/// never replayed.
pub proof fn chain_ends_only_at_a_break(log: Seq<u8>, guid: Seq<u8>, i: int)
    requires
        !all_zero(guid),
        0 <= i < entries_from(log, guid, 0).len(),
    ensures
        replay_chain(log, guid).len() > 0,
        !continues(replay_chain(log, guid).last(), entries_from(log, guid, 0)[i]),
{
    let found = entries_from(log, guid, 0);
    let start = chain_start(found);
    assert(in_order(found)) by {
        found_entries_are_sound_and_disjoint(log, guid, 0);
    }
    lemma_index_starting_at(found, found[head_index(found, found.len() as int)].tail, 0);
    lemma_run_ends_at_a_break(found, start, i);
}

/// An entry that is alone in its log is the chain.
pub proof fn lemma_lone_entry(log: Seq<u8>, guid: Seq<u8>, pos: int, entry: EntryView)
    requires
        !all_zero(guid),
        0 <= pos,
        pos % 4096 == 0,
        pos + 4096 <= log.len(),
        slot_meaning(log, pos, guid) == Ok::<EntryView, EntryReject>(entry),
        forall|k: int|
            0 <= k < log.len() && !(pos <= k < pos + entry.entry_length) ==> log[k] == 0,
    ensures
        replay_chain(log, guid) == seq![entry],
{
    lemma_zeros_hold_no_entries(log, guid, 0, pos);
    lemma_zeros_end_the_scan(log, guid, pos + entry.entry_length);
    assert(entries_from(log, guid, pos) =~= seq![entry]);
    lemma_chain_of_one(entry);
}

/// A single entry is its own chain.
proof fn lemma_chain_of_one(entry: EntryView)
    ensures
        active_chain(seq![entry]) == seq![entry],
{
    let found = seq![entry];
    lemma_index_starting_at(found, found[head_index(found, 1)].tail, 0);
    assert(active_chain(found) =~= found);
}

/// Whether the entry that lies at `p` is among those found, or `p` lies inside one of them.
spec fn found_or_inside(found: Seq<EntryView>, p: int, e: EntryView) -> bool {
    exists|i: int|
        0 <= i < found.len() && (#[trigger] found[i] == e || found[i].offset < p < found[i].offset
            + found[i].entry_length)
}

/// What the slot at `pos` means, without its definition at hand.
#[verifier::opaque]
spec fn slot_at(log: Seq<u8>, guid: Seq<u8>, pos: int) -> core::result::Result<
    EntryView,
    EntryReject,
> {
    slot_meaning(log, pos, guid)
}

/// The entries from `pos` on, without their definition at hand.
#[verifier::opaque]
spec fn scan_from(log: Seq<u8>, guid: Seq<u8>, pos: int) -> Seq<EntryView> {
    entries_from(log, guid, pos)
}

/// What an entry in a slot has: the offset of the slot, and a length of whole sectors.
proof fn lemma_entry_in_slot(log: Seq<u8>, guid: Seq<u8>, pos: int)
    requires
        0 <= pos,
    ensures
        match slot_at(log, guid, pos) {
            Ok(e) => {
                &&& e.offset == pos
                &&& e.entry_length >= 4096
                &&& e.entry_length % 4096 == 0
                &&& pos + e.entry_length <= log.len()
            },
            Err(_) => true,
        },
{
    reveal(slot_at);
}

/// The entries from a slot on are the one that it holds, if it does, and those behind it.
proof fn lemma_entries_from(log: Seq<u8>, guid: Seq<u8>, pos: int)
    requires
        0 <= pos,
    ensures
        if pos + 4096 > log.len() {
            scan_from(log, guid, pos).len() == 0
        } else {
            match slot_at(log, guid, pos) {
                Ok(e) => scan_from(log, guid, pos) == seq![e] + scan_from(
                    log,
                    guid,
                    pos + e.entry_length,
                ),
                Err(_) => scan_from(log, guid, pos) == scan_from(log, guid, pos + 4096),
            }
        },
{
    reveal(slot_at);
    reveal(scan_from);
}

/// What is found or inside among the last of some entries is so among all of them.
proof fn lemma_found_behind(first: EntryView, rest: Seq<EntryView>, p: int, e: EntryView)
    requires
        found_or_inside(rest, p, e),
    ensures
        found_or_inside(seq![first] + rest, p, e),
{
    let found = seq![first] + rest;
    let i = choose|i: int|
        0 <= i < rest.len() && (#[trigger] rest[i] == e || rest[i].offset < p < rest[i].offset
            + rest[i].entry_length);
    assert(found[i + 1] == rest[i]);
}

/// The scan misses no entry from `pos` on.
proof fn lemma_scan_misses_nothing(log: Seq<u8>, guid: Seq<u8>, pos: int, p: int, e: EntryView)
    requires
        0 <= pos <= p,
        pos % 4096 == 0,
        p % 4096 == 0,
        slot_at(log, guid, p) == Ok::<EntryView, EntryReject>(e),
    ensures
        found_or_inside(scan_from(log, guid, pos), p, e),
    decreases p - pos,
{
    lemma_entry_in_slot(log, guid, p);
    lemma_entry_in_slot(log, guid, pos);
    lemma_entries_from(log, guid, pos);
    match slot_at(log, guid, pos) {
        Ok(first) => {
            let next = pos + first.entry_length;
            let found = seq![first] + scan_from(log, guid, next);
            assert(found[0] == first);
            if next <= p {
                lemma_scan_misses_nothing(log, guid, next, p, e);
                lemma_found_behind(first, scan_from(log, guid, next), p, e);
            }
        },
        Err(_) => {
            lemma_scan_misses_nothing(log, guid, pos + 4096, p, e);
        },
    }
}

/// Discovery is complete: an entry that lies on any 4 KiB boundary of the log is found, whatever
/// the other slots hold, unless the boundary lies inside another entry that is found.
pub proof fn every_entry_is_found(
    log_bytes: &[u8],
    guid: &[u8; 16],
    found: Vec<LogEntry>,
    p: usize,
    e: LogEntry,
)
    requires
        call_ensures(discover_entries, (log_bytes, guid), found),
        p % 4096 == 0,
        call_ensures(parse_log_entry, (log_bytes, p, guid), Ok::<LogEntry, EntryReject>(e)),
    ensures
        call_requires(discover_entries, (log_bytes, guid)),
        exists|i: int|
            0 <= i < found@.len() && ((#[trigger] found@[i])@ == e@
                || found@[i].log_offset_in_region < p < found@[i].log_offset_in_region
                + found@[i].header.entry_length),
{
    let views = entry_views(found@);
    reveal(slot_at);
    reveal(scan_from);
    lemma_scan_misses_nothing(log_bytes@, guid@, 0, p as int, e@);
    let i = choose|i: int|
        0 <= i < views.len() && (#[trigger] views[i] == e@ || views[i].offset < p < views[i].offset
            + views[i].entry_length);
    assert(found@[i]@ == views[i]);
}

/// Entries lie on 4 KiB boundaries.
proof fn lemma_found_on_boundaries(log: Seq<u8>, guid: Seq<u8>, pos: int)
    requires
        0 <= pos,
        pos % 4096 == 0,
    ensures
        forall|i: int|
            0 <= i < scan_from(log, guid, pos).len() ==> (#[trigger] scan_from(
                log,
                guid,
                pos,
            )[i]).offset % 4096 == 0,
    decreases log.len() - pos,
{
    let found = scan_from(log, guid, pos);
    lemma_entry_in_slot(log, guid, pos);
    lemma_entries_from(log, guid, pos);
    if pos + 4096 <= log.len() {
        match slot_at(log, guid, pos) {
            Ok(entry) => {
                let rest = scan_from(log, guid, pos + entry.entry_length);
                lemma_found_on_boundaries(log, guid, pos + entry.entry_length);
                assert forall|i: int| 0 <= i < found.len() implies (#[trigger] found[i]).offset
                    % 4096 == 0 by {
                    if i > 0 {
                        assert(found[i] == rest[i - 1]);
                    }
                }
            },
            Err(_) => {
                lemma_found_on_boundaries(log, guid, pos + 4096);
            },
        }
    }
}

/// Discovery makes nothing up: each entry found is what its slot parses to, on a 4 KiB boundary;
/// the entries come in order of offset, none before the end of the one before it.
pub proof fn nothing_else_is_found(
    log_bytes: &[u8],
    guid: &[u8; 16],
    found: Vec<LogEntry>,
    i: int,
    p: usize,
    r: ParseOutcome,
)
    requires
        call_ensures(discover_entries, (log_bytes, guid), found),
        0 <= i < found@.len(),
        p == found@[i].log_offset_in_region,
        call_ensures(parse_log_entry, (log_bytes, p, guid), r),
    ensures
        r matches Ok(e) && e@ == found@[i]@,
        p % 4096 == 0,
        found@[i].counted(),
        i + 1 < found@.len() ==> found@[i].log_offset_in_region + found@[i].header.entry_length
            <= found@[i + 1].log_offset_in_region,
{
    let views = entry_views(found@);
    found_entries_are_sound_and_disjoint(log_bytes@, guid@, 0);
    reveal(scan_from);
    lemma_found_on_boundaries(log_bytes@, guid@, 0);
    assert(scan_from(log_bytes@, guid@, 0)[i] == found@[i]@);
    assert(views[i] == found@[i]@);
    if i + 1 < found@.len() {
        assert(views[i + 1] == found@[i + 1]@);
    }
}

/// An entry is looked up by where it starts; of several, the first is found.
pub proof fn an_entry_is_looked_up_by_its_offset(
    found: &[LogEntry],
    offset: u64,
    r: Option<usize>,
)
    requires
        call_ensures(entry_starting_at, (found, offset), r),
    ensures
        call_requires(entry_starting_at, (found, offset)),
        match r {
            Some(i) => {
                &&& i < found@.len()
                &&& found@[i as int].log_offset_in_region == offset
                &&& forall|k: int|
                    0 <= k < i ==> (#[trigger] found@[k]).log_offset_in_region != offset
            },
            None => forall|k: int|
                0 <= k < found@.len() ==> (#[trigger] found@[k]).log_offset_in_region != offset,
        },
{
    let views = entry_views(found@);
    lemma_index_starting_at(views, offset as int, 0);
    assert forall|k: int| 0 <= k < found@.len() implies views[k].offset == (
    #[trigger] found@[k]).log_offset_in_region by {}
}

/// There is one head: the first entry with the highest sequence number.
proof fn lemma_one_head(found: Seq<EntryView>, head: int)
    requires
        0 <= head < found.len(),
        forall|i: int|
            0 <= i < found.len() ==> (#[trigger] found[i]).sequence_number
                <= found[head].sequence_number,
        forall|i: int|
            0 <= i < head ==> (#[trigger] found[i]).sequence_number < found[head].sequence_number,
    ensures
        head_index(found, found.len() as int) == head,
{
    head_has_the_highest_sequence(found, found.len() as int);
    let h = head_index(found, found.len() as int);
    assert(found[h].sequence_number <= found[head].sequence_number);
    assert(found[head].sequence_number <= found[h].sequence_number);
}

/// Which entries are replayed: those from the start of the chain up to the first break. `head` is
/// the entry with the highest sequence number, the first of several. `start` is the first entry
/// that lies where the head's tail says, or entry 0 when none lies there.
pub proof fn the_chain_runs_from_the_tail_to_the_first_break(
    found: Vec<LogEntry>,
    chain: Vec<LogEntry>,
    head: int,
    start: int,
)
    requires
        call_ensures(select_chain, (found,), chain),
        0 <= head < found@.len(),
        forall|i: int|
            0 <= i < found@.len() ==> (#[trigger] found@[i]).header.sequence_number
                <= found@[head].header.sequence_number,
        forall|i: int|
            0 <= i < head ==> (#[trigger] found@[i]).header.sequence_number
                < found@[head].header.sequence_number,
        0 <= start < found@.len(),
        forall|i: int|
            0 <= i < start ==> (#[trigger] found@[i]).log_offset_in_region
                != found@[head].header.tail,
        found@[start].log_offset_in_region == found@[head].header.tail || (start == 0 && forall|
            i: int,
        |
            0 <= i < found@.len() ==> (#[trigger] found@[i]).log_offset_in_region
                != found@[head].header.tail),
    ensures
        1 <= chain@.len() <= found@.len() - start,
        forall|i: int| 0 <= i < chain@.len() ==> (#[trigger] chain@[i])@ == found@[start + i]@,
        forall|i: int, j: int|
            #![trigger chain@[i], chain@[j]]
            0 <= i && j == i + 1 && j < chain@.len() ==> {
                &&& chain@[j].log_offset_in_region == chain@[i].log_offset_in_region
                    + chain@[i].header.entry_length
                &&& chain@[j].header.sequence_number == chain@[i].header.sequence_number + 1
            },
        start + chain@.len() < found@.len() ==> {
            let last = found@[start + chain@.len() - 1];
            let next = found@[start + chain@.len() as int];
            ||| next.log_offset_in_region != last.log_offset_in_region + last.header.entry_length
            ||| next.header.sequence_number != last.header.sequence_number + 1
        },
{
    let views = entry_views(found@);
    let picked = entry_views(chain@);
    assert forall|i: int| 0 <= i < found@.len() implies views[i] == (#[trigger] found@[i])@ by {}
    assert forall|i: int| 0 <= i < chain@.len() implies picked[i] == (#[trigger] chain@[i])@ by {}
    lemma_one_head(views, head);
    lemma_index_starting_at(views, views[head].tail, 0);
    assert(chain_start(views) == start);
    lemma_run(views, start);
    let n = run_length(views, start);
    assert(picked == views.subrange(start, start + n));
    assert(picked.len() == chain@.len());
    assert forall|i: int, j: int|
        #![trigger chain@[i], chain@[j]]
        0 <= i && j == i + 1 && j < chain@.len() implies {
        &&& chain@[j].log_offset_in_region == chain@[i].log_offset_in_region
            + chain@[i].header.entry_length
        &&& chain@[j].header.sequence_number == chain@[i].header.sequence_number + 1
    } by {
        assert(continues(views[start + i], views[start + j]));
        assert(picked[i] == views[start + i]);
        assert(picked[j] == views[start + j]);
    }
    if start + n < found@.len() {
        assert(!continues(views[start + n - 1], views[start + n]));
    }
}

/// Nothing is replayed where nothing was found, and some entry is where one was.
pub proof fn a_chain_is_empty_only_without_entries(found: Vec<LogEntry>, chain: Vec<LogEntry>)
    requires
        call_ensures(select_chain, (found,), chain),
    ensures
        call_requires(select_chain, (found,)),
        chain@.len() == 0 <==> found@.len() == 0,
        all_counted(found@) ==> all_counted(chain@),
{
    let views = entry_views(found@);
    if found@.len() > 0 {
        chain_is_one_unbroken_run(views);
    }
    assert(entry_views(chain@).len() == chain@.len());
}

/// A GUID of zeros says that the log is empty, whatever it holds. Under any other GUID the chain
/// is the one that selection keeps of the entries that discovery finds.
pub proof fn only_a_zero_guid_empties_the_log(
    log_bytes: &[u8],
    guid: &[u8; 16],
    chain: Vec<LogEntry>,
    found: Vec<LogEntry>,
    picked: Vec<LogEntry>,
)
    requires
        call_ensures(collect_replay_chain, (log_bytes, guid), chain),
        call_ensures(discover_entries, (log_bytes, guid), found),
        call_ensures(select_chain, (found,), picked),
    ensures
        call_requires(collect_replay_chain, (log_bytes, guid)),
        all_counted(chain@),
        (forall|k: int| 0 <= k < 16 ==> guid@[k] == 0) ==> chain@.len() == 0,
        (exists|k: int| 0 <= k < 16 && guid@[k] != 0) ==> {
            &&& chain@.len() == picked@.len()
            &&& forall|i: int| 0 <= i < chain@.len() ==> (#[trigger] chain@[i])@ == picked@[i]@
        },
{
    let views = entry_views(chain@);
    let kept = entry_views(picked@);
    assert(views.len() == chain@.len());
    assert(kept.len() == picked@.len());
    if exists|k: int| 0 <= k < 16 && guid@[k] != 0 {
        assert(!all_zero(guid@));
        assert(views == kept);
        assert forall|i: int| 0 <= i < chain@.len() implies (#[trigger] chain@[i])@
            == picked@[i]@ by {
            assert(views[i] == chain@[i]@);
            assert(kept[i] == picked@[i]@);
        }
    } else {
        assert(all_zero(guid@));
    }
}

} // verus!

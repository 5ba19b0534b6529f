use vstd::prelude::*;
use vstd::bytes::*;

verus! {

/// One fixed-width entry of a segment's offset index. The absolute offset of
/// the record it points at is `segment.start_offset + relative_offset`;
/// `position` is the byte offset of the record in the log file.
#[derive(Clone, Copy, Debug, PartialEq, Eq, Structural)]
pub struct OffsetIndexEntry {
    pub relative_offset: u32,
    pub position: u32,
}

/// One fixed-width entry of a segment's time index, written in append order,
/// so `timestamp` is non-decreasing along the index.
#[derive(Clone, Copy, Debug, PartialEq, Eq, Structural)]
pub struct TimeIndexEntry {
    pub relative_offset: u32,
    pub timestamp: u64,
}

/// On-disk image of an offset-index entry: `relative_offset:u32 | position:u32`,
/// little-endian, 8 bytes.
pub open spec fn spec_encode_offset_entry(e: OffsetIndexEntry) -> Seq<u8> {
    spec_u32_to_le_bytes(e.relative_offset) + spec_u32_to_le_bytes(e.position)
}

/// On-disk image of a time-index entry: `relative_offset:u32 | timestamp:u64`,
/// little-endian, 12 bytes.
pub open spec fn spec_encode_time_entry(e: TimeIndexEntry) -> Seq<u8> {
    spec_u32_to_le_bytes(e.relative_offset) + spec_u64_to_le_bytes(e.timestamp)
}

pub open spec fn spec_encode_offset_index(es: Seq<OffsetIndexEntry>) -> Seq<u8>
    decreases es.len(),
{
    if es.len() == 0 {
        Seq::<u8>::empty()
    } else {
        spec_encode_offset_index(es.drop_last()) + spec_encode_offset_entry(es.last())
    }
}

pub open spec fn spec_encode_time_index(es: Seq<TimeIndexEntry>) -> Seq<u8>
    decreases es.len(),
{
    if es.len() == 0 {
        Seq::<u8>::empty()
    } else {
        spec_encode_time_index(es.drop_last()) + spec_encode_time_entry(es.last())
    }
}

pub proof fn lemma_offset_index_len(es: Seq<OffsetIndexEntry>)
    ensures
        spec_encode_offset_index(es).len() == 8 * es.len(),
    decreases es.len(),
{
    lemma_auto_spec_u32_to_from_le_bytes();
    if es.len() > 0 {
        lemma_offset_index_len(es.drop_last());
    }
}

pub proof fn lemma_time_index_len(es: Seq<TimeIndexEntry>)
    ensures
        spec_encode_time_index(es).len() == 12 * es.len(),
    decreases es.len(),
{
    lemma_auto_spec_u32_to_from_le_bytes();
    lemma_auto_spec_u64_to_from_le_bytes();
    if es.len() > 0 {
        lemma_time_index_len(es.drop_last());
    }
}

pub proof fn lemma_offset_index_push(es: Seq<OffsetIndexEntry>, e: OffsetIndexEntry)
    ensures
        spec_encode_offset_index(es.push(e)) == spec_encode_offset_index(es)
            + spec_encode_offset_entry(e),
{
    assert(es.push(e).drop_last() =~= es);
    assert(es.push(e).last() == e);
}

pub proof fn lemma_time_index_push(es: Seq<TimeIndexEntry>, e: TimeIndexEntry)
    ensures
        spec_encode_time_index(es.push(e)) == spec_encode_time_index(es)
            + spec_encode_time_entry(e),
{
    assert(es.push(e).drop_last() =~= es);
    assert(es.push(e).last() == e);
}

/// Appends the on-disk image of one offset-index entry to `out`.
pub fn encode_offset_entry_into(e: &OffsetIndexEntry, out: &mut Vec<u8>)
    requires
        old(out)@.len() + 8 <= usize::MAX,
    ensures
        final(out)@ == old(out)@ + spec_encode_offset_entry(*e),
{
    proof {
        lemma_auto_spec_u32_to_from_le_bytes();
    }
    let mut rel = u32_to_le_bytes(e.relative_offset);
    let mut pos = u32_to_le_bytes(e.position);
    out.append(&mut rel);
    out.append(&mut pos);
    proof {
        assert(out@ =~= old(out)@ + spec_encode_offset_entry(*e));
    }
}

/// Appends the on-disk image of one time-index entry to `out`.
pub fn encode_time_entry_into(e: &TimeIndexEntry, out: &mut Vec<u8>)
    requires
        old(out)@.len() + 12 <= usize::MAX,
    ensures
        final(out)@ == old(out)@ + spec_encode_time_entry(*e),
{
    proof {
        lemma_auto_spec_u32_to_from_le_bytes();
        lemma_auto_spec_u64_to_from_le_bytes();
    }
    let mut rel = u32_to_le_bytes(e.relative_offset);
    let mut ts = u64_to_le_bytes(e.timestamp);
    out.append(&mut rel);
    out.append(&mut ts);
    proof {
        assert(out@ =~= old(out)@ + spec_encode_time_entry(*e));
    }
}

} // verus!

use vstd::prelude::*;
use vstd::bytes::*;
use vstd::slice::{slice_subrange, slice_to_vec};
use vstd::assert_seqs_equal;

verus! {

/// An immutable record of the log. The offset and the timestamp are assigned
/// by the partition on append; the id is supplied by the producer.
pub struct Message {
    pub offset: u64,
    pub timestamp: u64,
    pub id: u128,
    pub payload: Vec<u8>,
}

/// The mathematical value of a `Message`: the same fields with the payload as
/// a sequence of bytes.
pub struct MessageView {
    pub offset: u64,
    pub timestamp: u64,
    pub id: u128,
    pub payload: Seq<u8>,
}

impl View for Message {
    type V = MessageView;

    open spec fn view(&self) -> MessageView {
        MessageView {
            offset: self.offset,
            timestamp: self.timestamp,
            id: self.id,
            payload: self.payload@,
        }
    }
}

impl Message {
    pub fn new(id: u128, payload: Vec<u8>) -> (m: Message)
        ensures
            m@ == (MessageView { offset: 0, timestamp: 0, id, payload: payload@ }),
    {
        Message { offset: 0, timestamp: 0, id, payload }
    }
}

impl Clone for Message {
    fn clone(&self) -> (r: Self)
        ensures
            r@ == self@,
    {
        Message {
            offset: self.offset,
            timestamp: self.timestamp,
            id: self.id,
            payload: slice_to_vec(self.payload.as_slice()),
        }
    }
}

/// The views of a sequence of messages, in the same order.
pub open spec fn msg_views(s: Seq<Message>) -> Seq<MessageView> {
    s.map_values(|m: Message| m@)
}

/// A message can be laid down on disk only if its payload length fits the
/// 32-bit length prefix of the record format.
pub open spec fn msg_wf(m: MessageView) -> bool {
    m.payload.len() <= 0xFFFF_FFFF
}

/// Bytes taken by a record on disk: a fixed 36-byte header
/// (offset, timestamp, id, payload length) plus the payload.
pub open spec fn spec_encoded_len(m: MessageView) -> int {
    36 + m.payload.len() as int
}

/// The on-disk log record: `offset:u64 | timestamp:u64 | id:u128 |
/// payload_len:u32 | payload`, all integers little-endian.
pub open spec fn spec_encode(m: MessageView) -> Seq<u8> {
    spec_u64_to_le_bytes(m.offset) + spec_u64_to_le_bytes(m.timestamp)
        + spec_u128_to_le_bytes(m.id) + spec_u32_to_le_bytes(m.payload.len() as u32) + m.payload
}

pub proof fn lemma_encode_len(m: MessageView)
    ensures
        spec_encode(m).len() == spec_encoded_len(m),
{
    lemma_auto_spec_u64_to_from_le_bytes();
    lemma_auto_spec_u128_to_from_le_bytes();
    lemma_auto_spec_u32_to_from_le_bytes();
}

/// The log-file image of a sequence of records, in order.
pub open spec fn spec_encode_seq(ms: Seq<MessageView>) -> Seq<u8>
    decreases ms.len(),
{
    if ms.len() == 0 {
        Seq::<u8>::empty()
    } else {
        spec_encode_seq(ms.drop_last()) + spec_encode(ms.last())
    }
}

pub proof fn lemma_encode_seq_push(ms: Seq<MessageView>, m: MessageView)
    ensures
        spec_encode_seq(ms.push(m)) == spec_encode_seq(ms) + spec_encode(m),
{
    assert(ms.push(m).drop_last() =~= ms);
    assert(ms.push(m).last() == m);
}

pub proof fn lemma_encode_seq_len(ms: Seq<MessageView>)
    ensures
        spec_encode_seq(ms).len() >= 36 * ms.len(),
    decreases ms.len(),
{
    if ms.len() > 0 {
        lemma_encode_seq_len(ms.drop_last());
        lemma_encode_len(ms.last());
    }
}

/// A record sequence encodes as the encoding of its head followed by the
/// encoding of its tail.
pub proof fn lemma_encode_seq_first(ms: Seq<MessageView>)
    requires
        ms.len() > 0,
    ensures
        spec_encode_seq(ms) == spec_encode(ms[0]) + spec_encode_seq(ms.drop_first()),
    decreases ms.len(),
{
    if ms.len() == 1 {
        assert(ms.drop_last() =~= Seq::<MessageView>::empty());
        assert(ms.drop_first() =~= Seq::<MessageView>::empty());
        assert(spec_encode_seq(ms) == spec_encode_seq(ms.drop_last()) + spec_encode(ms.last()));
        assert_seqs_equal!(spec_encode_seq(ms) == spec_encode(ms[0]) + spec_encode_seq(ms.drop_first()));
    } else {
        let dl = ms.drop_last();
        lemma_encode_seq_first(dl);
        assert(dl.drop_first() =~= ms.drop_first().drop_last());
        assert(ms.drop_first().last() == ms.last());
        assert(spec_encode_seq(ms.drop_first()) == spec_encode_seq(ms.drop_first().drop_last())
            + spec_encode(ms.last()));
        assert_seqs_equal!(spec_encode_seq(ms) == spec_encode(ms[0]) + spec_encode_seq(ms.drop_first()));
    }
}

/// The file image splits at any record boundary.
pub proof fn lemma_encode_seq_split(ms: Seq<MessageView>, i: int)
    requires
        0 <= i <= ms.len(),
    ensures
        spec_encode_seq(ms) == spec_encode_seq(ms.take(i)) + spec_encode_seq(ms.skip(i)),
    decreases i,
{
    if i == 0 {
        assert(ms.take(0) =~= Seq::<MessageView>::empty());
        assert(ms.skip(0) =~= ms);
        assert_seqs_equal!(spec_encode_seq(ms) == spec_encode_seq(ms.take(0)) + spec_encode_seq(ms.skip(0)));
    } else {
        lemma_encode_seq_split(ms, i - 1);
        let s1 = ms.skip(i - 1);
        lemma_encode_seq_first(s1);
        assert(s1[0] == ms[i - 1]);
        assert(s1.drop_first() =~= ms.skip(i));
        assert(ms.take(i).drop_last() =~= ms.take(i - 1));
        assert(ms.take(i).last() == ms[i - 1]);
        assert(spec_encode_seq(ms.take(i)) == spec_encode_seq(ms.take(i - 1)) + spec_encode(
            ms[i - 1],
        ));
        assert_seqs_equal!(spec_encode_seq(ms) == spec_encode_seq(ms.take(i)) + spec_encode_seq(ms.skip(i)));
    }
}

/// In the file image of `ms`, record `i` occupies exactly the bytes from the
/// end of the first `i` records to the end of the first `i + 1` records.
pub proof fn lemma_encode_seq_record_bytes(ms: Seq<MessageView>, i: int)
    requires
        0 <= i < ms.len(),
    ensures
        spec_encode_seq(ms.take(i + 1)).len() == spec_encode_seq(ms.take(i)).len()
            + spec_encoded_len(ms[i]),
        spec_encode_seq(ms.take(i)).len() + spec_encoded_len(ms[i]) <= spec_encode_seq(ms).len(),
        spec_encode_seq(ms).subrange(
            spec_encode_seq(ms.take(i)).len() as int,
            spec_encode_seq(ms.take(i)).len() + spec_encoded_len(ms[i]),
        ) == spec_encode(ms[i]),
{
    lemma_encode_len(ms[i]);
    lemma_encode_seq_split(ms, i);
    let s1 = ms.skip(i);
    lemma_encode_seq_first(s1);
    assert(s1[0] == ms[i]);
    assert(s1.drop_first() =~= ms.skip(i + 1));
    assert(ms.take(i + 1).drop_last() =~= ms.take(i));
    assert(ms.take(i + 1).last() == ms[i]);
    let pre = spec_encode_seq(ms.take(i));
    let rec = spec_encode(ms[i]);
    let post = spec_encode_seq(ms.skip(i + 1));
    assert(spec_encode_seq(ms) == pre + (rec + post));
    assert_seqs_equal!(spec_encode_seq(ms).subrange(pre.len() as int, pre.len() + rec.len() as int) == rec);
}

/// Reads the record laid down at byte position `pos` of a well-formed log
/// image, returning the message and the position just past it.
pub fn read_message_at(
    log: &Vec<u8>,
    pos: usize,
    Ghost(ms): Ghost<Seq<MessageView>>,
    Ghost(i): Ghost<int>,
) -> (r: (Message, usize))
    requires
        log@ == spec_encode_seq(ms),
        0 <= i < ms.len(),
        msg_wf(ms[i]),
        pos == spec_encode_seq(ms.take(i)).len(),
    ensures
        r.0@ == ms[i],
        r.1 == spec_encode_seq(ms.take(i + 1)).len(),
{
    proof {
        lemma_encode_seq_record_bytes(ms, i);
        lemma_encode_len(ms[i]);
        lemma_auto_spec_u64_to_from_le_bytes();
        lemma_auto_spec_u128_to_from_le_bytes();
        lemma_auto_spec_u32_to_from_le_bytes();
    }
    let ghost m = ms[i];
    let ghost rec = spec_encode(m);
    let ghost plen = m.payload.len() as int;
    let total = log.len();
    proof {
        assert(total == log@.len());
        assert(pos + 36 + plen <= total);
    }
    proof {
        assert_seqs_equal!(rec.subrange(0, 8) == spec_u64_to_le_bytes(m.offset));
        assert_seqs_equal!(rec.subrange(8, 16) == spec_u64_to_le_bytes(m.timestamp));
        assert_seqs_equal!(rec.subrange(16, 32) == spec_u128_to_le_bytes(m.id));
        assert_seqs_equal!(rec.subrange(32, 36) == spec_u32_to_le_bytes(m.payload.len() as u32));
        assert_seqs_equal!(rec.subrange(36, 36 + plen) == m.payload);
        assert(log@.subrange(pos as int, pos + 36 + plen) == rec);
    }
    let offset = u64_from_le_bytes(slice_subrange(log.as_slice(), pos, pos + 8));
    let timestamp = u64_from_le_bytes(slice_subrange(log.as_slice(), pos + 8, pos + 16));
    let id = u128_from_le_bytes(slice_subrange(log.as_slice(), pos + 16, pos + 32));
    let len32 = u32_from_le_bytes(slice_subrange(log.as_slice(), pos + 32, pos + 36));
    proof {
        assert(log@.subrange(pos as int, pos + 8) =~= rec.subrange(0, 8));
        assert(log@.subrange(pos + 8, pos + 16) =~= rec.subrange(8, 16));
        assert(log@.subrange(pos + 16, pos + 32) =~= rec.subrange(16, 32));
        assert(log@.subrange(pos + 32, pos + 36) =~= rec.subrange(32, 36));
        assert(offset == m.offset);
        assert(timestamp == m.timestamp);
        assert(id == m.id);
        assert(len32 == m.payload.len() as u32);
    }
    let len = len32 as usize;
    let payload = slice_to_vec(slice_subrange(log.as_slice(), pos + 36, pos + 36 + len));
    proof {
        assert(log@.subrange(pos + 36, pos + 36 + plen) =~= rec.subrange(36, 36 + plen));
        assert(payload@ == m.payload);
    }
    (Message { offset, timestamp, id, payload }, pos + 36 + len)
}

/// Appends the encoding of `m` to `out`, returning the number of bytes added.
pub fn encode_message_into(m: &Message, out: &mut Vec<u8>) -> (n: usize)
    requires
        msg_wf(m@),
        old(out)@.len() + spec_encoded_len(m@) <= usize::MAX,
    ensures
        final(out)@ == old(out)@ + spec_encode(m@),
        n == spec_encoded_len(m@),
{
    proof {
        lemma_auto_spec_u64_to_from_le_bytes();
        lemma_auto_spec_u128_to_from_le_bytes();
        lemma_auto_spec_u32_to_from_le_bytes();
    }
    let mut off_bytes = u64_to_le_bytes(m.offset);
    let mut ts_bytes = u64_to_le_bytes(m.timestamp);
    let mut id_bytes = u128_to_le_bytes(m.id);
    let mut len_bytes = u32_to_le_bytes(m.payload.len() as u32);
    out.append(&mut off_bytes);
    out.append(&mut ts_bytes);
    out.append(&mut id_bytes);
    out.append(&mut len_bytes);
    let ghost header = out@;
    let mut k: usize = 0;
    while k < m.payload.len()
        invariant
            k <= m.payload.len(),
            out@ == header + m.payload@.take(k as int),
            header.len() + m.payload@.len() <= usize::MAX,
        decreases m.payload.len() - k,
    {
        out.push(m.payload[k]);
        proof {
            assert(out@ =~= header + m.payload@.take(k + 1));
        }
        k = k + 1;
    }
    proof {
        assert(m.payload@.take(m.payload@.len() as int) =~= m.payload@);
        assert_seqs_equal!(out@ == old(out)@ + spec_encode(m@));
    }
    36 + m.payload.len()
}

} // verus!

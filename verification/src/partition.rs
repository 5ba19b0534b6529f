use vstd::prelude::*;
use std::collections::HashMap;
use ringbuffer::AllocRingBuffer;
use crate::cache::{ring_capacity, ring_contents, ring_front, ring_is_empty, ring_new, ring_push,
    ring_to_vec};
use crate::error::Error;
use crate::index::TimeIndexEntry;
use crate::message::{msg_views, msg_wf, spec_encoded_len, Message, MessageView};
use crate::segment::Segment;

verus! {

broadcast use vstd::std_specs::hash::group_hash_axioms;

/// Storage options of one partition.
#[derive(Clone, Copy, Debug)]
pub struct PartitionConfig {
    /// A segment that has reached this size is closed and a fresh one started.
    pub segment_size_bytes: u64,
    /// Buffered messages are persisted once this many have accumulated.
    pub messages_required_to_save: u32,
    /// Capacity of the hot ring cache, in messages.
    pub cache_size_messages: usize,
}

/// A per-consumer checkpoint in one partition.
#[derive(Clone, Copy, Debug, PartialEq, Eq, Structural)]
pub struct ConsumerOffset {
    pub offset: u64,
    pub timestamp: u64,
}

/// The messages of a run of segments, in segment order.
pub open spec fn segs_msgs(ss: Seq<Segment>) -> Seq<MessageView>
    decreases ss.len(),
{
    if ss.len() == 0 {
        Seq::<MessageView>::empty()
    } else {
        segs_msgs(ss.drop_last()) + ss.last().msgs()
    }
}

/// The persisted messages of a run of segments, in segment order.
pub open spec fn segs_persisted(ss: Seq<Segment>) -> Seq<MessageView>
    decreases ss.len(),
{
    if ss.len() == 0 {
        Seq::<MessageView>::empty()
    } else {
        segs_persisted(ss.drop_last()) + ss.last().persisted@
    }
}

pub proof fn lemma_segs_msgs_push(ss: Seq<Segment>, s: Segment)
    ensures
        segs_msgs(ss.push(s)) == segs_msgs(ss) + s.msgs(),
        segs_persisted(ss.push(s)) == segs_persisted(ss) + s.persisted@,
{
    assert(ss.push(s).drop_last() =~= ss);
    assert(ss.push(s).last() == s);
}

/// An append-only log unit: ordered segments (the last one active), the hot
/// ring cache holding a suffix of the log, per-consumer checkpoints, and the
/// durability counter.
pub struct Partition {
    pub id: u32,
    pub segments: Vec<Segment>,
    pub current_offset: u64,
    pub should_increment_offset: bool,
    pub messages: AllocRingBuffer<Message>,
    pub consumer_offsets: HashMap<u32, ConsumerOffset>,
    pub unsaved_messages_count: u32,
    pub config: PartitionConfig,
}

impl Partition {
    /// Every message of the partition, in offset order.
    pub open spec fn msgs(self) -> Seq<MessageView> {
        segs_msgs(self.segments@)
    }

    pub open spec fn msg_count(self) -> int {
        self.msgs().len() as int
    }

    /// The offset the next appended message will receive.
    pub open spec fn next_offset(self) -> int {
        if self.should_increment_offset {
            self.current_offset + 1
        } else {
            0
        }
    }

    /// The active segment: the last one, the only one accepting appends.
    pub open spec fn active(self) -> Segment {
        self.segments@.last()
    }

    pub open spec fn wf(self) -> bool {
        let n = self.segments@.len() as int;
        &&& n >= 1
        &&& (forall|i: int| 0 <= i < n ==> (#[trigger] self.segments@[i]).wf())
        &&& (forall|i: int|
            0 <= i < n ==> (#[trigger] self.segments@[i]).start_offset == segs_msgs(
                self.segments@.take(i),
            ).len())
        &&& (forall|i: int|
            0 <= i < n ==> (#[trigger] self.segments@[i]).max_size_bytes
                == self.config.segment_size_bytes)
        &&& (forall|i: int|
            0 <= i < n ==> (#[trigger] self.segments@[i]).partition_id == self.id)
        &&& (forall|i: int| 0 <= i < n - 1 ==> (#[trigger] self.segments@[i]).is_closed)
        &&& (forall|i: int|
            0 <= i < n && (#[trigger] self.segments@[i]).is_closed ==> self.segments@[i].msg_count()
                > 0)
        &&& self.config.segment_size_bytes > 0
        &&& self.next_offset() == self.msg_count()
        &&& (!self.should_increment_offset ==> self.current_offset == 0)
        &&& self.config.cache_size_messages > 0
        &&& ring_capacity(self.messages) == self.config.cache_size_messages
        &&& ring_contents(self.messages).len() <= ring_capacity(self.messages)
        &&& ring_contents(self.messages).len() <= self.msgs().len()
        &&& ring_contents(self.messages) == self.msgs().skip(
            self.msgs().len() - ring_contents(self.messages).len(),
        )
        &&& (forall|c: u32|
            self.consumer_offsets@.contains_key(c)
                ==> (#[trigger] self.consumer_offsets@[c]).offset <= self.current_offset)
        &&& self.unsaved_messages_count == self.active().unsaved_messages@.len()
        &&& (forall|i: int, j: int|
            0 <= i <= j < self.msgs().len() ==> (#[trigger] self.msgs()[i]).timestamp
                <= (#[trigger] self.msgs()[j]).timestamp)
    }

    /// Creates a partition with one empty segment starting at offset zero.
    pub fn create(id: u32, config: PartitionConfig) -> (p: Partition)
        requires
            config.cache_size_messages > 0,
            config.segment_size_bytes > 0,
        ensures
            p.wf(),
            p.id == id,
            p.config == config,
            p.msgs() == Seq::<MessageView>::empty(),
            p.current_offset == 0,
            !p.should_increment_offset,
            p.consumer_offsets@ == Map::<u32, ConsumerOffset>::empty(),
            p.segments@.len() == 1,
    {
        let seg = Segment::create(id, 0, config.segment_size_bytes);
        let mut segments: Vec<Segment> = Vec::new();
        segments.push(seg);
        let p = Partition {
            id,
            segments,
            current_offset: 0,
            should_increment_offset: false,
            messages: ring_new(config.cache_size_messages),
            consumer_offsets: HashMap::new(),
            unsaved_messages_count: 0,
            config,
        };
        proof {
            assert(p.segments@.drop_last() =~= Seq::<Segment>::empty());
            assert(segs_msgs(p.segments@.drop_last()) == Seq::<MessageView>::empty());
            assert(p.segments@.last() == seg);
            assert(p.msgs() == segs_msgs(p.segments@.drop_last()) + seg.msgs());
            assert(p.msgs() =~= Seq::<MessageView>::empty());
            assert(p.segments@.take(0) =~= Seq::<Segment>::empty());
            assert(ring_contents(p.messages) =~= p.msgs().skip(0));
        }
        p
    }

    /// Dense offsets: message `k` of the partition carries offset `k`
    /// (the assigned offsets of `N` messages are exactly `0 .. N-1`).
    pub proof fn lemma_offsets_dense(self)
        requires
            self.wf(),
        ensures
            forall|k: int|
                0 <= k < self.msgs().len() ==> (#[trigger] self.msgs()[k]).offset == k,
    {
        lemma_run_offsets_dense(self.segments@);
    }

    /// Consecutive segments cover contiguous offset ranges:
    /// the closed segment `i` ends exactly one offset below where
    /// segment `i + 1` starts.
    pub proof fn lemma_segments_contiguous(self, i: int)
        requires
            self.wf(),
            0 <= i < self.segments@.len() - 1,
        ensures
            self.segments@[i + 1].start_offset == self.segments@[i].end_offset + 1,
    {
        let ss = self.segments@;
        lemma_segs_msgs_take_succ(ss, i);
        assert(ss[i].is_closed);
        assert(ss[i].end_offset == ss[i].current_offset);
    }

    /// The absolute offset one past the log's end, as the active segment
    /// sees it.
    pub open spec fn active_end(self) -> int {
        self.active().current_offset as int
    }

    /// Relates the active segment's `current_offset` to the partition's
    /// message count.
    pub proof fn lemma_active_current(self)
        requires
            self.wf(),
        ensures
            self.active().msg_count() > 0 ==> self.active().current_offset == self.msg_count()
                - 1,
            self.active().msg_count() == 0 ==> self.active().current_offset == self.msg_count(),
            self.active().start_offset + self.active().msg_count() == self.msg_count(),
    {
        let ss = self.segments@;
        let n = ss.len() as int;
        lemma_segs_msgs_take_succ(ss, n - 1);
        assert(ss.take(n) =~= ss);
    }

    /// The greatest offset a read starting at `offset` for `count` messages
    /// may reach: `offset + count - 1`, capped at the active segment's
    /// current offset.
    pub fn get_end_offset(&self, offset: u64, count: u32) -> (end: u64)
        requires
            self.wf(),
            count >= 1,
        ensures
            end == if offset + count - 1 <= self.active().current_offset {
                offset + count - 1
            } else {
                self.active().current_offset as int
            },
    {
        let segment = &self.segments[self.segments.len() - 1];
        let max_offset = segment.current_offset;
        if offset >= max_offset {
            return max_offset;
        }
        let room = max_offset - offset;
        if count as u64 - 1 >= room {
            max_offset
        } else {
            offset + (count as u64 - 1)
        }
    }

    /// Records `offset` as consumer `consumer_id`'s checkpoint, stamped with
    /// `now_ms`; offsets beyond the head of the log are rejected.
    pub fn store_consumer_offset(&mut self, consumer_id: u32, offset: u64, now_ms: u64) -> (r:
        Result<(), Error>)
        requires
            old(self).wf(),
        ensures
            final(self).wf(),
            r.is_ok() <==> offset <= old(self).current_offset,
            offset <= old(self).current_offset ==> final(self).consumer_offsets@ == old(
                self,
            ).consumer_offsets@.insert(
                consumer_id,
                ConsumerOffset { offset, timestamp: now_ms },
            ),
            offset > old(self).current_offset ==> r == Result::<(), Error>::Err(
                Error::InvalidOffset,
            ) && *final(self) == *old(self),
            final(self).segments == old(self).segments,
            final(self).messages == old(self).messages,
            final(self).current_offset == old(self).current_offset,
            final(self).should_increment_offset == old(self).should_increment_offset,
            final(self).unsaved_messages_count == old(self).unsaved_messages_count,
            final(self).config == old(self).config,
            final(self).id == old(self).id,
    {
        if offset > self.current_offset {
            return Err(Error::InvalidOffset);
        }
        self.consumer_offsets.insert(consumer_id, ConsumerOffset { offset, timestamp: now_ms });
        Ok(())
    }

    /// What a read by offset returns: the window of up to `count` messages
    /// of the log starting at offset `start`.
    pub open spec fn spec_read(self, start: u64, count: u32) -> Seq<MessageView> {
        window(self.msgs(), start, count)
    }

    /// Clones out of the ring cache the messages whose offsets lie in
    /// `[start_offset, end_offset]`, oldest first.
    pub fn load_messages_from_cache(&self, start_offset: u64, end_offset: u64) -> (v: Vec<
        Message,
    >)
        ensures
            msg_views(v@) == ring_contents(self.messages).filter(
                in_offset_range(start_offset, end_offset),
            ),
    {
        let all = ring_to_vec(&self.messages);
        let ghost rc = ring_contents(self.messages);
        let ghost pred = in_offset_range(start_offset, end_offset);
        let mut v: Vec<Message> = Vec::new();
        let mut i: usize = 0;
        proof {
            reveal(Seq::filter);
            assert(msg_views(all@).take(0) =~= Seq::<MessageView>::empty());
            assert(msg_views(v@) =~= msg_views(all@).take(0).filter(pred));
        }
        while i < all.len()
            invariant
                i <= all.len(),
                msg_views(all@) == rc,
                pred == in_offset_range(start_offset, end_offset),
                msg_views(v@) == msg_views(all@).take(i as int).filter(pred),
            decreases all.len() - i,
        {
            let ghost prefix = msg_views(all@).take(i as int);
            proof {
                reveal(Seq::filter);
                assert(msg_views(all@).take(i + 1).drop_last() =~= prefix);
                assert(msg_views(all@).take(i + 1).last() == all@[i as int]@);
            }
            let m = &all[i];
            if m.offset >= start_offset && m.offset <= end_offset {
                let c = m.clone();
                proof {
                    assert(pred(all@[i as int]@));
                    assert(msg_views(v@.push(c)) =~= msg_views(v@).push(c@));
                }
                v.push(c);
            } else {
                proof {
                    assert(!pred(all@[i as int]@));
                }
            }
            i = i + 1;
        }
        proof {
            assert(msg_views(all@).take(all@.len() as int) =~= msg_views(all@));
        }
        v
    }

    /// Serves a read from the hot cache when it can be complete there: the
    /// cache holds a contiguous suffix of the log, so it suffices that the
    /// requested start is at or past the oldest cached offset.
    pub fn try_get_messages_from_cache(&self, start_offset: u64, end_offset: u64) -> (r: Option<
        Vec<Message>,
    >)
        ensures
            ({
                let rc = ring_contents(self.messages);
                if rc.len() > 0 && start_offset >= rc[0].offset {
                    r is Some && msg_views(r->Some_0@) == rc.filter(
                        in_offset_range(start_offset, end_offset),
                    )
                } else {
                    r is None
                }
            }),
    {
        if ring_is_empty(&self.messages) {
            return None;
        }
        let first_buffered_offset = ring_front(&self.messages).offset;
        if start_offset >= first_buffered_offset {
            return Some(self.load_messages_from_cache(start_offset, end_offset));
        }
        None
    }

    /// A complete cache hit returns exactly the requested window of the log.
    #[verifier::rlimit(100)]
    #[verifier::spinoff_prover]
    proof fn lemma_cache_window(self, start: u64, end: u64, count: u32)
        requires
            self.wf(),
            count >= 1,
            ring_contents(self.messages).len() > 0,
            start >= ring_contents(self.messages)[0].offset,
            end == if start + count - 1 <= self.active().current_offset {
                start + count - 1
            } else {
                self.active().current_offset as int
            },
        ensures
            ring_contents(self.messages).filter(in_offset_range(start, end)) == window(
                self.msgs(),
                start,
                count,
            ),
    {
        let rc = ring_contents(self.messages);
        let n = self.msgs().len() as int;
        let base = n - rc.len() as int;
        self.lemma_offsets_dense();
        self.lemma_active_current();
        assert forall|j: int| 0 <= j < rc.len() implies (#[trigger] rc[j]).offset == base + j by {
            assert(rc[j] == self.msgs()[base + j]);
        }
        lemma_filter_dense(rc, base, start, end);
        assert(rc[0].offset == base);
        assert(rc.filter(in_offset_range(start, end)) =~= window(self.msgs(), start, count));
    }

    /// The segments whose offset ranges overlap `[offset, end_offset]`, in
    /// order.
    #[verifier::loop_isolation(false)]
    #[verifier::rlimit(100)]
    pub fn filter_segments_by_offsets(&self, offset: u64, end_offset: u64) -> (r: Vec<&Segment>)
        requires
            self.wf(),
        ensures
            forall|i: int| 0 <= i < r@.len() ==> (#[trigger] r@[i]).wf(),
            r@.map_values(|s: &Segment| *s) == self.segments@.filter(
                seg_overlaps(offset, end_offset),
            ),
    {
        let ghost pred = seg_overlaps(offset, end_offset);
        let mut r: Vec<&Segment> = Vec::new();
        let mut i: usize = 0;
        proof {
            reveal(Seq::filter);
            assert(self.segments@.take(0) =~= Seq::<Segment>::empty());
            assert(r@.map_values(|s: &Segment| *s) =~= self.segments@.take(0).filter(pred));
        }
        while i < self.segments.len()
            invariant
                i <= self.segments@.len(),
                pred == seg_overlaps(offset, end_offset),
                r@.map_values(|s: &Segment| *s) == self.segments@.take(i as int).filter(pred),
                forall|j: int| 0 <= j < r@.len() ==> (#[trigger] r@[j]).wf(),
            decreases self.segments@.len() - i,
        {
            proof {
                reveal(Seq::filter);
                assert(self.segments@.take(i + 1).drop_last() =~= self.segments@.take(i as int));
                assert(self.segments@.take(i + 1).last() == self.segments@[i as int]);
            }
            let segment = &self.segments[i];
            if segment.start_offset <= end_offset && segment.current_offset >= offset {
                proof {
                    assert(pred(self.segments@[i as int]));
                }
                r.push(segment);
                proof {
                    assert(r@.map_values(|s: &Segment| *s) =~= self.segments@.take(i + 1).filter(
                        pred,
                    ));
                }
            } else {
                proof {
                    assert(!pred(self.segments@[i as int]));
                }
            }
            i = i + 1;
        }
        proof {
            assert(self.segments@.take(self.segments@.len() as int) =~= self.segments@);
        }
        r
    }

    /// Reads the window from each overlapping segment in turn and
    /// concatenates the results in segment order.
    pub fn get_messages_from_segments(segments: Vec<&Segment>, offset: u64, count: u32) -> (r:
        Result<Vec<Message>, Error>)
        requires
            forall|i: int| 0 <= i < segments@.len() ==> (#[trigger] segments@[i]).wf(),
        ensures
            r is Ok,
            msg_views(r->Ok_0@) == slices_concat(
                segments@.map_values(|s: &Segment| *s),
                offset,
                count,
            ),
    {
        let mut messages: Vec<Message> = Vec::new();
        let mut i: usize = 0;
        proof {
            assert(segments@.take(0).map_values(|s: &Segment| *s)
                =~= Seq::<Segment>::empty());
            assert(msg_views(messages@) =~= slices_concat(
                segments@.take(0).map_values(|s: &Segment| *s),
                offset,
                count,
            ));
        }
        while i < segments.len()
            invariant
                i <= segments@.len(),
                forall|j: int| 0 <= j < segments@.len() ==> (#[trigger] segments@[j]).wf(),
                msg_views(messages@) == slices_concat(
                    segments@.take(i as int).map_values(|s: &Segment| *s),
                    offset,
                    count,
                ),
            decreases segments@.len() - i,
        {
            let segment = segments[i];
            let segment_messages = match segment.get_messages(offset, count) {
                Ok(ms) => ms,
                Err(e) => {
                    proof {
                        assert(false);
                    }
                    return Err(e);
                },
            };
            let ghost before = segments@.take(i as int).map_values(|s: &Segment| *s);
            let ghost after = segments@.take(i + 1).map_values(|s: &Segment| *s);
            proof {
                assert(after.drop_last() =~= before);
                assert(after.last() == *segments@[i as int]);
                assert(msg_views(messages@ + segment_messages@) =~= msg_views(messages@)
                    + msg_views(segment_messages@));
            }
            let mut tail = segment_messages;
            messages.append(&mut tail);
            i = i + 1;
        }
        proof {
            assert(segments@.take(segments@.len() as int) =~= segments@);
        }
        Ok(messages)
    }

    /// In a well-formed partition, a segment that does not overlap the
    /// capped window `[start, end]` contributes nothing to it.
    #[verifier::rlimit(100)]
    proof fn lemma_no_overlap_empty(self, start: u64, count: u32, end: int)
        requires
            self.wf(),
            count >= 1,
            end == if start + count - 1 <= self.active().current_offset {
                start + count - 1
            } else {
                self.active().current_offset as int
            },
        ensures
            forall|i: int|
                0 <= i < self.segments@.len() && !(seg_overlaps(start, end as u64)(
                    #[trigger] self.segments@[i],
                )) ==> self.segments@[i].spec_slice(start, count) == Seq::<MessageView>::empty(),
    {
        let ss = self.segments@;
        self.lemma_active_current();
        assert forall|i: int|
            0 <= i < ss.len() && !(seg_overlaps(start, end as u64)(
                #[trigger] ss[i],
            )) implies ss[i].spec_slice(start, count) == Seq::<MessageView>::empty() by {
            let s = ss[i];
            lemma_segs_prefix_bound(ss, i);
            assert(s.start_offset + s.msg_count() <= self.msg_count());
            if s.current_offset < start {
                assert(s.spec_slice(start, count) == Seq::<MessageView>::empty());
            } else {
                assert(s.start_offset > end);
                if start + count - 1 <= self.active().current_offset {
                    assert(s.spec_slice(start, count) == Seq::<MessageView>::empty());
                } else {
                    if self.active().msg_count() > 0 {
                        assert(s.start_offset >= self.msg_count());
                        assert(s.msg_count() == 0);
                        assert(s.spec_slice(start, count) == Seq::<MessageView>::empty());
                    } else {
                        assert(s.start_offset <= self.msg_count());
                        assert(false);
                    }
                }
            }
        }
    }

    /// Returns up to `count` messages starting at `start_offset`: whole from
    /// the cache when the cache suffix reaches back far enough, otherwise
    /// gathered from every segment overlapping the window. In this in-memory
    /// model reading cannot fail, so the result is always `Ok`.
    #[verifier::rlimit(100)]
    pub fn get_messages_by_offset(&self, start_offset: u64, count: u32) -> (r: Result<
        Vec<Message>,
        Error,
    >)
        requires
            self.wf(),
        ensures
            r is Ok,
            msg_views(r->Ok_0@) == self.spec_read(start_offset, count),
    {
        if self.segments.is_empty() {
            proof {
                assert(false);
            }
            return Ok(Vec::new());
        }
        if count == 0 {
            let v: Vec<Message> = Vec::new();
            proof {
                assert(msg_views(v@) =~= self.spec_read(start_offset, count));
            }
            return Ok(v);
        }
        let end_offset = self.get_end_offset(start_offset, count);
        let messages = self.try_get_messages_from_cache(start_offset, end_offset);
        if let Some(messages) = messages {
            proof {
                self.lemma_cache_window(start_offset, end_offset, count);
            }
            return Ok(messages);
        }
        let segments = self.filter_segments_by_offsets(start_offset, end_offset);
        let ghost pred = seg_overlaps(start_offset, end_offset);
        proof {
            self.lemma_no_overlap_empty(start_offset, count, end_offset as int);
            lemma_filter_slices(self.segments@, pred, start_offset, count);
            lemma_run_slices(self.segments@, start_offset, count);
        }
        if segments.len() == 0 {
            let v: Vec<Message> = Vec::new();
            proof {
                assert(segments@.map_values(|s: &Segment| *s) =~= Seq::<Segment>::empty());
                assert(slices_concat(Seq::<Segment>::empty(), start_offset, count)
                    == Seq::<MessageView>::empty());
                assert(msg_views(v@) =~= Seq::<MessageView>::empty());
            }
            return Ok(v);
        }
        if segments.len() == 1 {
            let res = segments[0].get_messages(start_offset, count);
            match res {
                Ok(v) => {
                    proof {
                        let one = segments@.map_values(|s: &Segment| *s);
                        assert(one.len() == 1);
                        assert(one.drop_last() =~= Seq::<Segment>::empty());
                        assert(slices_concat(Seq::<Segment>::empty(), start_offset, count)
                            == Seq::<MessageView>::empty());
                        assert(one.last() == *segments@[0]);
                        assert(slices_concat(one, start_offset, count)
                            == Seq::<MessageView>::empty() + (*segments@[0]).spec_slice(
                            start_offset,
                            count,
                        ));
                        assert(Seq::<MessageView>::empty() + (*segments@[0]).spec_slice(
                            start_offset,
                            count,
                        ) =~= (*segments@[0]).spec_slice(start_offset, count));
                    }
                    return Ok(v);
                },
                Err(e) => {
                    proof {
                        assert(false);
                    }
                    return Err(e);
                },
            }
        }
        Self::get_messages_from_segments(segments, start_offset, count)
    }

    /// The timestamp every message of an append stamped at `now` receives:
    /// the clock reading, clamped so timestamps never decrease.
    pub open spec fn append_timestamp(self, now: u64) -> u64 {
        if self.msg_count() > 0 && self.msgs().last().timestamp > now {
            self.msgs().last().timestamp
        } else {
            now
        }
    }

    /// Closes no door behind itself: called when the active segment is
    /// closed, starts a fresh one right after it.
    #[verifier::rlimit(100)]
    fn process_new_segment(&mut self, start_offset: u64) -> (r: Result<(), Error>)
        requires
            old(self).wf(),
            old(self).active().is_closed,
            start_offset == old(self).msg_count(),
        ensures
            r.is_ok(),
            final(self).wf(),
            final(self).msgs() == old(self).msgs(),
            final(self).segments@ == old(self).segments@.push(final(self).active()),
            final(self).active().msgs() == Seq::<MessageView>::empty(),
            !final(self).active().is_closed,
            final(self).active().current_size_bytes == 0,
            final(self).active().start_offset == start_offset,
            final(self).active().log_file@ == Seq::<u8>::empty(),
            final(self).messages == old(self).messages,
            final(self).consumer_offsets == old(self).consumer_offsets,
            final(self).current_offset == old(self).current_offset,
            final(self).should_increment_offset == old(self).should_increment_offset,
            final(self).unsaved_messages_count == old(self).unsaved_messages_count,
            final(self).config == old(self).config,
            final(self).id == old(self).id,
    {
        let new_segment = Segment::create(self.id, start_offset, self.config.segment_size_bytes);
        let ghost oldss = self.segments@;
        self.segments.push(new_segment);
        proof {
            let ss = self.segments@;
            let n = ss.len() as int;
            assert(ss.drop_last() =~= oldss);
            assert(segs_msgs(ss) == segs_msgs(oldss) + ss.last().msgs());
            assert(self.msgs() =~= old(self).msgs());
            old(self).lemma_active_current();
            assert forall|i: int| 0 <= i < n implies (#[trigger] ss[i]).start_offset == segs_msgs(
                ss.take(i),
            ).len() by {
                if i < n - 1 {
                    assert(ss[i] == oldss[i]);
                    assert(ss.take(i) =~= oldss.take(i));
                } else {
                    assert(ss.take(n - 1) =~= oldss);
                    assert(old(self).active().start_offset + old(self).active().msg_count()
                        == old(self).msg_count());
                }
            }
            assert forall|i: int| 0 <= i < n - 1 implies (#[trigger] ss[i]).is_closed by {
                assert(ss[i] == oldss[i]);
            }
            assert(self.wf());
        }
        Ok(())
    }

    /// Assigns the next dense offsets and the clamped timestamp to each
    /// message of `messages` in order, buffers each in the active segment
    /// (rolling first if the active segment is closed) and in the hot ring
    /// cache, and persists the segment once enough messages are unsaved or
    /// the segment is full.
    #[verifier::loop_isolation(false)]
    #[verifier::rlimit(100)]
    #[verifier::spinoff_prover]
    pub fn append_messages(&mut self, messages: Vec<Message>, now_ms: u64) -> (r: Result<
        (),
        Error,
    >)
        requires
            old(self).wf(),
            forall|i: int|
                0 <= i < messages@.len() ==> msg_wf((#[trigger] messages@[i])@),
            (if old(self).active().is_closed {
                0
            } else {
                old(self).active().current_size_bytes as int
            }) + batch_bytes(msg_views(messages@)) <= 0xFFFF_FFFF,
            old(self).msg_count() + messages@.len() <= u64::MAX,
        ensures
            r.is_ok(),
            final(self).wf(),
            final(self).msgs() == old(self).msgs() + assigned(
                msg_views(messages@),
                old(self).msg_count(),
                old(self).append_timestamp(now_ms),
            ),
            final(self).next_offset() == old(self).msg_count() + messages@.len(),
            final(self).consumer_offsets == old(self).consumer_offsets,
            final(self).config == old(self).config,
            final(self).id == old(self).id,
            final(self).segments@.len() == old(self).segments@.len() + (if old(
                self,
            ).active().is_closed {
                1int
            } else {
                0int
            }),
            ({
                let base: int = if old(self).active().is_closed {
                    0
                } else {
                    old(self).active().current_size_bytes as int
                };
                let persist_cond = old(self).unsaved_messages_count + messages@.len()
                    >= old(self).config.messages_required_to_save || base + batch_bytes(
                    msg_views(messages@),
                ) >= old(self).config.segment_size_bytes;
                if persist_cond {
                    final(self).unsaved_messages_count == 0 && final(self).active().persisted@
                        == final(self).active().msgs()
                } else {
                    final(self).unsaved_messages_count == old(self).unsaved_messages_count
                        + messages@.len() && final(self).active().log_file@ == (if old(
                        self,
                    ).active().is_closed {
                        Seq::<u8>::empty()
                    } else {
                        old(self).active().log_file@
                    })
                }
            }),
    {
        let ghost batch = msg_views(messages@);
        if self.segments.is_empty() {
            proof {
                assert(false);
            }
            return Err(Error::SegmentNotFound);
        }
        let last_idx = self.segments.len() - 1;
        if self.segments[last_idx].is_closed {
            let start_offset = self.segments[last_idx].end_offset + 1;
            proof {
                self.lemma_active_current();
                assert(self.active().msg_count() > 0);
                assert(self.active().end_offset == self.active().current_offset);
                assert(start_offset == self.msg_count());
            }
            let rr = self.process_new_segment(start_offset);
            proof {
                assert(rr.is_ok());
            }
        }
        let ghost mid = *self;
        let ghost total0 = mid.msg_count();
        let ghost ts_spec = old(self).append_timestamp(now_ms);
        proof {
            assert(mid.msgs() == old(self).msgs());
            assert(mid.append_timestamp(now_ms) == ts_spec);
        }
        // The clock reading, clamped against the last assigned timestamp so
        // the time index stays non-decreasing.
        let nseg = self.segments.len();
        let mut last_ts: u64 = 0;
        if self.segments[nseg - 1].time_indexes.len() > 0 {
            let tlen = self.segments[nseg - 1].time_indexes.len();
            last_ts = self.segments[nseg - 1].time_indexes[tlen - 1].timestamp;
            proof {
                mid.lemma_active_current();
                let a = mid.active();
                assert(a.time_indexes@[a.msg_count() - 1].timestamp == a.msgs().last().timestamp);
                assert(mid.msgs() == segs_msgs(mid.segments@.drop_last()) + a.msgs());
                assert(mid.msgs().last() == a.msgs().last());
                assert(last_ts == mid.msgs().last().timestamp);
            }
        } else if nseg >= 2 {
            let prev = &self.segments[nseg - 2];
            let plen = prev.time_indexes.len();
            proof {
                assert(mid.segments@[nseg - 2].is_closed);
                assert(mid.segments@[nseg - 2].msg_count() > 0);
            }
            last_ts = prev.time_indexes[plen - 1].timestamp;
            proof {
                mid.lemma_active_current();
                let a = mid.active();
                let p = mid.segments@[nseg - 2];
                assert(a.msg_count() == 0);
                assert(mid.msgs() == segs_msgs(mid.segments@.drop_last()) + a.msgs());
                assert(mid.msgs() =~= segs_msgs(mid.segments@.drop_last()));
                lemma_segs_msgs_take_succ(mid.segments@, nseg - 2);
                assert(mid.segments@.take(nseg - 1) =~= mid.segments@.drop_last());
                assert(mid.msgs() == segs_msgs(mid.segments@.take(nseg - 2)) + p.msgs());
                assert(p.time_indexes@[p.msg_count() - 1].timestamp == p.msgs().last().timestamp);
                assert(mid.msgs().last() == p.msgs().last());
                assert(last_ts == mid.msgs().last().timestamp);
            }
        } else {
            proof {
                mid.lemma_active_current();
                assert(mid.msg_count() == 0);
            }
        }
        let timestamp = if last_ts > now_ms {
            last_ts
        } else {
            now_ms
        };
        proof {
            assert(timestamp == ts_spec);
        }
        let mut segment = self.segments.pop().unwrap();
        let ghost aseg = mid.active();
        proof {
            mid.lemma_active_current();
            assert(segment == aseg);
            assert(aseg.start_offset + aseg.msg_count() == total0);
            if mid.msg_count() > 0 {
                assert(timestamp >= mid.msgs().last().timestamp);
            }
            assert(mid.msgs() == segs_msgs(mid.segments@.drop_last()) + aseg.msgs());
            if aseg.msg_count() > 0 {
                assert(aseg.msgs().last() == mid.msgs().last());
            }
            lemma_batch_bytes_bounds(batch);
        }
        assign_and_buffer(
            &mut segment,
            &mut self.messages,
            &mut self.current_offset,
            &mut self.should_increment_offset,
            &messages,
            timestamp,
            Ghost(mid.msgs()),
            Ghost(total0),
        );
        proof {
            assert(batch.take(batch.len() as int) =~= batch);
            assert(batch.skip(batch.len() as int) =~= Seq::<MessageView>::empty());
            assert(batch_bytes(Seq::<MessageView>::empty()) == 0);
            assert(segment.current_size_bytes == aseg.current_size_bytes + batch_bytes(batch));
            segment.lemma_count_bound();
            assert(segment.unsaved_messages@.len() == aseg.unsaved_messages@.len()
                + messages@.len());
        }
        let messages_count = messages.len() as u32;
        let new_unsaved = self.unsaved_messages_count + messages_count;
        let do_persist = new_unsaved >= self.config.messages_required_to_save
            || segment.is_full();
        if do_persist {
            let pres = segment.persist_messages();
            proof {
                assert(pres.is_ok());
            }
            self.unsaved_messages_count = 0;
        } else {
            self.unsaved_messages_count = new_unsaved;
        }
        let ghost segf = segment;
        self.segments.push(segment);
        proof {
            lemma_after_append(mid, *self, segf, aseg, batch, total0, timestamp);
        }
        Ok(())
    }

    /// Reads from the head of the log.
    pub fn get_first_messages(&self, count: u32) -> (r: Result<Vec<Message>, Error>)
        requires
            self.wf(),
        ensures
            r is Ok,
            msg_views(r->Ok_0@) == self.spec_read(0, count),
    {
        self.get_messages_by_offset(0, count)
    }

    /// Reads the `count` most recent messages (fewer when fewer exist).
    pub fn get_last_messages(&self, count: u32) -> (r: Result<Vec<Message>, Error>)
        requires
            self.wf(),
            self.current_offset < u64::MAX,
        ensures
            r is Ok,
            ({
                let c: int = if count as int <= self.current_offset + 1 {
                    count as int
                } else {
                    self.current_offset + 1
                };
                let start: int = self.current_offset + 1 - c;
                msg_views(r->Ok_0@) == self.spec_read(start as u64, c as u32)
            }),
    {
        let mut count2: u64 = count as u64;
        if count2 > self.current_offset + 1 {
            count2 = self.current_offset + 1;
        }
        let start_offset = 1 + self.current_offset - count2;
        self.get_messages_by_offset(start_offset, count2 as u32)
    }

    /// Reads for a consumer: from the head when it has no checkpoint, empty
    /// when its checkpoint sits at the head of the log, and otherwise
    /// starting at (and including) the stored offset.
    pub fn get_next_messages(&self, consumer_id: u32, count: u32) -> (r: Result<
        Vec<Message>,
        Error,
    >)
        requires
            self.wf(),
        ensures
            r is Ok,
            ({
                let co = self.consumer_offsets@;
                if !co.contains_key(consumer_id) {
                    msg_views(r->Ok_0@) == self.spec_read(0, count)
                } else if co[consumer_id].offset == self.current_offset {
                    msg_views(r->Ok_0@) == Seq::<MessageView>::empty()
                } else {
                    msg_views(r->Ok_0@) == self.spec_read(co[consumer_id].offset, count)
                }
            }),
    {
        let offset = match self.consumer_offsets.get(&consumer_id) {
            None => {
                return self.get_first_messages(count);
            },
            Some(co) => co.offset,
        };
        if offset == self.current_offset {
            let v: Vec<Message> = Vec::new();
            proof {
                assert(msg_views(v@) =~= Seq::<MessageView>::empty());
            }
            return Ok(v);
        }
        self.get_messages_by_offset(offset, count)
    }

    /// Locates the first segment whose time index brackets `timestamp`,
    /// finds its first entry stamped at or after it, and reads forward from
    /// that absolute offset; empty when no segment contains the timestamp.
    /// The absolute offset a read by `timestamp` starts at, if any
    /// segment's time index brackets it.
    #[verifier::loop_isolation(false)]
    #[verifier::rlimit(100)]
    #[verifier::spinoff_prover]
    fn ts_start(&self, timestamp: u64) -> (r: Option<u64>)
        requires
            self.wf(),
        ensures
            r == spec_ts_start(self.segments@, timestamp),
    {
        let ghost ss = self.segments@;
        let mut maybe_start_offset: Option<u64> = None;
        let n = self.segments.len();
        let mut i: usize = 0;
        proof {
            assert(ss.skip(0) =~= ss);
        }
        while i < n
            invariant
                i <= n,
                maybe_start_offset is None,
                spec_ts_start(ss, timestamp) == spec_ts_start(ss.skip(i as int), timestamp),
            decreases n - i,
        {
            proof {
                assert(ss.skip(i as int).drop_first() =~= ss.skip(i + 1));
                assert(ss.skip(i as int)[0] == ss[i as int]);
            }
            let segment = &self.segments[i];
            let tlen = segment.time_indexes.len();
            if tlen == 0 {
                i = i + 1;
                continue;
            }
            let first_timestamp = segment.time_indexes[0].timestamp;
            let last_timestamp = segment.time_indexes[tlen - 1].timestamp;
            if timestamp < first_timestamp || timestamp > last_timestamp {
                i = i + 1;
                continue;
            }
            proof {
                assert(ts_in_segment(ss[i as int], timestamp));
                lemma_find_entry_char(segment.time_indexes@, timestamp);
            }
            let mut k: usize = 0;
            while k < tlen && segment.time_indexes[k].timestamp < timestamp
                invariant
                    k <= tlen,
                    tlen == segment.time_indexes@.len(),
                    forall|j: int|
                        0 <= j < k ==> (#[trigger] segment.time_indexes@[j]).timestamp
                            < timestamp,
                decreases tlen - k,
            {
                k = k + 1;
            }
            proof {
                assert(k < tlen);
                assert(k == find_entry(segment.time_indexes@, timestamp));
            }
            proof {
                assert(segment.msgs()[k as int].offset == segment.start_offset + k);
                assert(segment.time_indexes@[k as int].relative_offset == k);
            }
            let relative_start_offset = segment.time_indexes[k].relative_offset;
            let start_offset = segment.start_offset + relative_start_offset as u64;
            proof {
                assert(start_offset == spec_ts_start(ss, timestamp)->Some_0);
            }
            maybe_start_offset = Some(start_offset);
            break;
        }
        maybe_start_offset
    }

    /// Locates the first segment whose time index brackets `timestamp`,
    /// finds its first entry stamped at or after it, and reads forward from
    /// that absolute offset; empty when no segment contains the timestamp.
    pub fn get_messages_by_timestamp(&self, timestamp: u64, count: u32) -> (r: Result<
        Vec<Message>,
        Error,
    >)
        requires
            self.wf(),
        ensures
            r is Ok,
            ({
                match spec_ts_start(self.segments@, timestamp) {
                    Option::None => msg_views(r->Ok_0@) == Seq::<MessageView>::empty(),
                    Option::Some(start) => msg_views(r->Ok_0@) == self.spec_read(start, count),
                }
            }),
    {
        if self.segments.is_empty() {
            proof {
                assert(false);
            }
            return Ok(Vec::new());
        }
        let maybe_start_offset = self.ts_start(timestamp);
        match maybe_start_offset {
            None => {
                let v: Vec<Message> = Vec::new();
                proof {
                    assert(msg_views(v@) =~= Seq::<MessageView>::empty());
                }
                Ok(v)
            },
            Some(start_offset) => self.get_messages_by_offset(start_offset, count),
        }
    }

    /// The stored checkpoint of consumer `consumer_id`, if any.
    pub fn get_consumer_offset(&self, consumer_id: u32) -> (r: Option<u64>)
        requires
            self.wf(),
        ensures
            self.consumer_offsets@.contains_key(consumer_id) ==> r == Some(
                self.consumer_offsets@[consumer_id].offset,
            ),
            !self.consumer_offsets@.contains_key(consumer_id) ==> r is None,
    {
        match self.consumer_offsets.get(&consumer_id) {
            Some(co) => Some(co.offset),
            None => None,
        }
    }
}

/// The part of `ms` lying at positions `[start, start + count)`, clamped to
/// the sequence; with dense offsets these positions are the offsets.
pub open spec fn window(ms: Seq<MessageView>, start: u64, count: u32) -> Seq<MessageView> {
    let lo: int = if start as int <= ms.len() {
        start as int
    } else {
        ms.len() as int
    };
    let hi: int = if start + count as int <= ms.len() {
        start + count as int
    } else {
        ms.len() as int
    };
    if hi <= lo {
        Seq::<MessageView>::empty()
    } else {
        ms.subrange(lo, hi)
    }
}

/// The batch as it lands in the log: offsets assigned densely from `first`,
/// every message stamped `ts`, ids and payloads kept.
pub open spec fn assigned(batch: Seq<MessageView>, first: int, ts: u64) -> Seq<MessageView> {
    Seq::new(
        batch.len(),
        |i: int|
            MessageView {
                offset: (first + i) as u64,
                timestamp: ts,
                id: batch[i].id,
                payload: batch[i].payload,
            },
    )
}

/// The bytes a batch will occupy in a log file.
pub open spec fn batch_bytes(ms: Seq<MessageView>) -> int
    decreases ms.len(),
{
    if ms.len() == 0 {
        0
    } else {
        spec_encoded_len(ms[0]) + batch_bytes(ms.drop_first())
    }
}

pub proof fn lemma_batch_bytes_bounds(ms: Seq<MessageView>)
    ensures
        batch_bytes(ms) >= 36 * ms.len(),
    decreases ms.len(),
{
    if ms.len() > 0 {
        lemma_batch_bytes_bounds(ms.drop_first());
    }
}

/// A segment's time index brackets `ts`.
pub open spec fn ts_in_segment(s: Segment, ts: u64) -> bool {
    s.time_indexes@.len() > 0 && s.time_indexes@[0].timestamp <= ts && ts
        <= s.time_indexes@.last().timestamp
}

/// The first position of the index whose timestamp is at or after `ts`;
/// the index length when every entry lies below it.
pub open spec fn find_entry(es: Seq<TimeIndexEntry>, ts: u64) -> int
    decreases es.len(),
{
    if es.len() == 0 {
        0
    } else if es[0].timestamp >= ts {
        0
    } else {
        1 + find_entry(es.drop_first(), ts)
    }
}

pub proof fn lemma_find_entry_char(es: Seq<TimeIndexEntry>, ts: u64)
    ensures
        0 <= find_entry(es, ts) <= es.len(),
        forall|j: int| 0 <= j < find_entry(es, ts) ==> (#[trigger] es[j]).timestamp < ts,
        find_entry(es, ts) < es.len() ==> es[find_entry(es, ts)].timestamp >= ts,
    decreases es.len(),
{
    if es.len() > 0 && es[0].timestamp < ts {
        lemma_find_entry_char(es.drop_first(), ts);
        assert forall|j: int| 0 <= j < find_entry(es, ts) implies (#[trigger] es[j]).timestamp
            < ts by {
            if j > 0 {
                assert(es.drop_first()[j - 1] == es[j]);
            }
        }
    }
}

/// The starting offset a read by timestamp uses: the first bracketing
/// segment's first entry stamped at or after `ts`.
pub open spec fn spec_ts_start(ss: Seq<Segment>, ts: u64) -> Option<u64>
    decreases ss.len(),
{
    if ss.len() == 0 {
        Option::None
    } else if ts_in_segment(ss[0], ts) {
        Option::Some(
            (ss[0].start_offset + ss[0].time_indexes@[find_entry(
                ss[0].time_indexes@,
                ts,
            )].relative_offset) as u64,
        )
    } else {
        spec_ts_start(ss.drop_first(), ts)
    }
}

/// Holds of the messages whose offset lies in `[start, end]`.
pub open spec fn in_offset_range(start: u64, end: u64) -> spec_fn(MessageView) -> bool {
    |m: MessageView| start <= m.offset <= end
}

/// Holds of the segments whose offset range overlaps `[start, end]`.
pub open spec fn seg_overlaps(start: u64, end: u64) -> spec_fn(Segment) -> bool {
    |s: Segment| s.start_offset <= end && s.current_offset >= start
}

/// The concatenation, in order, of each segment's slice of the absolute
/// window `[start, start + count)`.
pub open spec fn slices_concat(ss: Seq<Segment>, start: u64, count: u32) -> Seq<MessageView>
    decreases ss.len(),
{
    if ss.len() == 0 {
        Seq::<MessageView>::empty()
    } else {
        slices_concat(ss.drop_last(), start, count) + ss.last().spec_slice(start, count)
    }
}

/// Filtering a sequence of dense-offset messages by an offset range keeps a
/// contiguous part of it.
pub proof fn lemma_filter_dense(ms: Seq<MessageView>, base: int, start: u64, end: u64)
    requires
        forall|j: int| 0 <= j < ms.len() ==> (#[trigger] ms[j]).offset == base + j,
        base >= 0,
    ensures
        ({
            let lo: int = if start as int <= base {
                0
            } else if start - base <= ms.len() {
                start - base
            } else {
                ms.len() as int
            };
            let hi: int = if end as int + 1 <= base {
                0
            } else if end + 1 - base <= ms.len() {
                end + 1 - base
            } else {
                ms.len() as int
            };
            ms.filter(in_offset_range(start, end)) == if hi <= lo {
                Seq::<MessageView>::empty()
            } else {
                ms.subrange(lo, hi)
            }
        }),
    decreases ms.len(),
{
    reveal(Seq::filter);
    let pred = in_offset_range(start, end);
    let lo: int = if start as int <= base {
        0
    } else if start - base <= ms.len() {
        start - base
    } else {
        ms.len() as int
    };
    let hi: int = if end as int + 1 <= base {
        0
    } else if end + 1 - base <= ms.len() {
        end + 1 - base
    } else {
        ms.len() as int
    };
    if ms.len() == 0 {
        assert(ms.filter(pred) =~= Seq::<MessageView>::empty());
    } else {
        let dl = ms.drop_last();
        let n = dl.len() as int;
        lemma_filter_dense(dl, base, start, end);
        let dlo: int = if start as int <= base {
            0
        } else if start - base <= n {
            start - base
        } else {
            n
        };
        let dhi: int = if end as int + 1 <= base {
            0
        } else if end + 1 - base <= n {
            end + 1 - base
        } else {
            n
        };
        assert(ms.last().offset == base + n);
        if pred(ms.last()) {
            assert(ms.filter(pred) == dl.filter(pred).push(ms.last()));
            assert(hi == n + 1 && lo == dlo && dhi == n);
            if dhi <= dlo {
                assert(ms.filter(pred) =~= ms.subrange(lo, hi));
            } else {
                assert(ms.filter(pred) =~= ms.subrange(lo, hi));
            }
        } else {
            assert(ms.filter(pred) == dl.filter(pred));
            if start > base + n {
                assert(hi <= lo);
                assert(dhi <= dlo);
                assert(ms.filter(pred) =~= Seq::<MessageView>::empty());
            } else {
                assert(end < base + n);
                assert(hi == dhi && lo == dlo);
                if hi <= lo {
                    assert(ms.filter(pred) =~= Seq::<MessageView>::empty());
                } else {
                    assert(ms.filter(pred) =~= ms.subrange(lo, hi));
                }
            }
        }
    }
}

/// Concatenating every segment's slice of a window yields that window of the
/// whole run.
#[verifier::rlimit(100)]
pub proof fn lemma_run_slices(ss: Seq<Segment>, start: u64, count: u32)
    requires
        forall|i: int| 0 <= i < ss.len() ==> (#[trigger] ss[i]).wf(),
        forall|i: int|
            0 <= i < ss.len() ==> (#[trigger] ss[i]).start_offset == segs_msgs(ss.take(i)).len(),
    ensures
        slices_concat(ss, start, count) == window(segs_msgs(ss), start, count),
    decreases ss.len(),
{
    if ss.len() == 0 {
        assert(slices_concat(ss, start, count) =~= window(segs_msgs(ss), start, count));
    } else {
        let dl = ss.drop_last();
        let s = ss.last();
        assert forall|i: int| 0 <= i < dl.len() implies (#[trigger] dl[i]).wf() && dl[i].start_offset
            == segs_msgs(dl.take(i)).len() by {
            assert(dl[i] == ss[i]);
            assert(dl.take(i) =~= ss.take(i));
        }
        lemma_run_slices(dl, start, count);
        assert(ss.take(ss.len() - 1) =~= dl);
        let a = segs_msgs(dl);
        let b = s.msgs();
        let n = a.len() as int;
        assert(s.start_offset == n);
        assert(segs_msgs(ss) == a + b);
        assert(window(a + b, start, count) =~= window(a, start, count) + s.spec_slice(
            start,
            count,
        ));
    }
}

/// Segments whose range misses the window contribute nothing, so filtering
/// them out first leaves the concatenation unchanged.
pub proof fn lemma_filter_slices(ss: Seq<Segment>, pred: spec_fn(Segment) -> bool, start: u64, count: u32)
    requires
        forall|i: int|
            0 <= i < ss.len() && !pred(#[trigger] ss[i]) ==> ss[i].spec_slice(start, count)
                == Seq::<MessageView>::empty(),
    ensures
        slices_concat(ss.filter(pred), start, count) == slices_concat(ss, start, count),
    decreases ss.len(),
{
    reveal(Seq::filter);
    if ss.len() > 0 {
        let dl = ss.drop_last();
        assert forall|i: int| 0 <= i < dl.len() && !pred(#[trigger] dl[i]) implies dl[i].spec_slice(
            start,
            count,
        ) == Seq::<MessageView>::empty() by {
            assert(dl[i] == ss[i]);
        }
        lemma_filter_slices(dl, pred, start, count);
        if pred(ss.last()) {
            assert(ss.filter(pred) == dl.filter(pred).push(ss.last()));
            assert(ss.filter(pred).drop_last() =~= dl.filter(pred));
            assert(ss.filter(pred).last() == ss.last());
        } else {
            assert(ss.filter(pred) == dl.filter(pred));
            assert(slices_concat(ss, start, count) =~= slices_concat(dl, start, count));
        }
    }
}

/// Dense offsets over a run of segments whose start offsets are cumulative
/// message counts.
pub proof fn lemma_run_offsets_dense(ss: Seq<Segment>)
    requires
        forall|i: int| 0 <= i < ss.len() ==> (#[trigger] ss[i]).wf(),
        forall|i: int|
            0 <= i < ss.len() ==> (#[trigger] ss[i]).start_offset == segs_msgs(ss.take(i)).len(),
    ensures
        forall|k: int| 0 <= k < segs_msgs(ss).len() ==> (#[trigger] segs_msgs(ss)[k]).offset == k,
    decreases ss.len(),
{
    if ss.len() > 0 {
        let dl = ss.drop_last();
        let s = ss.last();
        assert forall|i: int| 0 <= i < dl.len() implies (#[trigger] dl[i]).wf() && dl[i].start_offset
            == segs_msgs(dl.take(i)).len() by {
            assert(dl[i] == ss[i]);
            assert(dl.take(i) =~= ss.take(i));
        }
        lemma_run_offsets_dense(dl);
        assert(ss.take(ss.len() - 1) =~= dl);
        let nbase = segs_msgs(dl).len() as int;
        assert(s.start_offset == nbase);
        assert forall|k: int| 0 <= k < segs_msgs(ss).len() implies (#[trigger] segs_msgs(
            ss,
        )[k]).offset == k by {
            if k < nbase {
                assert(segs_msgs(ss)[k] == segs_msgs(dl)[k]);
            } else {
                assert(segs_msgs(ss)[k] == s.msgs()[k - nbase]);
                assert(s.msgs()[k - nbase].offset == s.start_offset + (k - nbase));
            }
        }
    }
}

/// Assigns the next dense offsets and the common timestamp to each message
/// of the batch in order, buffering each in the open segment and in the hot
/// ring cache.
#[verifier::loop_isolation(false)]
#[verifier::rlimit(100)]
#[verifier::spinoff_prover]
fn assign_and_buffer(
    segment: &mut Segment,
    ring: &mut AllocRingBuffer<Message>,
    current_offset: &mut u64,
    should_increment_offset: &mut bool,
    messages: &Vec<Message>,
    timestamp: u64,
    Ghost(mid_msgs): Ghost<Seq<MessageView>>,
    Ghost(total0): Ghost<int>,
)
    requires
        old(segment).wf(),
        !old(segment).is_closed,
        total0 == mid_msgs.len(),
        old(segment).start_offset + old(segment).msg_count() == total0,
        total0 + messages@.len() <= u64::MAX,
        forall|i: int| 0 <= i < messages@.len() ==> msg_wf((#[trigger] messages@[i])@),
        old(segment).current_size_bytes + batch_bytes(msg_views(messages@)) <= 0xFFFF_FFFF,
        old(segment).msg_count() > 0 ==> timestamp >= old(segment).msgs().last().timestamp,
        (if *old(should_increment_offset) {
            *old(current_offset) + 1
        } else {
            0
        }) == total0,
        !*old(should_increment_offset) ==> *old(current_offset) == 0,
        ring_capacity(*old(ring)) > 0,
        ring_contents(*old(ring)).len() <= ring_capacity(*old(ring)),
        ring_contents(*old(ring)).len() <= total0,
        ring_contents(*old(ring)) == mid_msgs.skip(total0 - ring_contents(*old(ring)).len()),
    ensures
        final(segment).wf(),
        !final(segment).is_closed,
        final(segment).msgs() == old(segment).msgs() + assigned(
            msg_views(messages@),
            total0,
            timestamp,
        ),
        final(segment).start_offset == old(segment).start_offset,
        final(segment).max_size_bytes == old(segment).max_size_bytes,
        final(segment).partition_id == old(segment).partition_id,
        final(segment).end_offset == old(segment).end_offset,
        final(segment).persisted@ == old(segment).persisted@,
        final(segment).persisted_count == old(segment).persisted_count,
        final(segment).log_file@ == old(segment).log_file@,
        final(segment).index_file@ == old(segment).index_file@,
        final(segment).time_index_file@ == old(segment).time_index_file@,
        final(segment).unsaved_messages@.len() == old(segment).unsaved_messages@.len()
            + messages@.len(),
        final(segment).current_size_bytes == old(segment).current_size_bytes + batch_bytes(
            msg_views(messages@),
        ),
        (if *final(should_increment_offset) {
            *final(current_offset) + 1
        } else {
            0
        }) == total0 + messages@.len(),
        !*final(should_increment_offset) ==> *final(current_offset) == 0,
        ring_capacity(*final(ring)) == ring_capacity(*old(ring)),
        ring_contents(*final(ring)).len() <= ring_capacity(*final(ring)),
        ring_contents(*final(ring)).len() <= total0 + messages@.len(),
        ring_contents(*final(ring)) == (mid_msgs + assigned(
            msg_views(messages@),
            total0,
            timestamp,
        )).skip(total0 + messages@.len() - ring_contents(*final(ring)).len()),
{
    let ghost batch = msg_views(messages@);
    let ghost aseg = *old(segment);
    proof {
        assert(batch.skip(0) =~= batch);
        assert(assigned(batch.take(0), total0, timestamp) =~= Seq::<MessageView>::empty());
        assert(aseg.msgs() + assigned(batch.take(0), total0, timestamp) =~= aseg.msgs());
        lemma_batch_bytes_bounds(batch);
    }
    let mut i: usize = 0;
    while i < messages.len()
        invariant
            i <= messages@.len(),
            segment.wf(),
            !segment.is_closed,
            segment.start_offset == aseg.start_offset,
            segment.max_size_bytes == aseg.max_size_bytes,
            segment.partition_id == aseg.partition_id,
            segment.end_offset == aseg.end_offset,
            segment.persisted@ == aseg.persisted@,
            segment.persisted_count == aseg.persisted_count,
            segment.log_file@ == aseg.log_file@,
            segment.index_file@ == aseg.index_file@,
            segment.time_index_file@ == aseg.time_index_file@,
            segment.unsaved_messages@.len() == aseg.unsaved_messages@.len() + i,
            segment.msgs() == aseg.msgs() + assigned(batch.take(i as int), total0, timestamp),
            segment.current_size_bytes + batch_bytes(batch.skip(i as int)) <= 0xFFFF_FFFF,
            segment.current_size_bytes == aseg.current_size_bytes + batch_bytes(batch)
                - batch_bytes(batch.skip(i as int)),
            (if *should_increment_offset {
                *current_offset + 1
            } else {
                0
            }) == total0 + i,
            !*should_increment_offset ==> *current_offset == 0 && total0 + i == 0,
            segment.msg_count() > 0 ==> timestamp >= segment.msgs().last().timestamp,
            ring_capacity(*ring) == ring_capacity(*old(ring)),
            ring_capacity(*ring) > 0,
            ring_contents(*ring).len() <= ring_capacity(*ring),
            ring_contents(*ring).len() <= total0 + i,
            ring_contents(*ring) == (mid_msgs + assigned(
                batch.take(i as int),
                total0,
                timestamp,
            )).skip(total0 + i - ring_contents(*ring).len()),
        decreases messages@.len() - i,
    {
        let mut message = messages[i].clone();
        if *should_increment_offset {
            *current_offset = *current_offset + 1;
        } else {
            *should_increment_offset = true;
        }
        message.offset = *current_offset;
        message.timestamp = timestamp;
        let ghost mv = message@;
        proof {
            assert(mv == (MessageView {
                offset: (total0 + i) as u64,
                timestamp,
                id: batch[i as int].id,
                payload: batch[i as int].payload,
            }));
            assert(batch.skip(i as int).drop_first() =~= batch.skip(i + 1));
            assert(batch.skip(i as int)[0] == batch[i as int]);
            assert(batch_bytes(batch.skip(i as int)) == spec_encoded_len(batch[i as int])
                + batch_bytes(batch.skip(i + 1)));
            lemma_batch_bytes_bounds(batch.skip(i + 1));
            assert(mv.offset == segment.start_offset + segment.msg_count());
        }
        let cached = message.clone();
        let res = segment.append_message(message);
        proof {
            assert(res.is_ok());
            assert(segment.msgs() =~= aseg.msgs() + assigned(
                batch.take(i + 1),
                total0,
                timestamp,
            ));
        }
        let ghost rc_before = ring_contents(*ring);
        ring_push(ring, cached);
        proof {
            let all = mid_msgs + assigned(batch.take(i + 1), total0, timestamp);
            let rc = ring_contents(*ring);
            assert((mid_msgs + assigned(batch.take(i as int), total0, timestamp)).push(mv)
                =~= all);
            if rc_before.len() < ring_capacity(*ring) {
                assert(rc =~= all.skip(total0 + (i + 1) - rc.len()));
            } else {
                assert(rc =~= all.skip(total0 + (i + 1) - rc.len()));
            }
        }
        i = i + 1;
    }
    proof {
        assert(batch.take(batch.len() as int) =~= batch);
        assert(batch.skip(batch.len() as int) =~= Seq::<MessageView>::empty());
        assert(batch_bytes(Seq::<MessageView>::empty()) == 0);
    }
}

/// Re-establishes the partition invariant after a batch has been assigned,
/// buffered and possibly persisted, and the active segment put back.
#[verifier::rlimit(100)]
#[verifier::spinoff_prover]
proof fn lemma_after_append(
    mid: Partition,
    p: Partition,
    segf: Segment,
    aseg: Segment,
    batch: Seq<MessageView>,
    total0: int,
    timestamp: u64,
)
    requires
        mid.wf(),
        aseg == mid.active(),
        p.segments@ == mid.segments@.drop_last().push(segf),
        p.consumer_offsets == mid.consumer_offsets,
        p.config == mid.config,
        p.id == mid.id,
        total0 == mid.msg_count(),
        total0 + batch.len() <= u64::MAX,
        segf.wf(),
        segf.start_offset == aseg.start_offset,
        segf.max_size_bytes == aseg.max_size_bytes,
        segf.partition_id == aseg.partition_id,
        segf.msgs() == aseg.msgs() + assigned(batch, total0, timestamp),
        segf.is_closed ==> segf.msg_count() > 0,
        p.unsaved_messages_count == segf.unsaved_messages@.len(),
        p.next_offset() == total0 + batch.len(),
        !p.should_increment_offset ==> p.current_offset == 0,
        p.current_offset >= mid.current_offset,
        ring_capacity(p.messages) == mid.config.cache_size_messages,
        ring_contents(p.messages).len() <= ring_capacity(p.messages),
        ring_contents(p.messages).len() <= total0 + batch.len(),
        ring_contents(p.messages) == (mid.msgs() + assigned(batch, total0, timestamp)).skip(
            total0 + batch.len() - ring_contents(p.messages).len(),
        ),
        mid.msg_count() > 0 ==> timestamp >= mid.msgs().last().timestamp,
    ensures
        p.wf(),
        p.msgs() == mid.msgs() + assigned(batch, total0, timestamp),
{
    let ss = p.segments@;
    let n = ss.len() as int;
    mid.lemma_active_current();
    assert(ss.drop_last() =~= mid.segments@.drop_last());
    assert(ss.last() == segf);
    assert(segs_msgs(ss) == segs_msgs(mid.segments@.drop_last()) + segf.msgs());
    assert(mid.msgs() == segs_msgs(mid.segments@.drop_last()) + aseg.msgs());
    assert(p.msgs() =~= mid.msgs() + assigned(batch, total0, timestamp));
    assert forall|i2: int| 0 <= i2 < n implies (#[trigger] ss[i2]).start_offset == segs_msgs(
        ss.take(i2),
    ).len() by {
        assert(ss.take(i2) =~= mid.segments@.take(i2));
        if i2 < n - 1 {
            assert(ss[i2] == mid.segments@[i2]);
        }
    }
    assert forall|i2: int| 0 <= i2 < n implies (#[trigger] ss[i2]).wf() by {
        if i2 < n - 1 {
            assert(ss[i2] == mid.segments@[i2]);
        }
    }
    assert forall|i2: int, j2: int|
        0 <= i2 <= j2 < p.msgs().len() implies (#[trigger] p.msgs()[i2]).timestamp
        <= (#[trigger] p.msgs()[j2]).timestamp by {
        if j2 >= total0 {
            assert(p.msgs()[j2].timestamp == timestamp);
            if i2 < total0 {
                assert(p.msgs()[i2] == mid.msgs()[i2]);
                if total0 > 0 {
                    assert(mid.msgs()[i2].timestamp <= mid.msgs().last().timestamp);
                }
            } else {
                assert(p.msgs()[i2].timestamp == timestamp);
            }
        } else {
            assert(p.msgs()[i2] == mid.msgs()[i2]);
            assert(p.msgs()[j2] == mid.msgs()[j2]);
        }
    }
    assert forall|c: u32| p.consumer_offsets@.contains_key(c) implies (#[trigger] p
        .consumer_offsets@[c]).offset <= p.current_offset by {
        assert(mid.consumer_offsets@[c].offset <= mid.current_offset);
    }
    assert(p.wf());
}

/// A prefix of a run holds no more messages than the run; with segment `i`'s
/// own messages still fitting after it.
pub proof fn lemma_segs_prefix_bound(ss: Seq<Segment>, i: int)
    requires
        0 <= i < ss.len(),
    ensures
        segs_msgs(ss.take(i)).len() + ss[i].msgs().len() <= segs_msgs(ss).len(),
    decreases ss.len() - i,
{
    lemma_segs_msgs_take_succ(ss, i);
    lemma_segs_take_mono(ss, i + 1);
}

/// Taking more segments never loses messages.
pub proof fn lemma_segs_take_mono(ss: Seq<Segment>, j: int)
    requires
        0 <= j <= ss.len(),
    ensures
        segs_msgs(ss.take(j)).len() <= segs_msgs(ss).len(),
    decreases ss.len() - j,
{
    if j == ss.len() {
        assert(ss.take(j) =~= ss);
    } else {
        lemma_segs_msgs_take_succ(ss, j);
        lemma_segs_take_mono(ss, j + 1);
    }
}

/// A run of segments holds the messages of its prefix followed by those of
/// its next segment.
pub proof fn lemma_segs_msgs_take_succ(ss: Seq<Segment>, i: int)
    requires
        0 <= i < ss.len(),
    ensures
        segs_msgs(ss.take(i + 1)) == segs_msgs(ss.take(i)) + ss[i].msgs(),
{
    assert(ss.take(i + 1).drop_last() =~= ss.take(i));
    assert(ss.take(i + 1).last() == ss[i]);
}

} // verus!

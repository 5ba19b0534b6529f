use vstd::prelude::*;
use crate::error::Error;
use crate::index::{
    lemma_offset_index_len, lemma_offset_index_push, lemma_time_index_len, lemma_time_index_push,
    encode_offset_entry_into, encode_time_entry_into, spec_encode_offset_index,
    spec_encode_time_index, OffsetIndexEntry, TimeIndexEntry,
};
use crate::message::{
    encode_message_into, lemma_encode_len, lemma_encode_seq_len, lemma_encode_seq_push,
    lemma_encode_seq_split, msg_views, msg_wf, read_message_at, spec_encode_seq,
    spec_encoded_len, Message, MessageView,
};

verus! {

/// One append-only fragment of a partition's log: the log file, its offset
/// index and its time index (modelled as the exact bytes the files hold),
/// the in-memory index vectors, and a buffer of not-yet-persisted messages.
pub struct Segment {
    pub partition_id: u32,
    pub start_offset: u64,
    pub current_offset: u64,
    pub end_offset: u64,
    pub is_closed: bool,
    pub max_size_bytes: u64,
    pub current_size_bytes: u64,
    pub log_file: Vec<u8>,
    pub index_file: Vec<u8>,
    pub time_index_file: Vec<u8>,
    pub offset_indexes: Vec<OffsetIndexEntry>,
    pub time_indexes: Vec<TimeIndexEntry>,
    pub unsaved_messages: Vec<Message>,
    pub persisted_count: usize,
    pub persisted: Ghost<Seq<MessageView>>,
}

impl Segment {
    /// Every message the segment holds: the persisted records followed by the
    /// buffered ones, in offset order.
    pub open spec fn msgs(self) -> Seq<MessageView> {
        self.persisted@ + msg_views(self.unsaved_messages@)
    }

    pub open spec fn msg_count(self) -> int {
        self.msgs().len() as int
    }

    /// The absolute offset of the last message; one below `start_offset`
    /// when the segment is empty.
    pub open spec fn last_offset(self) -> int {
        self.start_offset + self.msg_count() - 1
    }

    pub open spec fn wf(self) -> bool {
        &&& self.log_file@ == spec_encode_seq(self.persisted@)
        &&& self.index_file@ == spec_encode_offset_index(
            self.offset_indexes@.take(self.persisted@.len() as int),
        )
        &&& self.time_index_file@ == spec_encode_time_index(
            self.time_indexes@.take(self.persisted@.len() as int),
        )
        &&& self.persisted_count == self.persisted@.len()
        &&& self.persisted@.len() <= self.msgs().len()
        &&& self.offset_indexes@.len() == self.msgs().len()
        &&& self.time_indexes@.len() == self.msgs().len()
        &&& self.current_size_bytes == spec_encode_seq(self.msgs()).len()
        &&& self.current_size_bytes <= 0xFFFF_FFFF
        &&& (forall|i: int|
            0 <= i < self.msgs().len() ==> {
                &&& msg_wf(#[trigger] self.msgs()[i])
                &&& self.msgs()[i].offset == self.start_offset + i
                &&& self.offset_indexes@[i].relative_offset == i
                &&& self.offset_indexes@[i].position == spec_encode_seq(
                    self.msgs().take(i),
                ).len()
                &&& self.time_indexes@[i].relative_offset == i
                &&& self.time_indexes@[i].timestamp == self.msgs()[i].timestamp
            })
        &&& (forall|i: int, j: int|
            0 <= i <= j < self.msgs().len() ==> #[trigger] self.msgs()[i].timestamp
                <= #[trigger] self.msgs()[j].timestamp)
        &&& (self.msg_count() == 0 ==> self.current_offset == self.start_offset)
        &&& (self.msg_count() > 0 ==> self.current_offset == self.last_offset())
        &&& (self.is_closed ==> self.end_offset == self.current_offset
            && self.unsaved_messages@.len() == 0)
    }

    /// A well-formed segment cannot hold more messages than records of the
    /// minimum size fit under the 32-bit size bound.
    pub proof fn lemma_count_bound(self)
        requires
            self.wf(),
        ensures
            36 * self.msg_count() <= self.current_size_bytes,
            self.msg_count() < 0x1000_0000,
    {
        lemma_encode_seq_len(self.msgs());
    }

    /// Creates an empty open segment; the three files are empty, no headers
    /// are written.
    pub fn create(partition_id: u32, start_offset: u64, max_size_bytes: u64) -> (s: Segment)
        ensures
            s.wf(),
            s.partition_id == partition_id,
            s.start_offset == start_offset,
            s.current_offset == start_offset,
            s.max_size_bytes == max_size_bytes,
            s.current_size_bytes == 0,
            !s.is_closed,
            s.msgs() == Seq::<MessageView>::empty(),
            s.log_file@ == Seq::<u8>::empty(),
            s.index_file@ == Seq::<u8>::empty(),
            s.time_index_file@ == Seq::<u8>::empty(),
    {
        let s = Segment {
            partition_id,
            start_offset,
            current_offset: start_offset,
            end_offset: 0,
            is_closed: false,
            max_size_bytes,
            current_size_bytes: 0,
            log_file: Vec::new(),
            index_file: Vec::new(),
            time_index_file: Vec::new(),
            offset_indexes: Vec::new(),
            time_indexes: Vec::new(),
            unsaved_messages: Vec::new(),
            persisted_count: 0,
            persisted: Ghost(Seq::empty()),
        };
        proof {
            assert(s.msgs() =~= Seq::<MessageView>::empty());
            assert(s.offset_indexes@.take(0) =~= Seq::<OffsetIndexEntry>::empty());
            assert(s.time_indexes@.take(0) =~= Seq::<TimeIndexEntry>::empty());
        }
        s
    }

    /// The segment is full once its size has reached the configured bound.
    pub fn is_full(&self) -> (r: bool)
        ensures
            r == (self.current_size_bytes >= self.max_size_bytes),
    {
        self.current_size_bytes >= self.max_size_bytes
    }

    /// Buffers `message` and records its offset-index and time-index entries;
    /// no bytes reach the files until `persist_messages`. Fails exactly when
    /// the segment is closed.
    pub fn append_message(&mut self, message: Message) -> (r: Result<(), Error>)
        requires
            old(self).wf(),
            message@.offset == old(self).start_offset + old(self).msg_count(),
            old(self).msg_count() > 0 ==> message@.timestamp
                >= old(self).msgs().last().timestamp,
            msg_wf(message@),
            old(self).current_size_bytes + spec_encoded_len(message@) <= 0xFFFF_FFFF,
        ensures
            r.is_ok() <==> !old(self).is_closed,
            old(self).is_closed ==> r == Result::<(), Error>::Err(Error::SegmentClosed)
                && *final(self) == *old(self),
            !old(self).is_closed ==> {
                &&& final(self).wf()
                &&& final(self).msgs() == old(self).msgs().push(message@)
                &&& final(self).persisted@ == old(self).persisted@
                &&& final(self).persisted_count == old(self).persisted_count
                &&& final(self).log_file@ == old(self).log_file@
                &&& final(self).index_file@ == old(self).index_file@
                &&& final(self).time_index_file@ == old(self).time_index_file@
                &&& final(self).start_offset == old(self).start_offset
                &&& final(self).partition_id == old(self).partition_id
                &&& final(self).max_size_bytes == old(self).max_size_bytes
                &&& final(self).is_closed == old(self).is_closed
                &&& final(self).end_offset == old(self).end_offset
                &&& final(self).current_offset == message@.offset
                &&& final(self).current_size_bytes == old(self).current_size_bytes
                    + spec_encoded_len(message@)
            },
    {
        if self.is_closed {
            return Err(Error::SegmentClosed);
        }
        proof {
            old(self).lemma_count_bound();
            lemma_encode_seq_push(old(self).msgs(), message@);
            lemma_encode_len(message@);
        }
        let relative_offset = (message.offset - self.start_offset) as u32;
        let position = self.current_size_bytes as u32;
        self.offset_indexes.push(OffsetIndexEntry { relative_offset, position });
        self.time_indexes.push(TimeIndexEntry { relative_offset, timestamp: message.timestamp });
        self.current_offset = message.offset;
        self.current_size_bytes = self.current_size_bytes + (36u64 + message.payload.len() as u64);
        self.unsaved_messages.push(message);
        proof {
            let oldm = old(self).msgs();
            let newm = self.msgs();
            assert(newm =~= oldm.push(message@));
            assert(self.offset_indexes@.take(self.persisted@.len() as int) =~= old(
                self,
            ).offset_indexes@.take(self.persisted@.len() as int));
            assert(self.time_indexes@.take(self.persisted@.len() as int) =~= old(
                self,
            ).time_indexes@.take(self.persisted@.len() as int));
            assert forall|i: int| 0 <= i < newm.len() implies {
                &&& msg_wf(#[trigger] newm[i])
                &&& newm[i].offset == self.start_offset + i
                &&& self.offset_indexes@[i].relative_offset == i
                &&& self.offset_indexes@[i].position == spec_encode_seq(newm.take(i)).len()
                &&& self.time_indexes@[i].relative_offset == i
                &&& self.time_indexes@[i].timestamp == newm[i].timestamp
            } by {
                if i < oldm.len() {
                    assert(newm[i] == oldm[i]);
                    assert(newm.take(i) =~= oldm.take(i));
                } else {
                    assert(newm[i] == message@);
                    assert(newm.take(i) =~= oldm);
                }
            }
            assert(self.wf());
        }
        Ok(())
    }

    /// Atomically appends the buffered records to the log file, then the new
    /// offset-index entries, then the new time-index entries, and clears the
    /// buffer. If the segment is full afterwards it is closed, and
    /// `end_offset` is fixed. In this in-memory model the file writes cannot
    /// fail, so the result is always `Ok`.
    #[verifier::rlimit(100)]
    pub fn persist_messages(&mut self) -> (r: Result<(), Error>)
        requires
            old(self).wf(),
        ensures
            r.is_ok(),
            final(self).wf(),
            final(self).msgs() == old(self).msgs(),
            final(self).persisted@ == old(self).msgs(),
            final(self).unsaved_messages@.len() == 0,
            final(self).log_file@ == spec_encode_seq(old(self).msgs()),
            final(self).start_offset == old(self).start_offset,
            final(self).partition_id == old(self).partition_id,
            final(self).max_size_bytes == old(self).max_size_bytes,
            final(self).current_offset == old(self).current_offset,
            final(self).current_size_bytes == old(self).current_size_bytes,
            final(self).offset_indexes@ == old(self).offset_indexes@,
            final(self).time_indexes@ == old(self).time_indexes@,
            final(self).is_closed == (old(self).is_closed || old(self).current_size_bytes
                >= old(self).max_size_bytes),
            final(self).is_closed ==> final(self).end_offset == old(self).current_offset,
            !final(self).is_closed ==> final(self).end_offset == old(self).end_offset,
    {
        proof {
            old(self).lemma_count_bound();
            lemma_offset_index_len(old(self).offset_indexes@.take(old(self).persisted@.len() as int));
            lemma_time_index_len(old(self).time_indexes@.take(old(self).persisted@.len() as int));
            lemma_encode_seq_split(old(self).msgs(), old(self).persisted@.len() as int);
            assert(old(self).msgs().take(old(self).persisted@.len() as int) =~= old(
                self,
            ).persisted@);
            assert(old(self).persisted@ + msg_views(old(self).unsaved_messages@.take(0)) =~= old(
                self,
            ).persisted@);
        }
        let pc = self.persisted_count;
        let n = self.unsaved_messages.len();
        let mut k: usize = 0;
        while k < n
            invariant
                old(self).wf(),
                *self == (Segment {
                    log_file: self.log_file,
                    ..*old(self)
                }),
                n == self.unsaved_messages@.len(),
                pc == self.persisted@.len(),
                k <= n,
                self.log_file@ == spec_encode_seq(
                    self.persisted@ + msg_views(self.unsaved_messages@.take(k as int)),
                ),
                self.log_file@.len() <= self.current_size_bytes,
            decreases n - k,
        {
            let ghost done = self.persisted@ + msg_views(self.unsaved_messages@.take(k as int));
            proof {
                lemma_encode_seq_push(done, self.unsaved_messages@[k as int]@);
                assert(done.push(self.unsaved_messages@[k as int]@) =~= self.persisted@
                    + msg_views(self.unsaved_messages@.take(k + 1)));
                assert(old(self).msgs()[pc + k] == self.unsaved_messages@[k as int]@);
                lemma_encode_seq_split(old(self).msgs(), pc + k + 1);
                assert((old(self).msgs().take(pc + k + 1)) =~= done.push(
                    self.unsaved_messages@[k as int]@,
                ));
                assert(spec_encode_seq(old(self).msgs().take(pc + k + 1)).len()
                    <= spec_encode_seq(old(self).msgs()).len());
                lemma_encode_len(self.unsaved_messages@[k as int]@);
                assert(self.log_file@.len() + spec_encoded_len(self.unsaved_messages@[k as int]@)
                    == spec_encode_seq(old(self).msgs().take(pc + k + 1)).len());
                assert(self.log_file@.len() + spec_encoded_len(self.unsaved_messages@[k as int]@)
                    <= usize::MAX);
            }
            let m = &self.unsaved_messages[k];
            encode_message_into(m, &mut self.log_file);
            k = k + 1;
        }
        proof {
            assert(self.unsaved_messages@.take(n as int) =~= self.unsaved_messages@);
            assert(self.log_file@ == spec_encode_seq(old(self).msgs()));
        }
        let total = self.offset_indexes.len();
        let mut k2: usize = pc;
        while k2 < total
            invariant
                old(self).wf(),
                *self == (Segment {
                    log_file: self.log_file,
                    index_file: self.index_file,
                    ..*old(self)
                }),
                self.log_file@ == spec_encode_seq(old(self).msgs()),
                total == self.offset_indexes@.len(),
                pc == self.persisted@.len(),
                pc <= k2 <= total,
                self.index_file@ == spec_encode_offset_index(
                    self.offset_indexes@.take(k2 as int),
                ),
                self.index_file@.len() == 8 * k2,
            decreases total - k2,
        {
            proof {
                lemma_offset_index_push(
                    self.offset_indexes@.take(k2 as int),
                    self.offset_indexes@[k2 as int],
                );
                assert(self.offset_indexes@.take(k2 as int).push(self.offset_indexes@[k2 as int])
                    =~= self.offset_indexes@.take(k2 + 1));
                self.lemma_count_bound_frame();
            }
            let e = self.offset_indexes[k2];
            encode_offset_entry_into(&e, &mut self.index_file);
            proof {
                lemma_offset_index_len(self.offset_indexes@.take(k2 + 1));
            }
            k2 = k2 + 1;
        }
        let mut k3: usize = pc;
        while k3 < total
            invariant
                old(self).wf(),
                *self == (Segment {
                    log_file: self.log_file,
                    index_file: self.index_file,
                    time_index_file: self.time_index_file,
                    ..*old(self)
                }),
                self.log_file@ == spec_encode_seq(old(self).msgs()),
                self.index_file@ == spec_encode_offset_index(
                    self.offset_indexes@.take(total as int),
                ),
                total == self.offset_indexes@.len(),
                total == self.time_indexes@.len(),
                pc == self.persisted@.len(),
                pc <= k3 <= total,
                self.time_index_file@ == spec_encode_time_index(
                    self.time_indexes@.take(k3 as int),
                ),
                self.time_index_file@.len() == 12 * k3,
            decreases total - k3,
        {
            proof {
                lemma_time_index_push(
                    self.time_indexes@.take(k3 as int),
                    self.time_indexes@[k3 as int],
                );
                assert(self.time_indexes@.take(k3 as int).push(self.time_indexes@[k3 as int])
                    =~= self.time_indexes@.take(k3 + 1));
                self.lemma_count_bound_frame();
            }
            let e = self.time_indexes[k3];
            encode_time_entry_into(&e, &mut self.time_index_file);
            proof {
                lemma_time_index_len(self.time_indexes@.take(k3 + 1));
            }
            k3 = k3 + 1;
        }
        self.persisted = Ghost(self.persisted@ + msg_views(self.unsaved_messages@));
        self.unsaved_messages = Vec::new();
        self.persisted_count = total;
        if self.current_size_bytes >= self.max_size_bytes {
            self.is_closed = true;
            self.end_offset = self.current_offset;
        }
        proof {
            assert(self.msgs() =~= old(self).msgs());
            assert(self.offset_indexes@.take(self.persisted@.len() as int)
                =~= self.offset_indexes@.take(total as int));
            assert(self.time_indexes@.take(self.persisted@.len() as int)
                =~= self.time_indexes@.take(total as int));
            assert forall|i: int| 0 <= i < self.msgs().len() implies {
                &&& msg_wf(#[trigger] self.msgs()[i])
                &&& self.msgs()[i].offset == self.start_offset + i
                &&& self.offset_indexes@[i].relative_offset == i
                &&& self.offset_indexes@[i].position == spec_encode_seq(self.msgs().take(i)).len()
                &&& self.time_indexes@[i].relative_offset == i
                &&& self.time_indexes@[i].timestamp == self.msgs()[i].timestamp
            } by {
                assert(self.msgs()[i] == old(self).msgs()[i]);
                assert(self.msgs().take(i) =~= old(self).msgs().take(i));
            }
            assert(self.wf());
        }
        Ok(())
    }

    /// The messages of this segment whose absolute offsets fall in
    /// `[start, start + count - 1]`, in offset order.
    pub open spec fn spec_slice(self, start: u64, count: u32) -> Seq<MessageView> {
        let lo: int = if start <= self.start_offset {
            0
        } else {
            start - self.start_offset
        };
        let end: int = if start + count as int <= self.start_offset + self.msg_count() {
            start + count as int
        } else {
            self.start_offset + self.msg_count()
        };
        let hi: int = end - self.start_offset;
        if hi <= lo {
            Seq::<MessageView>::empty()
        } else {
            self.msgs().subrange(lo, hi)
        }
    }

    /// Binary search of the offset index: the greatest entry whose absolute
    /// offset `start_offset + relative_offset` does not exceed `requested`,
    /// or the first entry when every entry lies above `requested`.
    #[verifier::loop_isolation(false)]
    #[verifier::rlimit(80)]
    fn index_entry_for(&self, requested: u64) -> (e: OffsetIndexEntry)
        requires
            self.wf(),
            self.msg_count() > 0,
        ensures
            ({
                let want: int = if requested <= self.start_offset {
                    0
                } else if requested - self.start_offset < self.msg_count() {
                    requested - self.start_offset
                } else {
                    self.msg_count() - 1
                };
                e == self.offset_indexes@[want]
            }),
    {
        let ghost want: int = if requested <= self.start_offset {
            0
        } else if requested - self.start_offset < self.msg_count() {
            requested - self.start_offset
        } else {
            self.msg_count() - 1
        };
        let n = self.offset_indexes.len();
        let mut lo: usize = 0;
        let mut hi: usize = n - 1;
        while lo < hi
            invariant
                self.wf(),
                n == self.msg_count(),
                n > 0,
                lo <= hi < n,
                lo <= want <= hi,
            decreases hi - lo,
        {
            let mid = lo + (hi - lo + 1) / 2;
            let rel = self.offset_indexes[mid].relative_offset;
            proof {
                assert(self.msgs()[mid as int].offset == self.start_offset + mid);
                assert(rel == mid);
                assert(self.start_offset + mid <= self.start_offset + (n - 1));
                assert(self.msgs()[n - 1].offset == self.start_offset + (n - 1));
            }
            if self.start_offset + rel as u64 <= requested {
                lo = mid;
            } else {
                hi = mid - 1;
            }
        }
        self.offset_indexes[lo]
    }

    /// Returns the messages whose absolute offsets lie in
    /// `[start_offset, start_offset + count - 1]`, reading persisted records
    /// back from the log file through the offset index and taking still
    /// buffered messages from memory. In this in-memory model reading cannot
    /// fail, so the result is always `Ok`.
    #[verifier::loop_isolation(false)]
    #[verifier::rlimit(100)]
    pub fn get_messages(&self, start_offset: u64, count: u32) -> (r: Result<Vec<Message>, Error>)
        requires
            self.wf(),
        ensures
            r is Ok,
            msg_views(r->Ok_0@) == self.spec_slice(start_offset, count),
    {
        let ghost target = self.spec_slice(start_offset, count);
        let mut out: Vec<Message> = Vec::new();
        let n = self.offset_indexes.len();
        if n == 0 {
            proof {
                assert(msg_views(out@) =~= target);
            }
            return Ok(out);
        }
        if start_offset > self.current_offset {
            proof {
                assert(msg_views(out@) =~= target);
            }
            return Ok(out);
        }
        let entry = self.index_entry_for(start_offset);
        let ghost want: int = if start_offset <= self.start_offset {
            0
        } else if start_offset - self.start_offset < self.msg_count() {
            start_offset - self.start_offset
        } else {
            self.msg_count() - 1
        };
        proof {
            assert(self.msgs()[want].offset == self.start_offset + want);
            assert(entry.relative_offset == want);
        }
        let lo = entry.relative_offset as usize;
        let gap: u64 = if start_offset <= self.start_offset {
            self.start_offset - start_offset
        } else {
            0
        };
        let take: u64 = if (count as u64) <= gap {
            0
        } else {
            count as u64 - gap
        };
        let avail: u64 = (n - lo) as u64;
        let take = if take <= avail {
            take
        } else {
            avail
        };
        let hi = lo + take as usize;
        let ghost loi = lo as int;
        let ghost hii = hi as int;
        proof {
            assert(hii <= n);
            if hii <= loi {
                assert(target =~= Seq::<MessageView>::empty());
            } else {
                assert(target =~= self.msgs().subrange(loi, hii));
            }
        }
        let pc = self.persisted_count;
        let file_hi = if hi < pc {
            hi
        } else {
            pc
        };
        let mut i = lo;
        if i < file_hi {
            let mut pos = self.offset_indexes[i].position as usize;
            proof {
                assert(self.msgs().take(loi) =~= self.persisted@.take(loi));
                assert(msg_views(out@) =~= self.msgs().subrange(loi, loi));
            }
            while i < file_hi
                invariant
                    self.wf(),
                    loi <= i <= file_hi <= pc,
                    file_hi <= hii,
                    pc == self.persisted@.len(),
                    hii <= self.msg_count(),
                    pos == spec_encode_seq(self.persisted@.take(i as int)).len(),
                    msg_views(out@) == self.msgs().subrange(loi, i as int),
                decreases file_hi - i,
            {
                proof {
                    assert(self.msgs()[i as int] == self.persisted@[i as int]);
                    assert(msg_wf(self.msgs()[i as int]));
                }
                let (m, npos) = read_message_at(
                    &self.log_file,
                    pos,
                    Ghost(self.persisted@),
                    Ghost(i as int),
                );
                proof {
                    assert(m@ == self.msgs()[i as int]);
                    assert(self.msgs().subrange(loi, i + 1) =~= self.msgs().subrange(
                        loi,
                        i as int,
                    ).push(self.msgs()[i as int]));
                    assert(msg_views(out@.push(m)) =~= msg_views(out@).push(m@));
                }
                out.push(m);
                pos = npos;
                i = i + 1;
            }
        }
        proof {
            assert(msg_views(out@) =~= self.msgs().subrange(loi, i as int));
        }
        while i < hi
            invariant
                self.wf(),
                loi <= i <= hii <= self.msg_count(),
                i < hii ==> i >= self.persisted@.len(),
                pc == self.persisted@.len(),
                msg_views(out@) == self.msgs().subrange(loi, i as int),
            decreases hi - i,
        {
            proof {
                assert(self.msgs()[i as int] == msg_views(self.unsaved_messages@)[i
                    - self.persisted@.len()]);
            }
            let m = self.unsaved_messages[i - pc].clone();
            proof {
                assert(m@ == self.msgs()[i as int]);
                assert(self.msgs().subrange(loi, i + 1) =~= self.msgs().subrange(
                    loi,
                    i as int,
                ).push(self.msgs()[i as int]));
                assert(msg_views(out@.push(m)) =~= msg_views(out@).push(m@));
            }
            out.push(m);
            i = i + 1;
        }
        proof {
            if hii <= loi {
                assert(msg_views(out@) =~= target);
            }
        }
        Ok(out)
    }

    /// The size bound of `wf`, phrased for use in loop bodies where only some
    /// fields have changed.
    proof fn lemma_count_bound_frame(self)
        requires
            self.offset_indexes@.len() == self.msgs().len(),
            self.time_indexes@.len() == self.msgs().len(),
            spec_encode_seq(self.msgs()).len() <= 0xFFFF_FFFF,
        ensures
            8 * self.offset_indexes@.len() <= usize::MAX,
            12 * self.time_indexes@.len() <= usize::MAX,
    {
        lemma_encode_seq_len(self.msgs());
    }
}

} // verus!

//! A ring buffer owned by one thread. Its region is a data area of
//! `capacity / 8` little-endian words and a trailer of counters; a producer
//! and a consumer take turns on it through `&mut self`.
use vstd::prelude::*;
use crate::layout::{
    classify_header, Slot, align, encode_header, header_word, invalid_msg_type_id,
    index_of, is_capacity_valid, length_of, max_message_length, payload_word_of, word_byte,
    byte_of, payload_word, lemma_payload_byte, lemma_payload_word_past_end,
    lemma_header_round_trip, ALIGNMENT, CONSUMER_HEARTBEAT_OFFSET, CORRELATION_COUNTER_OFFSET,
    HEAD_CACHE_POSITION_OFFSET, HEAD_POSITION_OFFSET, MAX_CAPACITY, MIN_CAPACITY,
    PADDING_MSG_TYPE_ID, RECORD_HEADER_LENGTH, TAIL_POSITION_OFFSET, TRAILER_LENGTH, WORD_LENGTH,
};
use crate::model::{
    messages, message_record, padding_record, padding_for, required_for, scan, total_span, fits, Record, RingBufferError, RingState,
};
use crate::words::{
    free_zero, laid_out, offset, record_at, record_word, lemma_laid_out_append,
    lemma_laid_out_frame, lemma_offset_shift, lemma_offset_word, lemma_word_offset,
};
use crate::claim::{claim_outcome, claim_padding};
use crate::shared::{Region, Receiver, Sender};
use std::sync::Arc;
use crate::laws::{
    lemma_claim_room, lemma_index_add, lemma_index_wrap, lemma_positions,
    lemma_receive_takes_prefix, lemma_send_appends, lemma_span, lemma_stale_head,
    lemma_total_span_aligned, };

verus! {

/// Words in the trailer.
pub const TRAILER_WORDS: usize = TRAILER_LENGTH / WORD_LENGTH;

/// Index of each counter among the trailer's words.
pub const TAIL_WORD: usize = TAIL_POSITION_OFFSET / WORD_LENGTH;
pub const HEAD_CACHE_WORD: usize = HEAD_CACHE_POSITION_OFFSET / WORD_LENGTH;
pub const HEAD_WORD: usize = HEAD_POSITION_OFFSET / WORD_LENGTH;
pub const CORRELATION_WORD: usize = CORRELATION_COUNTER_OFFSET / WORD_LENGTH;
pub const HEARTBEAT_WORD: usize = CONSUMER_HEARTBEAT_OFFSET / WORD_LENGTH;

/// The producer's transitions of a header's length field: an empty slot is
/// reserved with a negative length, and a reserved slot is committed with the
/// opposite, positive length.
pub open spec fn header_step(before: i32, after: i32) -> bool {
    (before == 0 && after < 0) || (before < 0 && after as int == -(before as int))
}

/// The messages of a received vector, as values.
pub open spec fn message_views(v: Seq<(i32, Vec<u8>)>) -> Seq<(i32, Seq<u8>)> {
    v.map_values(|m: (i32, Vec<u8>)| (m.0, m.1@))
}

/// A ring buffer owned by one thread. Its view is the state of the model: the
/// capacity, the head and tail positions (kept in the trailer) and the records
/// between them, which the data words hold as the layout of `words` describes.
pub struct RingBuffer {
    data: Vec<u64>,
    trailer: Vec<u64>,
    capacity: usize,
    max_message_length: usize,
    records: Ghost<Seq<Record>>,
}

impl View for RingBuffer {
    type V = RingState;

    closed spec fn view(&self) -> RingState {
        RingState {
            capacity: self.capacity as int,
            head: self.trailer@[HEAD_WORD as int] as int,
            tail: self.trailer@[TAIL_WORD as int] as int,
            records: self.records@,
        }
    }
}

/// A vector of `n` zero words.
fn zeroed(n: usize) -> (r: Vec<u64>)
    ensures
        r@.len() == n,
        forall|i: int| 0 <= i < n ==> r@[i] == 0,
{
    vec![0u64; n]
}

/// Sets every word of `v` to zero.
fn clear_words(v: &mut Vec<u64>)
    ensures
        final(v)@.len() == old(v)@.len(),
        forall|i: int| 0 <= i < final(v)@.len() ==> final(v)@[i] == 0,
{
    let mut i: usize = 0;
    while i < v.len()
        invariant
            i <= v@.len(),
            v@.len() == old(v)@.len(),
            forall|j: int| 0 <= j < i ==> v@[j] == 0,
        decreases v@.len() - i,
    {
        v.set(i, 0);
        i = i + 1;
    }
}

/// Stores a record header. Only the producer's transitions are possible: an
/// empty slot is reserved, and a reserved slot is committed.
fn store_header(data: &mut Vec<u64>, w: usize, length: i32, msg_type_id: i32)
    requires
        w < old(data)@.len(),
        header_step(length_of(old(data)@[w as int]), length),
    ensures
        final(data)@ == old(data)@.update(w as int, header_word(length, msg_type_id)),
{
    let word = encode_header(length, msg_type_id);
    data.set(w, word);
}

/// Writes a message record at word `w` of an empty slot: reserves the slot,
/// copies the payload, then commits the header.
fn put_record(data: &mut Vec<u64>, w: usize, record_length: usize, msg_type_id: i32, msg: &[u8])
    requires
        record_length == msg@.len() + RECORD_HEADER_LENGTH,
        record_length <= i32::MAX,
        w + required_for(msg@.len() as int) / 8 <= old(data)@.len(),
        old(data)@[w as int] == 0,
    ensures
        final(data)@.len() == old(data)@.len(),
        forall|x: int|
            0 <= x < old(data)@.len() && !(w <= x < w + required_for(msg@.len() as int) / 8)
                ==> #[trigger] final(data)@[x] == old(data)@[x],
        forall|k: int|
            0 <= k < required_for(msg@.len() as int) / 8 ==> #[trigger] final(data)@[w + k] == record_word(
                message_record(msg_type_id, msg@),
                k,
            ),
{
    let ghost m = message_record(msg_type_id, msg@);
    let ghost start = data@;
    proof {
        assert(0u64 as u32 as i32 == 0) by (bit_vector);
    }
    let reserved: i32 = -(record_length as i32);
    store_header(data, w, reserved, 0);
    proof {
        lemma_header_round_trip(reserved, 0);
    }
    proof {
        crate::layout::lemma_alignment_pow2();
    }
    let words = (align(record_length as u64, ALIGNMENT as u64) / 8) as usize;
    proof {
        vstd::arithmetic::div_mod::lemma_fundamental_div_mod(record_length + 7, 8);
        vstd::arithmetic::div_mod::lemma_fundamental_div_mod(
            ((record_length + 7) / 8) * 8,
            8,
        );
        crate::layout::lemma_align_up_laws(record_length as int, record_length as int, 8);
    }
    let len = data.len();
    let mut k: usize = 1;
    while k < words
        invariant
            1 <= k <= words,
            data@.len() == len,
            words as int == required_for(msg@.len() as int) / 8,
            8 * words <= record_length + 7,
            record_length <= i32::MAX,
            w + words <= data@.len(),
            data@.len() == start.len(),
            data@[w as int] == header_word(reserved, 0),
            forall|x: int| 0 <= x < start.len() && !(w < x < w + k) && x != w ==> #[trigger] data@[x] == start[x],
            forall|j: int| 1 <= j < k ==> #[trigger] data@[w + j] == payload_word(msg@, j - 1),
        decreases words - k,
    {
        let word = payload_word_of(msg, k - 1);
        data.set(w + k, word);
        k = k + 1;
    }
    store_header(data, w, record_length as i32, msg_type_id);
    proof {
        assert forall|j: int| 0 <= j < words implies #[trigger] data@[w + j] == record_word(m, j) by {
        }
    }
}

/// The `len` payload bytes stored from word `first` on.
pub(crate) fn read_payload(data: &Vec<u64>, first: usize, len: usize) -> (r: Vec<u8>)
    requires
        first + (len + 7) / 8 <= data@.len(),
    ensures
        r@.len() == len,
        forall|i: int| 0 <= i < len ==> #[trigger] r@[i] == byte_of(data@[first + i / 8], i % 8),
{
    let mut out: Vec<u8> = Vec::with_capacity(len);
    let n = data.len();
    let mut i: usize = 0;
    while i < len
        invariant
            i <= len,
            data@.len() == n,
            first + (len + 7) / 8 <= data@.len(),
            out@.len() == i,
            forall|j: int| 0 <= j < i ==> #[trigger] out@[j] == byte_of(data@[first + j / 8], j % 8),
        decreases len - i,
    {
        proof {
            vstd::arithmetic::div_mod::lemma_div_is_ordered(i as int, len - 1, 8);
            vstd::arithmetic::div_mod::lemma_fundamental_div_mod(len as int + 7, 8);
            vstd::arithmetic::div_mod::lemma_fundamental_div_mod(len as int - 1, 8);
        }
        let word = data[first + i / 8];
        out.push(word_byte(word, (i % 8) as u64));
        i = i + 1;
    }
    out
}

/// Sets the words from `from` up to `to` to zero.
fn zero_words(data: &mut Vec<u64>, from: usize, to: usize)
    requires
        from <= to <= old(data)@.len(),
    ensures
        final(data)@.len() == old(data)@.len(),
        forall|x: int| 0 <= x < old(data)@.len() ==> #[trigger] final(data)@[x] == (if from <= x < to {
            0
        } else {
            old(data)@[x]
        }),
{
    let mut x: usize = from;
    while x < to
        invariant
            from <= x <= to,
            to <= old(data)@.len(),
            data@.len() == old(data)@.len(),
            forall|y: int| 0 <= y < old(data)@.len() ==> #[trigger] data@[y] == (if from <= y < x {
                0
            } else {
                old(data)@[y]
            }),
        decreases to - x,
    {
        data.set(x, 0);
        x = x + 1;
    }
}

impl RingBuffer {
    /// The head cache: the producers' last look at the head position.
    pub closed spec fn head_cache(&self) -> int {
        self.trailer@[HEAD_CACHE_WORD as int] as int
    }

    pub closed spec fn correlation(&self) -> i64 {
        self.trailer@[CORRELATION_WORD as int] as i64
    }

    pub closed spec fn heartbeat(&self) -> i64 {
        self.trailer@[HEARTBEAT_WORD as int] as i64
    }

    pub closed spec fn wf(&self) -> bool {
        let s = self@;
        let cap = self.capacity as int;
        &&& s.wf()
        &&& self.data@.len() == cap / 8
        &&& self.trailer@.len() == TRAILER_WORDS
        &&& self.max_message_length as int == s.max_message_length()
        &&& 0 <= self.head_cache() <= s.head
        &&& s.tail - self.head_cache() <= cap
        &&& laid_out(self.data@, cap, s.head, s.records)
        &&& free_zero(self.data@, cap, s.head, s.tail)
    }

    /// An empty ring buffer over freshly zeroed words.
    fn from_zeroed(data: Vec<u64>, trailer: Vec<u64>, capacity: usize) -> (r: RingBuffer)
        requires
            crate::layout::capacity_ok(capacity as int, MIN_CAPACITY as int),
            data@.len() == capacity / 8,
            trailer@.len() == TRAILER_WORDS,
            forall|i: int| 0 <= i < data@.len() ==> data@[i] == 0,
            forall|i: int| 0 <= i < trailer@.len() ==> trailer@[i] == 0,
        ensures
            r.wf(),
            r@ == (RingState { capacity: capacity as int, head: 0, tail: 0, records: Seq::empty() }),
            r.head_cache() == 0,
            r.correlation() == 0,
            r.heartbeat() == 0,
    {
        let r = RingBuffer {
            data,
            trailer,
            capacity,
            max_message_length: max_message_length(capacity, MIN_CAPACITY),
            records: Ghost(Seq::empty()),
        };
        proof {
            assert(fits(capacity as int, 0, Seq::<Record>::empty()));
            assert(total_span(Seq::<Record>::empty()) == 0);
            assert(laid_out(r.data@, capacity as int, 0, Seq::<Record>::empty()));
        }
        r
    }

    /// A ring buffer with a data area of `capacity` bytes, all of it zero.
    pub fn new(capacity: usize) -> (r: Result<RingBuffer, RingBufferError>)
        ensures
            r is Ok <==> crate::layout::capacity_ok(capacity as int, MIN_CAPACITY as int),
            r is Err ==> r == Err::<RingBuffer, RingBufferError>(RingBufferError::InvalidCapacity),
            r matches Ok(b) ==> b.wf() && b@ == (RingState {
                capacity: capacity as int,
                head: 0,
                tail: 0,
                records: Seq::empty(),
            }) && b.head_cache() == 0 && b.correlation() == 0 && b.heartbeat() == 0,
    {
        if !is_capacity_valid(capacity, MIN_CAPACITY) {
            return Err(RingBufferError::InvalidCapacity);
        }
        let data = zeroed(capacity / WORD_LENGTH);
        let trailer = zeroed(TRAILER_WORDS);
        Ok(RingBuffer::from_zeroed(data, trailer, capacity))
    }

    /// A ring buffer over `region`: its data area followed by its trailer. The
    /// counters and the data area are set to zero.
    pub fn from_memory(region: Vec<u64>) -> (r: Result<RingBuffer, RingBufferError>)
        ensures
            r is Ok <==> (region@.len() >= TRAILER_WORDS && crate::layout::capacity_ok(
                (region@.len() - TRAILER_WORDS) * WORD_LENGTH,
                MIN_CAPACITY as int,
            ) && (region@.len() - TRAILER_WORDS) * WORD_LENGTH <= usize::MAX),
            r is Err ==> r == Err::<RingBuffer, RingBufferError>(RingBufferError::InvalidCapacity),
            r matches Ok(b) ==> b.wf() && b@ == (RingState {
                capacity: (region@.len() - TRAILER_WORDS) * WORD_LENGTH,
                head: 0,
                tail: 0,
                records: Seq::empty(),
            }) && b.head_cache() == 0 && b.correlation() == 0 && b.heartbeat() == 0,
    {
        if region.len() < TRAILER_WORDS {
            return Err(RingBufferError::InvalidCapacity);
        }
        let data_words = region.len() - TRAILER_WORDS;
        if data_words > usize::MAX / WORD_LENGTH || data_words as u64 > MAX_CAPACITY / 8 {
            return Err(RingBufferError::InvalidCapacity);
        }
        let capacity = data_words * WORD_LENGTH;
        if !is_capacity_valid(capacity, MIN_CAPACITY) {
            return Err(RingBufferError::InvalidCapacity);
        }
        let mut data = region;
        let mut trailer = data.split_off(data_words);
        clear_words(&mut data);
        clear_words(&mut trailer);
        Ok(RingBuffer::from_zeroed(data, trailer, capacity))
    }
}


impl RingBuffer {
    /// Claims the space for a record of `record_length` bytes: advances the
    /// tail past it, after a padding record where it would run past the end of
    /// the data area. Returns the index at which the record goes.
    fn claim_capacity(&mut self, record_length: usize) -> (r: Result<usize, RingBufferError>)
        requires
            old(self).wf(),
            RECORD_HEADER_LENGTH <= record_length <= old(self).max_message_length + RECORD_HEADER_LENGTH,
        ensures
            ({
                let s = old(self)@;
                let cap = s.capacity;
                let req = required_for(record_length - RECORD_HEADER_LENGTH);
                let pad = padding_for(cap, s.tail, req);
                &&& r is Ok <==> claim_outcome(cap, s.head, s.tail, req) is Some
                &&& final(self).capacity == old(self).capacity
                &&& final(self).max_message_length == old(self).max_message_length
                &&& final(self).records == old(self).records
                &&& r is Err ==> r == Err::<usize, RingBufferError>(RingBufferError::InsufficientCapacity)
                    && final(self).data == old(self).data && final(self).trailer == old(self).trailer
                &&& r matches Ok(idx) ==> {
                    &&& claim_outcome(cap, s.head, s.tail, req) == Some(pad)
                    &&& idx == (if pad > 0 { 0 } else { s.tail % cap })
                    &&& final(self).data@ == (if pad > 0 {
                        old(self).data@.update((s.tail % cap) / 8, header_word(pad as i32, PADDING_MSG_TYPE_ID))
                    } else {
                        old(self).data@
                    })
                    &&& final(self).trailer@.len() == TRAILER_WORDS
                    &&& final(self).trailer@[TAIL_WORD as int] == s.tail + pad + req
                    &&& forall|i: int| 0 <= i < TRAILER_WORDS && i != TAIL_WORD && i != HEAD_CACHE_WORD
                        ==> #[trigger] final(self).trailer@[i] == old(self).trailer@[i]
                    &&& final(self).head_cache() == old(self).head_cache() || final(self).head_cache() == s.head
                    &&& s.tail + pad + req - final(self).head_cache() <= cap
                }
            }),
    {
        let ghost s = self@;
        let ghost req = required_for(record_length - RECORD_HEADER_LENGTH);
        proof {
            lemma_positions(s);
            crate::layout::lemma_alignment_pow2();
            crate::layout::lemma_align_up_laws(record_length as int, self.capacity as int, ALIGNMENT as int);
            crate::layout::lemma_align_up_exact(self.capacity as int, ALIGNMENT as int);
        }
        let required: u64 = align(record_length as u64, ALIGNMENT as u64);
        let capacity = self.capacity as u64;
        let tail: u64 = self.trailer[TAIL_WORD];
        let mut head: u64 = self.trailer[HEAD_CACHE_WORD];
        let padding: u64 = match claim_padding(capacity, required, tail, head) {
            Some(p) => {
                proof {
                    lemma_stale_head(s.capacity, head as int, s.head, s.tail, req);
                    lemma_claim_room(s.capacity, head as int, s.tail, req);
                }
                p
            },
            None => {
                head = self.trailer[HEAD_WORD];
                match claim_padding(capacity, required, tail, head) {
                    Some(p) => {
                        self.trailer.set(HEAD_CACHE_WORD, head);
                        proof {
                            lemma_claim_room(s.capacity, s.head, s.tail, req);
                        }
                        p
                    },
                    None => {
                        return Err(RingBufferError::InsufficientCapacity);
                    },
                }
            },
        };
        let tail_index = index_of(tail, capacity);
        self.trailer.set(TAIL_WORD, tail + padding + required);
        if padding != 0 {
            let w = (tail_index / 8) as usize;
            proof {
                lemma_word_offset(s.capacity, s.head, s.tail, 0);
                assert(0u64 as u32 as i32 == 0) by (bit_vector);
            }
            let reserved: i32 = -(padding as i32);
            store_header(&mut self.data, w, reserved, 0);
            proof {
                lemma_header_round_trip(reserved, 0);
            }
            store_header(&mut self.data, w, padding as i32, PADDING_MSG_TYPE_ID);
            Ok(0)
        } else {
            Ok(tail_index as usize)
        }
    }
}

impl RingBuffer {
    /// Sends a message of type `msg_type_id` (at least one) and payload `msg`
    /// (at most the maximum message length): claims its space, reserves its
    /// header, copies the payload and commits the header.
    pub fn write(&mut self, msg_type_id: i32, msg: &[u8]) -> (r: Result<(), RingBufferError>)
        requires
            old(self).wf(),
        ensures
            final(self).wf(),
            r == old(self)@.send_outcome(msg_type_id, msg@),
            final(self)@ == old(self)@.send(msg_type_id, msg@),
            final(self).head_cache() == old(self).head_cache() || final(self).head_cache() == old(self)@.head,
            final(self).correlation() == old(self).correlation(),
            final(self).heartbeat() == old(self).heartbeat(),
    {
        if msg.len() > self.max_message_length {
            return Err(RingBufferError::MessageTooLong);
        }
        if invalid_msg_type_id(msg_type_id) {
            return Err(RingBufferError::InvalidMessageTypeId);
        }
        let record_length: usize = msg.len() + RECORD_HEADER_LENGTH;
        let ghost s = self@;
        let ghost old_data = self.data@;
        let ghost cap = s.capacity;
        let ghost req = required_for(msg@.len() as int);
        let ghost pad = padding_for(cap, s.tail, req);
        let ghost ti = s.tail % cap;
        let record_index = match self.claim_capacity(record_length) {
            Ok(i) => i,
            Err(e) => {
                return Err(e);
            },
        };
        let ghost mid_data = self.data@;
        let ghost m = message_record(msg_type_id, msg@);
        let ghost t = s.after_send(msg_type_id, msg@);
        let ghost w = (record_index / WORD_LENGTH) as int;
        proof {
            lemma_positions(s);
            lemma_send_appends(s, msg_type_id, msg@);
            lemma_claim_room(cap, s.head, s.tail, req);
            crate::layout::lemma_align_up_laws(record_length as int, record_length as int, 8);
            crate::laws::lemma_window(cap, s.head, s.tail);
            if pad > 0 {
                lemma_index_wrap(cap, s.tail);
            }
            lemma_word_offset(cap, s.head, s.tail + pad, 0);
            lemma_word_offset(cap, s.head, s.tail, 0);
            assert(w == ((s.tail + pad) % cap) / 8);
            vstd::arithmetic::div_mod::lemma_fundamental_div_mod(req, 8);
            vstd::arithmetic::div_mod::lemma_fundamental_div_mod(cap, 8);
            assert(w + req / 8 <= cap / 8);
        }
        put_record(&mut self.data, record_index / WORD_LENGTH, record_length, msg_type_id, msg);
        self.records = Ghost(t.records);
        proof {
            let d = self.data@;
            let nw = req / 8;
            // Every word that changed lies after the tail, in the space just claimed.
            assert forall|x: int| 0 <= x < d.len() && !(s.tail - s.head <= #[trigger] offset(x, s.head, cap) < t.tail - s.head)
                implies d[x] == old_data[x] by {
                if w <= x < w + nw {
                    lemma_word_offset(cap, s.head, s.tail + pad, x - w);
                }
                if pad > 0 && x == ti / 8 {
                }
            }
            lemma_laid_out_frame(old_data, d, cap, s.head, s.records);
            assert(record_at(d, cap, s.tail + pad, m));
            let tail_part = if pad > 0 { seq![padding_record(pad), m] } else { seq![m] };
            assert(t.records =~= s.records + tail_part);
            assert(seq![m].drop_first() =~= Seq::<Record>::empty());
            assert(laid_out(d, cap, s.tail + pad + req, Seq::<Record>::empty()));
            assert(seq![m][0] == m);
            assert(laid_out(d, cap, s.tail + pad, seq![m]));
            if pad > 0 {
                let pr = padding_record(pad);
                crate::layout::lemma_align_up_exact(pad, 8);
                assert(pr.span() == pad);
                assert forall|k: int| 0 <= k < pr.span() / 8 implies #[trigger] d[(s.tail % cap) / 8 + k] == record_word(pr, k) by {
                    lemma_word_offset(cap, s.head, s.tail, k);
                    let x = (s.tail % cap) / 8 + k;
                    assert(x >= w + nw);
                    if k > 0 {
                        lemma_payload_word_past_end(Seq::<u8>::empty(), k - 1);
                        assert(old_data[x] == 0);
                    }
                }
                assert(record_at(d, cap, s.tail, pr));
                assert(seq![pr, m].drop_first() =~= seq![m]);
                assert(seq![pr, m][0] == pr);
                assert(laid_out(d, cap, s.tail, seq![pr, m]));
                assert(total_span(s.records) == s.tail - s.head);
            }
            lemma_laid_out_append(d, cap, s.head, s.records, tail_part);
            assert forall|x: int| 0 <= x < d.len() && #[trigger] offset(x, s.head, cap) >= t.tail - s.head implies d[x] == 0 by {
                assert(d[x] == old_data[x]);
            }
        }
        Ok(())
    }
}

/// What the consumer finds at `b` bytes past the head, after `j` records.
proof fn lemma_scan_step(d: Seq<u64>, s: RingState, j: int, b: int)
    requires
        s.wf(),
        d.len() == s.capacity / 8,
        free_zero(d, s.capacity, s.head, s.tail),
        0 <= j <= s.records.len(),
        b == total_span(s.records.take(j)),
        b % 8 == 0,
        0 <= b < s.capacity - s.head % s.capacity,
        laid_out(d, s.capacity, s.head + b, s.records.skip(j)),
        fits(s.capacity, s.head + b, s.records.skip(j)),
    ensures
        (s.head % s.capacity + b) / 8 < d.len(),
        (s.head % s.capacity + b) % 8 == 0,
        j == s.records.len() ==> length_of(d[(s.head % s.capacity + b) / 8]) == 0,
        j < s.records.len() ==> ({
            let q = s.records;
            let r = q[j];
            let w = (s.head % s.capacity + b) / 8;
            &&& r.wf()
            &&& d[w] == header_word(r.length as i32, r.msg_type_id)
            &&& r.length as i32 as int == r.length
            &&& 8 <= r.length <= r.span()
            &&& r.span() % 8 == 0
            &&& b + r.span() <= s.capacity - s.head % s.capacity
            &&& w + r.span() / 8 <= d.len()
            &&& total_span(q.take(j + 1)) == b + r.span()
            &&& messages(q.take(j + 1)) == (if r.is_padding() {
                messages(q.take(j))
            } else {
                messages(q.take(j)).push(r.message())
            })
            &&& laid_out(d, s.capacity, s.head + b + r.span(), q.skip(j + 1))
            &&& fits(s.capacity, s.head + b + r.span(), q.skip(j + 1))
            &&& q.skip(j).drop_first() == q.skip(j + 1)
            &&& q.skip(j)[0] == r
            &&& forall|k: int| 0 <= k < r.span() / 8 ==> #[trigger] d[w + k] == record_word(r, k)
        }),
{
    let q = s.records;
    let cap = s.capacity;
    let pos = s.head + b;
    lemma_positions(s);
    lemma_index_add(cap, s.head, b);
    lemma_word_offset(cap, s.head, pos, 0);
    vstd::arithmetic::div_mod::lemma_fundamental_div_mod(cap, 8);
    lemma_total_span_aligned(q);
    assert(q =~= q.take(j) + q.skip(j));
    crate::laws::lemma_total_span_append(q.take(j), q.skip(j));
    if j < q.len() {
        let r = q[j];
        let rest = q.skip(j);
        assert(rest[0] == r);
        assert(record_at(d, cap, pos, r));
        assert(d[(pos % cap) / 8 + 0] == record_word(r, 0));
        lemma_span(r);
        assert(rest.drop_first() =~= q.skip(j + 1));
        assert(q.take(j + 1).drop_last() =~= q.take(j));
        assert(q.take(j + 1).last() == r);
        vstd::arithmetic::div_mod::lemma_fundamental_div_mod(r.span(), 8);
        assert forall|k: int| 0 <= k < r.span() / 8 implies #[trigger] d[(s.head % cap + b) / 8 + k] == record_word(r, k) by {
            assert(d[(pos % cap) / 8 + k] == record_word(r, k));
        }
    } else {
        assert(offset((s.head % cap + b) / 8, s.head, cap) == b);
        assert(0u64 as u32 as i32 == 0) by (bit_vector);
    }
}

/// After zeroing the `b` bytes that follow the head, the remaining records are
/// still laid out from the new head, and every other word is zero.
#[verifier::spinoff_prover]
#[verifier::rlimit(40)]
proof fn lemma_consumed_zeroed(d: Seq<u64>, d2: Seq<u64>, s: RingState, n: int, b: int)
    requires
        s.wf(),
        d.len() == s.capacity / 8,
        d2.len() == d.len(),
        free_zero(d, s.capacity, s.head, s.tail),
        0 <= n <= s.records.len(),
        b == total_span(s.records.take(n)),
        b % 8 == 0,
        0 < b <= s.capacity - s.head % s.capacity,
        laid_out(d, s.capacity, s.head + b, s.records.skip(n)),
        forall|x: int| 0 <= x < d.len() ==> #[trigger] d2[x] == (if (s.head % s.capacity) / 8 <= x < (s.head
            % s.capacity + b) / 8 {
            0
        } else {
            d[x]
        }),
    ensures
        laid_out(d2, s.capacity, s.head + b, s.records.skip(n)),
        free_zero(d2, s.capacity, s.head + b, s.tail),
{
    let q = s.records;
    let cap = s.capacity;
    let hi = s.head % cap;
    let head = s.head;
    lemma_positions(s);
    lemma_total_span_aligned(q);
    assert(q =~= q.take(n) + q.skip(n));
    crate::laws::lemma_total_span_append(q.take(n), q.skip(n));
    crate::laws::lemma_fits_append(cap, head, q.take(n), q.skip(n));
    assert forall|i: int| 0 <= i < q.skip(n).len() implies (#[trigger] q.skip(n)[i]).wf() by {
        assert(q.skip(n)[i] == q[i + n]);
    }
    vstd::arithmetic::div_mod::lemma_fundamental_div_mod(cap, 8);
    vstd::arithmetic::div_mod::lemma_fundamental_div_mod(hi, 8);
    assert forall|x: int| 0 <= x < d.len() && #[trigger] offset(x, head + b, cap) < total_span(q.skip(n))
        implies d2[x] == d[x] by {
        if hi / 8 <= x < (hi + b) / 8 {
            lemma_word_offset(cap, head, head, x - hi / 8);
            lemma_offset_shift(cap, x, head, b);
        }
    }
    lemma_laid_out_frame(d, d2, cap, head + b, q.skip(n));
    assert forall|x: int| 0 <= x < d2.len() && #[trigger] offset(x, head + b, cap) >= s.tail - (head + b)
        implies d2[x] == 0 by {
        if !(hi / 8 <= x < (hi + b) / 8) {
            lemma_offset_shift(cap, x, head, b);
            if offset(x, head + b, cap) + b >= cap {
                lemma_offset_word(cap, head, x);
                assert(false);
            } else {
                assert(offset(x, head, cap) >= s.tail - head);
            }
        }
    }
}

impl RingBuffer {
    /// Collects the messages of the records that follow the head: up to
    /// `message_count_limit` of them, no further than the end of the data area,
    /// and no further than an empty or reserved slot. Returns them with the
    /// number of bytes scanned.
    #[verifier::rlimit(60)]
    #[verifier::spinoff_prover]
    fn collect(&self, head_index: usize, message_count_limit: usize) -> (r: (Vec<(i32, Vec<u8>)>, usize))
        requires
            self.wf(),
            head_index == self@.head % self@.capacity,
        ensures
            message_views(r.0@) == self@.received(message_count_limit as nat),
            r.1 as int == total_span(self@.records.take(self@.consumed(message_count_limit as nat) as int)),
    {
        let ghost s = self@;
        let ghost q = s.records;
        let ghost cap = s.capacity;
        let ghost d = self.data@;
        let ghost limit = message_count_limit as nat;
        proof {
            lemma_positions(s);
        }
        let contiguous_block_length: usize = self.capacity - head_index;
        let mut messages_read: usize = 0;
        let mut bytes_read: usize = 0;
        let mut stalled = false;
        let mut received: Vec<(i32, Vec<u8>)> = Vec::new();
        let ghost mut j: int = 0;
        proof {
            assert(q.skip(0) =~= q);
            assert(q.take(0) =~= Seq::<Record>::empty());
        }
        while !stalled && bytes_read < contiguous_block_length && messages_read < message_count_limit
            invariant
                self.data@ == d,
                q == s.records,
                limit == message_count_limit as nat,
                s.wf(),
                cap == self.capacity,
                cap == s.capacity,
                d.len() == cap / 8,
                free_zero(d, cap, s.head, s.tail),
                head_index == s.head % cap,
                head_index % 8 == 0,
                cap % 8 == 0,
                cap <= MAX_CAPACITY,
                contiguous_block_length == cap - head_index,
                0 <= j <= q.len(),
                bytes_read as int == total_span(q.take(j)),
                bytes_read <= contiguous_block_length,
                bytes_read % 8 == 0,
                messages_read as int == messages(q.take(j)).len(),
                messages_read <= message_count_limit,
                message_views(received@) == messages(q.take(j)),
                s.consumed(limit) == j + scan(
                    q.skip(j),
                    contiguous_block_length - bytes_read,
                    (limit - messages_read) as nat,
                ),
                laid_out(d, cap, s.head + bytes_read, q.skip(j)),
                fits(cap, s.head + bytes_read, q.skip(j)),
                stalled ==> j == q.len(),
            decreases contiguous_block_length - bytes_read + (if stalled { 0int } else { 1int }),
        {
            let record_index: usize = head_index + bytes_read;
            proof {
                lemma_scan_step(d, s, j, bytes_read as int);
                crate::layout::lemma_alignment_pow2();
            }
            let word = self.data[record_index / WORD_LENGTH];
            proof {
                if j < q.len() {
                    lemma_header_round_trip(q[j].length as i32, q[j].msg_type_id);
                }
                assert(0u64 as u32 as i32 == 0) by (bit_vector);
            }
            match classify_header(word, contiguous_block_length - bytes_read) {
                Slot::Stop => {
                    stalled = true;
                },
                Slot::Padding { span } => {
                    bytes_read = bytes_read + span;
                    proof {
                        j = j + 1;
                    }
                },
                Slot::Message { msg_type_id, length, span } => {
                    let ghost r = q[j];
                    let first = record_index / WORD_LENGTH + 1;
                    let len = length - RECORD_HEADER_LENGTH;
                    proof {
                        vstd::arithmetic::div_mod::lemma_fundamental_div_mod(len as int + 7, 8);
                        vstd::arithmetic::div_mod::lemma_fundamental_div_mod(r.span(), 8);
                    }
                    let payload = read_payload(&self.data, first, len);
                    proof {
                        assert forall|i: int| 0 <= i < len implies #[trigger] payload@[i] == r.payload[i] by {
                            let k = 1 + i / 8;
                            assert(d[record_index / 8 + k] == record_word(r, k));
                            crate::layout::lemma_payload_byte(r.payload, i);
                        }
                        assert(payload@ =~= r.payload);
                    }
                    let ghost before = received@;
                    received.push((msg_type_id, payload));
                    proof {
                        assert(message_views(received@) =~= message_views(before).push(r.message()));
                    }
                    messages_read = messages_read + 1;
                    bytes_read = bytes_read + span;
                    proof {
                        j = j + 1;
                    }
                },
            }
        }
        proof {
            if !stalled && bytes_read < contiguous_block_length {
                assert(messages_read == message_count_limit);
            }
        }
        (received, bytes_read)
    }

    /// Receives up to `message_count_limit` messages, in the order they were
    /// sent, from the records that follow the head up to the end of the data
    /// area; padding is skipped, and the scan stops at an empty or reserved
    /// slot. The consumed bytes are zeroed and the head moves past them.
    pub fn read(&mut self, message_count_limit: usize) -> (r: Vec<(i32, Vec<u8>)>)
        requires
            old(self).wf(),
        ensures
            final(self).wf(),
            message_views(r@) == old(self)@.received(message_count_limit as nat),
            final(self)@ == old(self)@.after_receive(message_count_limit as nat),
            final(self).head_cache() == old(self).head_cache(),
            final(self).correlation() == old(self).correlation(),
            final(self).heartbeat() == old(self).heartbeat(),
    {
        let ghost s = self@;
        let ghost q = s.records;
        let ghost d = self.data@;
        let ghost limit = message_count_limit as nat;
        let ghost n = s.consumed(limit) as int;
        proof {
            lemma_receive_takes_prefix(s, limit);
        }
        let head: u64 = self.trailer[HEAD_WORD];
        let head_index: usize = index_of(head, self.capacity as u64) as usize;
        let (received, bytes_read) = self.collect(head_index, message_count_limit);
        if bytes_read != 0 {
            proof {
                lemma_positions(s);
                lemma_total_span_aligned(q);
                assert forall|i: int| 0 <= i < q.take(n).len() implies (#[trigger] q.take(n)[i]).wf() by {
                    assert(q.take(n)[i] == q[i]);
                }
                lemma_total_span_aligned(q.take(n));
                assert(q =~= q.take(n) + q.skip(n));
                crate::words::lemma_laid_out_append(d, s.capacity, s.head, q.take(n), q.skip(n));
                vstd::arithmetic::div_mod::lemma_fundamental_div_mod(s.capacity, 8);
            }
            zero_words(&mut self.data, head_index / WORD_LENGTH, (head_index + bytes_read) / WORD_LENGTH);
            self.trailer.set(HEAD_WORD, head + bytes_read as u64);
            self.records = Ghost(q.skip(n));
            proof {
                lemma_consumed_zeroed(d, self.data@, s, n, bytes_read as int);
            }
        } else {
            proof {
                lemma_total_span_aligned(q.take(n));
                assert forall|i: int| 0 <= i < q.take(n).len() implies (#[trigger] q.take(n)[i]).wf() by {
                    assert(q.take(n)[i] == q[i]);
                }
                lemma_total_span_aligned(q.take(n));
                assert(q.skip(0) =~= q);
            }
        }
        received
    }
}

impl RingBuffer {
    /// Like `read`, but hands each message to `handler` in turn, and returns
    /// how many it handed over.
    pub fn read_with<F: Fn(i32, &[u8])>(&mut self, message_count_limit: usize, handler: F) -> (r: usize)
        requires
            old(self).wf(),
            forall|t: i32, p: &[u8]| #[trigger] handler.requires((t, p)),
        ensures
            final(self).wf(),
            r == old(self)@.received(message_count_limit as nat).len(),
            final(self)@ == old(self)@.after_receive(message_count_limit as nat),
            final(self).head_cache() == old(self).head_cache(),
            final(self).correlation() == old(self).correlation(),
            final(self).heartbeat() == old(self).heartbeat(),
    {
        let received = self.read(message_count_limit);
        let mut i: usize = 0;
        while i < received.len()
            invariant
                i <= received@.len(),
                forall|t: i32, p: &[u8]| #[trigger] handler.requires((t, p)),
            decreases received@.len() - i,
        {
            handler(received[i].0, received[i].1.as_slice());
            i = i + 1;
        }
        received.len()
    }

    pub fn capacity(&self) -> (r: usize)
        requires
            self.wf(),
        ensures
            r == self@.capacity,
    {
        self.capacity
    }

    pub fn max_message_length(&self) -> (r: usize)
        requires
            self.wf(),
        ensures
            r == self@.max_message_length(),
    {
        self.max_message_length
    }

    pub fn tail_position(&self) -> (r: i64)
        requires
            self.wf(),
        ensures
            r == self@.tail,
    {
        self.trailer[TAIL_WORD] as i64
    }

    pub fn head_position(&self) -> (r: i64)
        requires
            self.wf(),
        ensures
            r == self@.head,
    {
        self.trailer[HEAD_WORD] as i64
    }

    pub fn head_cache_position(&self) -> (r: i64)
        requires
            self.wf(),
        ensures
            r == self.head_cache(),
    {
        self.trailer[HEAD_CACHE_WORD] as i64
    }

    pub fn correlation_counter(&self) -> (r: i64)
        requires
            self.wf(),
        ensures
            r == self.correlation(),
    {
        self.trailer[CORRELATION_WORD] as i64
    }

    pub fn consumer_heartbeat(&self) -> (r: i64)
        requires
            self.wf(),
        ensures
            r == self.heartbeat(),
    {
        self.trailer[HEARTBEAT_WORD] as i64
    }

    pub fn set_correlation_counter(&mut self, value: i64)
        requires
            old(self).wf(),
        ensures
            final(self).wf(),
            final(self)@ == old(self)@,
            final(self).head_cache() == old(self).head_cache(),
            final(self).correlation() == value,
            final(self).heartbeat() == old(self).heartbeat(),
    {
        proof {
            assert((value as u64) as i64 == value) by (bit_vector);
        }
        self.trailer.set(CORRELATION_WORD, value as u64);
    }

    pub fn set_consumer_heartbeat(&mut self, value: i64)
        requires
            old(self).wf(),
        ensures
            final(self).wf(),
            final(self)@ == old(self)@,
            final(self).head_cache() == old(self).head_cache(),
            final(self).correlation() == old(self).correlation(),
            final(self).heartbeat() == value,
    {
        proof {
            assert((value as u64) as i64 == value) by (bit_vector);
        }
        self.trailer.set(HEARTBEAT_WORD, value as u64);
    }

    /// Hands the region over to a sender, which can be cloned for each
    /// producer thread, and to the one receiver. They start from this
    /// buffer's counters and records.
    pub fn split(self) -> (r: (Sender, Receiver))
        requires
            self.wf(),
        ensures
            r.0.capacity_spec() == self@.capacity,
            r.0.max_message_length_spec() == self@.max_message_length(),
            r.1.capacity_spec() == self@.capacity,
            r.0.region() == r.1.region(),
    {
        let region = Arc::new(Region::from_words(&self.data, &self.trailer, self.capacity));
        let sender = Sender::from_region(crate::shared::share(&region));
        let receiver = Receiver::from_region(region);
        (sender, receiver)
    }
}

/// A sender and the receiver over `region`, a data area followed by a trailer
/// that another party may already have written: the counters are set to zero,
/// and the data area too when `fresh`.
pub fn attach(region: Vec<u64>, fresh: bool) -> (r: Result<(Sender, Receiver), RingBufferError>)
    ensures
        r is Ok <==> (region@.len() >= TRAILER_WORDS && crate::layout::capacity_ok(
            (region@.len() - TRAILER_WORDS) * WORD_LENGTH,
            MIN_CAPACITY as int,
        ) && (region@.len() - TRAILER_WORDS) * WORD_LENGTH <= usize::MAX),
        r is Err ==> r == Err::<(Sender, Receiver), RingBufferError>(RingBufferError::InvalidCapacity),
        r matches Ok(p) ==> p.0.capacity_spec() == (region@.len() - TRAILER_WORDS) * WORD_LENGTH
            && p.1.capacity_spec() == p.0.capacity_spec() && p.0.region() == p.1.region(),
{
    if region.len() < TRAILER_WORDS {
        return Err(RingBufferError::InvalidCapacity);
    }
    let data_words = region.len() - TRAILER_WORDS;
    if data_words > usize::MAX / WORD_LENGTH || data_words as u64 > MAX_CAPACITY / 8 {
        return Err(RingBufferError::InvalidCapacity);
    }
    let capacity = data_words * WORD_LENGTH;
    if !is_capacity_valid(capacity, MIN_CAPACITY) {
        return Err(RingBufferError::InvalidCapacity);
    }
    let mut data = region;
    let mut trailer = data.split_off(data_words);
    clear_words(&mut trailer);
    if fresh {
        clear_words(&mut data);
    }
    let shared = Arc::new(Region::from_words(&data, &trailer, capacity));
    let sender = Sender::from_region(crate::shared::share(&shared));
    let receiver = Receiver::from_region(shared);
    Ok((sender, receiver))
}

} // verus!

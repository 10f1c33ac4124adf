//! The ring buffer shared between threads. Its region is a vector of atomic
//! words; any number of `Sender`s (one per producer, cloned from the first)
//! and one `Receiver` view it, each through the counters of its role.
//!
//! What another thread stores is unknown here: every load may return any
//! value. So the contracts of this module say what holds whatever was read,
//! and the decisions are taken by the verified functions of `claim` and
//! `layout`, whose contracts are exact.
use vstd::prelude::*;
use std::sync::Arc;
use std::sync::atomic::{AtomicI64, AtomicU64, Ordering};
use crate::layout::{
    classify_header, Slot, align, capacity_ok, encode_header, index_of,
    invalid_msg_type_id, max_message_len, ALIGNMENT, MIN_CAPACITY,
    PADDING_MSG_TYPE_ID, RECORD_HEADER_LENGTH, WORD_LENGTH,
};
use crate::claim::{claim_outcome, claim_padding};
use crate::model::{required_for, RingBufferError};
use crate::scan::{record_words, scan_block};
use crate::ring_buffer::{
    CORRELATION_WORD, HEAD_CACHE_WORD, HEAD_WORD, HEARTBEAT_WORD, TAIL_WORD, TRAILER_WORDS,
};

verus! {

/// Relies on `Arc::clone`: the new pointer refers to the same value.
#[verifier::external_body]
pub(crate) fn share(region: &Arc<Region>) -> (r: Arc<Region>)
    ensures
        r == *region,
{
    Arc::clone(region)
}

/// The words of a ring buffer shared between threads: the data area and the trailer.
pub struct Region {
    data: Vec<AtomicU64>,
    trailer: Vec<AtomicI64>,
    capacity: usize,
    max_message_length: usize,
}

impl Region {
    #[verifier::type_invariant]
    spec fn inv(self) -> bool {
        &&& capacity_ok(self.capacity as int, MIN_CAPACITY as int)
        &&& self.data@.len() == self.capacity / 8
        &&& self.trailer@.len() == TRAILER_WORDS
        &&& self.max_message_length as int == max_message_len(self.capacity as int, MIN_CAPACITY as int)
    }

    pub closed spec fn capacity_spec(&self) -> int {
        self.capacity as int
    }

    pub closed spec fn max_message_length_spec(&self) -> int {
        self.max_message_length as int
    }

    /// The counters of the trailer, one per word.
    pub closed spec fn trailer_spec(&self) -> Seq<AtomicI64> {
        self.trailer@
    }

    /// A shared region holding the values of `data` and `trailer`.
    pub(crate) fn from_words(data: &Vec<u64>, trailer: &Vec<u64>, capacity: usize) -> (r: Region)
        requires
            capacity_ok(capacity as int, MIN_CAPACITY as int),
            data@.len() == capacity / 8,
            trailer@.len() == TRAILER_WORDS,
        ensures
            r.capacity_spec() == capacity,
            r.max_message_length_spec() == max_message_len(capacity as int, MIN_CAPACITY as int),
    {
        let mut shared_data: Vec<AtomicU64> = Vec::with_capacity(data.len());
        let mut i: usize = 0;
        while i < data.len()
            invariant
                i <= data@.len(),
                shared_data@.len() == i,
            decreases data@.len() - i,
        {
            shared_data.push(AtomicU64::new(data[i]));
            i = i + 1;
        }
        let mut shared_trailer: Vec<AtomicI64> = Vec::with_capacity(TRAILER_WORDS);
        let mut k: usize = 0;
        while k < trailer.len()
            invariant
                k <= trailer@.len(),
                shared_trailer@.len() == k,
            decreases trailer@.len() - k,
        {
            shared_trailer.push(AtomicI64::new(trailer[k] as i64));
            k = k + 1;
        }
        Region {
            data: shared_data,
            trailer: shared_trailer,
            capacity,
            max_message_length: crate::layout::max_message_length(capacity, MIN_CAPACITY),
        }
    }

    /// Writes the record `words` (its committed header first) at word `w`:
    /// reserves the slot with the negated `record_length`, stores the payload
    /// words, then commits the header.
    fn put_record(&self, w: usize, record_length: usize, words: &Vec<u64>)
        requires
            record_length <= i32::MAX,
            1 <= words@.len(),
            w + words@.len() <= self.capacity_spec() / 8,
    {
        proof {
            use_type_invariant(self);
        }
        let reserved: i32 = -(record_length as i32);
        self.data[w].store(encode_header(reserved, 0), Ordering::Release);
        let n = self.data.len();
        let mut k: usize = 1;
        while k < words.len()
            invariant
                1 <= k <= words@.len(),
                w + words@.len() <= self.data@.len(),
                self.data@.len() == n,
            decreases words@.len() - k,
        {
            self.data[w + k].store(words[k], Ordering::Relaxed);
            k = k + 1;
        }
        self.data[w].store(words[0], Ordering::Release);
    }

    /// Loads the words that a scan from word `first` for up to `limit`
    /// messages reads: each header and, unless the scan stops there, the rest
    /// of its record, up to the end of the data area.
    fn load_block(&self, first: usize, limit: usize) -> (r: Vec<u64>)
        requires
            first <= self.capacity_spec() / 8,
        ensures
            first + r@.len() <= self.capacity_spec() / 8,
    {
        proof {
            use_type_invariant(self);
            crate::laws::lemma_capacity_aligned(self.capacity as int);
            vstd::arithmetic::div_mod::lemma_fundamental_div_mod(self.capacity as int, 8);
        }
        let end = self.data.len();
        let mut seen: Vec<u64> = Vec::new();
        let mut messages: usize = 0;
        let mut stalled = false;
        while !stalled && first + seen.len() < end && messages < limit
            invariant
                end == self.data@.len(),
                end == self.capacity / 8,
                8 * end == self.capacity,
                self.capacity <= crate::layout::MAX_CAPACITY,
                first + seen@.len() <= end,
            decreases end - (first + seen@.len()) + (if stalled { 0int } else { 1int }),
        {
            let at = first + seen.len();
            let room = 8 * (end - at);
            seen.push(self.data[at].load(Ordering::Acquire));
            let span = match classify_header(seen[seen.len() - 1], room) {
                Slot::Stop => {
                    stalled = true;
                    0
                },
                Slot::Padding { span } => span,
                Slot::Message { span, .. } => {
                    messages = messages + 1;
                    span
                },
            };
            if span > 0 {
                let mut k: usize = 1;
                while k < span / 8
                    invariant
                        end == self.data@.len(),
                        1 <= k <= span / 8,
                        at + span / 8 <= end,
                        first + seen@.len() == at + k,
                    decreases span / 8 - k,
                {
                    seen.push(self.data[at + k].load(Ordering::Relaxed));
                    k = k + 1;
                }
            }
        }
        seen
    }

    /// Sets the words from `from` up to `to` to zero.
    fn zero_words(&self, from: usize, to: usize)
        requires
            from <= to <= self.capacity_spec() / 8,
    {
        proof {
            use_type_invariant(self);
        }
        let mut x: usize = from;
        while x < to
            invariant
                from <= x <= to,
                to <= self.data@.len(),
            decreases to - x,
        {
            self.data[x].store(0, Ordering::Relaxed);
            x = x + 1;
        }
    }

    fn counter(&self, word: usize) -> (r: &AtomicI64)
        requires
            word < TRAILER_WORDS,
        ensures
            *r == self.trailer_spec()[word as int],
    {
        proof {
            use_type_invariant(self);
        }
        &self.trailer[word]
    }
}

/// The trailer of a shared region: its five counters.
#[derive(Clone)]
pub struct Descriptor {
    region: Arc<Region>,
}

impl Descriptor {
    pub fn new(region: Arc<Region>) -> (r: Descriptor)
        ensures
            r.region() == region,
    {
        Descriptor { region }
    }

    pub closed spec fn region(&self) -> Arc<Region> {
        self.region
    }

    /// Sets every counter to zero.
    pub fn reset(&self) {
        self.tail_position().store(0, Ordering::Relaxed);
        self.head_cache_position().store(0, Ordering::Relaxed);
        self.head_position().store(0, Ordering::Relaxed);
        self.correlation_counter().store(0, Ordering::Relaxed);
        self.consumer_heartbeat().store(0, Ordering::Release);
    }

    pub fn tail_position(&self) -> (r: &AtomicI64)
        ensures
            *r == self.region().trailer_spec()[TAIL_WORD as int],
    {
        self.region.counter(TAIL_WORD)
    }

    pub fn head_cache_position(&self) -> (r: &AtomicI64)
        ensures
            *r == self.region().trailer_spec()[HEAD_CACHE_WORD as int],
    {
        self.region.counter(HEAD_CACHE_WORD)
    }

    pub fn head_position(&self) -> (r: &AtomicI64)
        ensures
            *r == self.region().trailer_spec()[HEAD_WORD as int],
    {
        self.region.counter(HEAD_WORD)
    }

    pub fn correlation_counter(&self) -> (r: &AtomicI64)
        ensures
            *r == self.region().trailer_spec()[CORRELATION_WORD as int],
    {
        self.region.counter(CORRELATION_WORD)
    }

    pub fn consumer_heartbeat(&self) -> (r: &AtomicI64)
        ensures
            *r == self.region().trailer_spec()[HEARTBEAT_WORD as int],
    {
        self.region.counter(HEARTBEAT_WORD)
    }
}

/// The two counters of the trailer that belong to the clients of the buffer,
/// not to the sender or the receiver.
#[derive(Clone)]
pub struct AdminCounters {
    region: Arc<Region>,
}

impl AdminCounters {
    pub closed spec fn region(&self) -> Arc<Region> {
        self.region
    }

    pub fn correlation_counter(&self) -> (r: &AtomicI64)
        ensures
            *r == self.region().trailer_spec()[CORRELATION_WORD as int],
    {
        self.region.counter(CORRELATION_WORD)
    }

    pub fn consumer_heartbeat(&self) -> (r: &AtomicI64)
        ensures
            *r == self.region().trailer_spec()[HEARTBEAT_WORD as int],
    {
        self.region.counter(HEARTBEAT_WORD)
    }
}

/// Access to the head position, which only the receiver advances.
#[derive(Clone)]
pub struct ReadWriteHead {
    region: Arc<Region>,
}

impl ReadWriteHead {
    pub fn new(region: Arc<Region>) -> (r: ReadWriteHead)
        ensures
            r.region() == region,
    {
        ReadWriteHead { region }
    }

    pub closed spec fn region(&self) -> Arc<Region> {
        self.region
    }

    /// Loads the counter with acquire ordering.
    pub fn load_atomic(&self) -> i64 {
        self.region.counter(HEAD_WORD).load(Ordering::Acquire)
    }

    /// Stores the counter with release ordering.
    pub fn store_atomic(&self, val: i64) {
        self.region.counter(HEAD_WORD).store(val, Ordering::Release)
    }
}

/// Access to the head position, as the senders see it.
#[derive(Clone)]
pub struct ReadOnlyHead {
    region: Arc<Region>,
}

impl ReadOnlyHead {
    pub fn new(region: Arc<Region>) -> (r: ReadOnlyHead)
        ensures
            r.region() == region,
    {
        ReadOnlyHead { region }
    }

    pub closed spec fn region(&self) -> Arc<Region> {
        self.region
    }

    /// Loads the counter with acquire ordering.
    pub fn load_atomic(&self) -> i64 {
        self.region.counter(HEAD_WORD).load(Ordering::Acquire)
    }
}

/// Access to the head cache, which the senders refresh.
#[derive(Clone)]
pub struct ReadWriteHeadCache {
    region: Arc<Region>,
}

impl ReadWriteHeadCache {
    pub fn new(region: Arc<Region>) -> (r: ReadWriteHeadCache)
        ensures
            r.region() == region,
    {
        ReadWriteHeadCache { region }
    }

    pub closed spec fn region(&self) -> Arc<Region> {
        self.region
    }

    /// Loads the counter with acquire ordering.
    pub fn load_atomic(&self) -> i64 {
        self.region.counter(HEAD_CACHE_WORD).load(Ordering::Acquire)
    }

    /// Stores the counter with release ordering.
    pub fn store_atomic(&self, val: i64) {
        self.region.counter(HEAD_CACHE_WORD).store(val, Ordering::Release)
    }
}

/// Access to the head cache, as the receiver sees it.
#[derive(Clone)]
pub struct ReadOnlyHeadCache {
    region: Arc<Region>,
}

impl ReadOnlyHeadCache {
    pub fn new(region: Arc<Region>) -> (r: ReadOnlyHeadCache)
        ensures
            r.region() == region,
    {
        ReadOnlyHeadCache { region }
    }

    pub closed spec fn region(&self) -> Arc<Region> {
        self.region
    }

    /// Loads the counter with acquire ordering.
    pub fn load_atomic(&self) -> i64 {
        self.region.counter(HEAD_CACHE_WORD).load(Ordering::Acquire)
    }
}

/// Access to the tail position, which only the senders advance.
#[derive(Clone)]
pub struct ReadWriteTail {
    region: Arc<Region>,
}

impl ReadWriteTail {
    pub fn new(region: Arc<Region>) -> (r: ReadWriteTail)
        ensures
            r.region() == region,
    {
        ReadWriteTail { region }
    }

    pub closed spec fn region(&self) -> Arc<Region> {
        self.region
    }

    /// Loads the counter with acquire ordering.
    pub fn load_atomic(&self) -> i64 {
        self.region.counter(TAIL_WORD).load(Ordering::Acquire)
    }

    /// Stores the counter with release ordering.
    pub fn store_atomic(&self, val: i64) {
        self.region.counter(TAIL_WORD).store(val, Ordering::Release)
    }

    /// Replaces the counter by `desired` if it still holds `expected`.
    pub fn cas(&self, expected: i64, desired: i64) -> bool {
        self.region.counter(TAIL_WORD).compare_exchange(expected, desired, Ordering::AcqRel, Ordering::Acquire).is_ok()
    }
}

/// Access to the tail position, as the receiver sees it.
#[derive(Clone)]
pub struct ReadOnlyTail {
    region: Arc<Region>,
}

impl ReadOnlyTail {
    pub fn new(region: Arc<Region>) -> (r: ReadOnlyTail)
        ensures
            r.region() == region,
    {
        ReadOnlyTail { region }
    }

    pub closed spec fn region(&self) -> Arc<Region> {
        self.region
    }

    /// Loads the counter with acquire ordering.
    pub fn read_atomic(&self) -> i64 {
        self.region.counter(TAIL_WORD).load(Ordering::Acquire)
    }
}

/// A producer's handle. Clones of it may send from other threads; they
/// contend only on the tail.
#[derive(Clone)]
pub struct Sender {
    region: Arc<Region>,
    tail_position: ReadWriteTail,
    head_cache_position: ReadWriteHeadCache,
    head_position: ReadOnlyHead,
}

impl Sender {
    pub(crate) fn from_region(region: Arc<Region>) -> (r: Sender)
        ensures
            r.region() == region,
            r.capacity_spec() == region.capacity_spec(),
            r.max_message_length_spec() == region.max_message_length_spec(),
    {
        Sender {
            tail_position: ReadWriteTail::new(share(&region)),
            head_cache_position: ReadWriteHeadCache::new(share(&region)),
            head_position: ReadOnlyHead::new(share(&region)),
            region,
        }
    }

    /// The region that this handle views.
    pub closed spec fn region(&self) -> Arc<Region> {
        self.region
    }

    pub closed spec fn capacity_spec(&self) -> int {
        self.region.capacity_spec()
    }

    pub closed spec fn max_message_length_spec(&self) -> int {
        self.region.max_message_length_spec()
    }

    pub fn capacity(&self) -> (r: usize)
        ensures
            r == self.capacity_spec(),
    {
        self.region.capacity
    }

    pub fn max_message_length(&self) -> (r: usize)
        ensures
            r == self.max_message_length_spec(),
    {
        self.region.max_message_length
    }

    /// The counters of the region that belong to its clients.
    pub fn admin_counters(&self) -> (r: AdminCounters)
        ensures
            r.region() == self.region(),
    {
        AdminCounters { region: share(&self.region) }
    }

    /// The tail position, loaded with acquire ordering.
    pub fn tail_position(&self) -> i64 {
        self.tail_position.load_atomic()
    }

    /// The head position, loaded with acquire ordering.
    pub fn head_position(&self) -> i64 {
        self.head_position.load_atomic()
    }

    /// Sends a message of type `msg_type_id` (at least one) and payload `msg`
    /// (at most the maximum message length). The arguments are checked first;
    /// with valid ones the send succeeds, or fails only for want of space.
    pub fn send(&mut self, msg_type_id: i32, msg: &[u8]) -> (r: Result<(), RingBufferError>)
        ensures
            msg@.len() > old(self).max_message_length_spec() ==> r == Err::<(), RingBufferError>(
                RingBufferError::MessageTooLong,
            ),
            msg@.len() <= old(self).max_message_length_spec() && msg_type_id < 1 ==> r == Err::<
                (),
                RingBufferError,
            >(RingBufferError::InvalidMessageTypeId),
            msg@.len() <= old(self).max_message_length_spec() && msg_type_id >= 1 ==> (r is Ok || r == Err::<
                (),
                RingBufferError,
            >(RingBufferError::InsufficientCapacity)),
    {
        proof {
            use_type_invariant(&*self.region);
        }
        if msg.len() > self.region.max_message_length {
            return Err(RingBufferError::MessageTooLong);
        }
        if invalid_msg_type_id(msg_type_id) {
            return Err(RingBufferError::InvalidMessageTypeId);
        }
        let record_length: usize = msg.len() + RECORD_HEADER_LENGTH;
        let record_index = match self.claim_capacity(record_length) {
            Ok(i) => i,
            Err(e) => {
                return Err(e);
            },
        };
        proof {
            let req = required_for(msg@.len() as int);
            let cap = self.region.capacity as int;
            crate::laws::lemma_capacity_aligned(cap);
            crate::layout::lemma_align_up_laws(record_length as int, record_length as int, 8);
            vstd::arithmetic::div_mod::lemma_div_is_ordered(record_index as int, cap - req, 8);
            vstd::arithmetic::div_mod::lemma_fundamental_div_mod(cap, 8);
            vstd::arithmetic::div_mod::lemma_fundamental_div_mod(req, 8);
            vstd::arithmetic::div_mod::lemma_fundamental_div_mod_converse(cap - req, 8, cap / 8 - req / 8, 0);
        }
        let words = record_words(msg_type_id, msg);
        self.region.put_record(record_index / WORD_LENGTH, record_length, &words);
        Ok(())
    }

    /// Claims the space for a record of `record_length` bytes: advances the
    /// tail past it, after a padding record where it would run past the end of
    /// the data area. Retries while other senders win the race for the tail,
    /// giving up, as for want of space, only after `u64::MAX` lost races.
    /// Returns the index at which the record goes.
    fn claim_capacity(&self, record_length: usize) -> (r: Result<usize, RingBufferError>)
        requires
            RECORD_HEADER_LENGTH <= record_length <= self.max_message_length_spec() + RECORD_HEADER_LENGTH,
        ensures
            r matches Ok(i) ==> i + required_for(record_length - RECORD_HEADER_LENGTH) <= self.capacity_spec(),
            r matches Ok(i) ==> exists|t: int, h: int|
                #[trigger] claim_outcome(self.capacity_spec(), h, t, required_for(record_length - RECORD_HEADER_LENGTH))
                    matches Some(p) && i == (if p > 0 { 0 } else { t % self.capacity_spec() }),
            r is Err ==> r == Err::<usize, RingBufferError>(RingBufferError::InsufficientCapacity),
    {
        proof {
            use_type_invariant(&*self.region);
            crate::laws::lemma_capacity_aligned(self.region.capacity as int);
            crate::layout::lemma_alignment_pow2();
            crate::layout::lemma_align_up_laws(record_length as int, self.region.capacity as int, ALIGNMENT as int);
            crate::layout::lemma_align_up_exact(self.region.capacity as int, ALIGNMENT as int);
        }
        let ghost req = required_for(record_length - RECORD_HEADER_LENGTH);
        let required: u64 = align(record_length as u64, ALIGNMENT as u64);
        let capacity = self.region.capacity as u64;
        let mut head: i64 = self.head_cache_position.load_atomic();
        let mut attempts: u64 = 0;
        let mut claimed: Option<(u64, u64, u64)> = None;
        while claimed.is_none()
            invariant
                required as int == req,
                8 <= required <= capacity,
                capacity == self.capacity_spec(),
                crate::layout::is_pow2(capacity as int),
                capacity % 8 == 0,
                capacity <= crate::layout::MAX_CAPACITY,
                claimed matches Some(c) ==> claim_outcome(capacity as int, c.2 as int, c.0 as int, req) == Some(c.1 as int),
            decreases u64::MAX - attempts + (if claimed is None { 1int } else { 0int }),
        {
            if attempts == u64::MAX {
                return Err(RingBufferError::InsufficientCapacity);
            }
            attempts = attempts + 1;
            let tail = self.tail_position.load_atomic();
            if tail < 0 || head < 0 {
                return Err(RingBufferError::InsufficientCapacity);
            }
            let mut padding = claim_padding(capacity, required, tail as u64, head as u64);
            if padding.is_none() {
                head = self.head_position.load_atomic();
                if head < 0 {
                    return Err(RingBufferError::InsufficientCapacity);
                }
                padding = claim_padding(capacity, required, tail as u64, head as u64);
                match padding {
                    Some(_) => self.head_cache_position.store_atomic(head),
                    None => {
                        // A head past the tail read before it only means that the
                        // tail moved on: try again.
                        if head <= tail {
                            return Err(RingBufferError::InsufficientCapacity);
                        }
                    },
                }
            }
            if let Some(p) = padding {
                if self.tail_position.cas(tail, tail + (p + required) as i64) {
                    claimed = Some((tail as u64, p, head as u64));
                }
            }
        }
        let (tail, padding, seen_head) = match claimed {
            Some(c) => c,
            None => {
                return Err(RingBufferError::InsufficientCapacity);
            },
        };
        let tail_index = index_of(tail, capacity);
        proof {
            crate::laws::lemma_capacity_aligned(capacity as int);
            vstd::arithmetic::div_mod::lemma_mod_mod(tail as int, 8, (capacity / 8) as int);
            vstd::arithmetic::div_mod::lemma_fundamental_div_mod(capacity as int, 8);
            vstd::arithmetic::div_mod::lemma_fundamental_div_mod(required as int, 8);
            vstd::arithmetic::div_mod::lemma_fundamental_div_mod(tail_index as int, 8);
        }
        proof {
            assert(claim_outcome(capacity as int, seen_head as int, tail as int, req) == Some(padding as int));
        }
        if padding != 0 {
            let w = (tail_index / 8) as usize;
            proof {
                use_type_invariant(&*self.region);
            }
            let reserved: i32 = -(padding as i32);
            self.region.data[w].store(encode_header(reserved, 0), Ordering::Release);
            self.region.data[w].store(encode_header(padding as i32, PADDING_MSG_TYPE_ID), Ordering::Release);
            Ok(0)
        } else {
            Ok(tail_index as usize)
        }
    }
}

/// The consumer's handle: there is one, and it alone moves the head.
pub struct Receiver {
    region: Arc<Region>,
    tail_position: ReadOnlyTail,
    head_cache_position: ReadOnlyHeadCache,
    head_position: ReadWriteHead,
}

impl Receiver {
    pub(crate) fn from_region(region: Arc<Region>) -> (r: Receiver)
        ensures
            r.region() == region,
            r.capacity_spec() == region.capacity_spec(),
    {
        Receiver {
            tail_position: ReadOnlyTail::new(share(&region)),
            head_cache_position: ReadOnlyHeadCache::new(share(&region)),
            head_position: ReadWriteHead::new(share(&region)),
            region,
        }
    }

    /// The region that this handle views.
    pub closed spec fn region(&self) -> Arc<Region> {
        self.region
    }

    pub closed spec fn capacity_spec(&self) -> int {
        self.region.capacity_spec()
    }

    pub fn capacity(&self) -> (r: usize)
        ensures
            r == self.capacity_spec(),
    {
        self.region.capacity
    }

    /// The counters of the region that belong to its clients.
    pub fn admin_counters(&self) -> (r: AdminCounters)
        ensures
            r.region() == self.region(),
    {
        AdminCounters { region: share(&self.region) }
    }

    /// The tail position, loaded with acquire ordering.
    pub fn tail_position(&self) -> i64 {
        self.tail_position.read_atomic()
    }

    /// The head position, loaded with acquire ordering.
    pub fn head_position(&self) -> i64 {
        self.head_position.load_atomic()
    }

    /// Receives up to `message_count_limit` messages from the records that
    /// follow the head up to the end of the data area; padding is skipped, and
    /// the scan stops at an empty or reserved slot. The consumed bytes are
    /// zeroed, then the head moves past them.
    pub fn receive(&mut self, message_count_limit: usize) -> (r: Vec<(i32, Vec<u8>)>)
        ensures
            r@.len() <= message_count_limit,
            forall|i: int| 0 <= i < r@.len() ==> (#[trigger] r@[i]).0 != PADDING_MSG_TYPE_ID,
    {
        proof {
            use_type_invariant(&*self.region);
            crate::laws::lemma_capacity_aligned(self.region.capacity as int);
            crate::layout::lemma_alignment_pow2();
        }
        let capacity: usize = self.region.capacity;
        let head: i64 = self.head_position.load_atomic();
        if head < 0 || head > i64::MAX - capacity as i64 || head % 8 != 0 {
            // Not a head that this receiver stored.
            return Vec::new();
        }
        let head_index: usize = index_of(head as u64, capacity as u64) as usize;
        proof {
            vstd::arithmetic::div_mod::lemma_mod_mod(head as int, 8, (capacity / 8) as int);
            vstd::arithmetic::div_mod::lemma_fundamental_div_mod(capacity as int, 8);
            vstd::arithmetic::div_mod::lemma_fundamental_div_mod(head_index as int, 8);
        }
        let first = head_index / WORD_LENGTH;
        let block = self.region.load_block(first, message_count_limit);
        let (received, consumed) = scan_block(&block, message_count_limit);
        if consumed != 0 {
            self.region.zero_words(first, first + consumed / WORD_LENGTH);
            self.head_position.store_atomic(head + consumed as i64);
        }
        received
    }

    /// Like `receive`, but hands each message to `handler` in turn, and
    /// returns how many it handed over.
    pub fn receive_with<F: Fn(i32, &[u8])>(&mut self, message_count_limit: usize, handler: F) -> (r: usize)
        requires
            forall|t: i32, p: &[u8]| #[trigger] handler.requires((t, p)),
        ensures
            r <= message_count_limit,
    {
        let received = self.receive(message_count_limit);
        let mut i: usize = 0;
        while i < received.len()
            invariant
                i <= received@.len(),
                forall|t: i32, p: &[u8]| #[trigger] handler.requires((t, p)),
            decreases received@.len() - i,
        {
            handler(received[i].0, received[i].1.as_slice());
            i = i + 1;
        }
        received.len()
    }
}

} // verus!

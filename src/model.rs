//! The ring buffer as a mathematical object: the records between head and
//! tail, and what sending and receiving do to them.
use vstd::prelude::*;
use crate::layout::{
    align_up, capacity_ok, max_message_len, ALIGNMENT, MIN_CAPACITY, PADDING_MSG_TYPE_ID,
    RECORD_HEADER_LENGTH,
};

verus! {

/// Why an operation on a ring buffer was refused.
#[derive(Clone, Copy, Debug, PartialEq, Eq, Structural)]
pub enum RingBufferError {
    /// The data area is not a power of two between the smallest and the largest capacity.
    InvalidCapacity,
    /// A message type id below one.
    InvalidMessageTypeId,
    /// A payload longer than the buffer's maximum message length.
    MessageTooLong,
    /// Not enough free space for the record, even after a fresh look at the head.
    InsufficientCapacity,
}

/// A committed record between head and tail.
pub struct Record {
    /// The header's length field: header plus payload, before rounding.
    pub length: int,
    pub msg_type_id: i32,
    pub payload: Seq<u8>,
}

impl Record {
    /// Bytes that the record occupies in the data area.
    pub open spec fn span(self) -> int {
        align_up(self.length, ALIGNMENT as int)
    }

    pub open spec fn is_padding(self) -> bool {
        self.msg_type_id == PADDING_MSG_TYPE_ID
    }

    pub open spec fn wf(self) -> bool {
        self.length <= i32::MAX && if self.is_padding() {
            self.length >= ALIGNMENT && self.length % ALIGNMENT as int == 0 && self.payload.len() == 0
        } else {
            self.msg_type_id >= 1 && self.length == self.payload.len() + RECORD_HEADER_LENGTH
        }
    }

    pub open spec fn message(self) -> (i32, Seq<u8>) {
        (self.msg_type_id, self.payload)
    }
}

/// The padding record that fills the `length` bytes up to the end of the data area.
pub open spec fn padding_record(length: int) -> Record {
    Record { length, msg_type_id: PADDING_MSG_TYPE_ID, payload: Seq::empty() }
}

/// The record that carries a message.
pub open spec fn message_record(msg_type_id: i32, payload: Seq<u8>) -> Record {
    Record { length: payload.len() + RECORD_HEADER_LENGTH, msg_type_id, payload }
}

/// Bytes occupied by a sequence of records.
pub open spec fn total_span(q: Seq<Record>) -> int
    decreases q.len(),
{
    if q.len() == 0 {
        0
    } else {
        total_span(q.drop_last()) + q.last().span()
    }
}

/// The messages that a sequence of records carries, padding left out.
pub open spec fn messages(q: Seq<Record>) -> Seq<(i32, Seq<u8>)>
    decreases q.len(),
{
    if q.len() == 0 {
        Seq::empty()
    } else if q.last().is_padding() {
        messages(q.drop_last())
    } else {
        messages(q.drop_last()).push(q.last().message())
    }
}

/// No record of `q`, laid out from position `pos`, runs past the end of the data area.
pub open spec fn fits(capacity: int, pos: int, q: Seq<Record>) -> bool
    decreases q.len(),
{
    q.len() == 0 || (pos % capacity + q[0].span() <= capacity && fits(
        capacity,
        pos + q[0].span(),
        q.drop_first(),
    ))
}

/// Bytes from the index of `tail` to the end of the data area.
pub open spec fn to_end(capacity: int, tail: int) -> int {
    capacity - tail % capacity
}

/// Bytes that a payload of `len` bytes occupies, header included.
pub open spec fn required_for(len: int) -> int {
    align_up(len + RECORD_HEADER_LENGTH, ALIGNMENT as int)
}

/// Padding placed before a record of `required` bytes claimed at `tail`.
pub open spec fn padding_for(capacity: int, tail: int, required: int) -> int {
    if required > to_end(capacity, tail) {
        to_end(capacity, tail)
    } else {
        0
    }
}

/// Whether `required` bytes can be claimed at `tail` while the consumer is at `head`:
/// they fit in the free space, either before the end of the data area or, after
/// padding to the end, before the index of the head; and the new tail is a position.
pub open spec fn claim_fits(capacity: int, head: int, tail: int, required: int) -> bool {
    &&& required <= capacity - (tail - head)
    &&& (required <= to_end(capacity, tail) || required <= head % capacity)
    &&& tail + padding_for(capacity, tail, required) + required <= i64::MAX
}

/// Number of records that one receive with a budget of `limit` messages consumes,
/// reading no further than `room` bytes.
pub open spec fn scan(q: Seq<Record>, room: int, limit: nat) -> nat
    decreases q.len(),
{
    if q.len() == 0 || room <= 0 || limit == 0 {
        0
    } else if q[0].is_padding() {
        1 + scan(q.drop_first(), room - q[0].span(), limit)
    } else {
        1 + scan(q.drop_first(), room - q[0].span(), (limit - 1) as nat)
    }
}

/// The state of a ring buffer: its capacity, its head and tail positions and the
/// records in between.
pub struct RingState {
    pub capacity: int,
    pub head: int,
    pub tail: int,
    pub records: Seq<Record>,
}

impl RingState {
    pub open spec fn wf(self) -> bool {
        &&& capacity_ok(self.capacity, MIN_CAPACITY as int)
        &&& 0 <= self.head <= self.tail <= i64::MAX
        &&& self.head % ALIGNMENT as int == 0
        &&& self.tail - self.head == total_span(self.records)
        &&& self.tail - self.head <= self.capacity
        &&& forall|j: int| 0 <= j < self.records.len() ==> (#[trigger] self.records[j]).wf()
        &&& fits(self.capacity, self.head, self.records)
    }

    pub open spec fn max_message_length(self) -> int {
        max_message_len(self.capacity, MIN_CAPACITY as int)
    }

    /// What sending `payload` with `msg_type_id` returns.
    pub open spec fn send_outcome(self, msg_type_id: i32, payload: Seq<u8>) -> Result<(), RingBufferError> {
        if payload.len() > self.max_message_length() {
            Err(RingBufferError::MessageTooLong)
        } else if msg_type_id < 1 {
            Err(RingBufferError::InvalidMessageTypeId)
        } else if !claim_fits(self.capacity, self.head, self.tail, required_for(payload.len() as int)) {
            Err(RingBufferError::InsufficientCapacity)
        } else {
            Ok(())
        }
    }

    /// The state after a successful send.
    pub open spec fn after_send(self, msg_type_id: i32, payload: Seq<u8>) -> RingState {
        let required = required_for(payload.len() as int);
        let padding = padding_for(self.capacity, self.tail, required);
        let padded = if padding > 0 {
            self.records.push(padding_record(padding))
        } else {
            self.records
        };
        RingState {
            tail: self.tail + padding + required,
            records: padded.push(message_record(msg_type_id, payload)),
            ..self
        }
    }

    /// The state after a send, successful or not.
    pub open spec fn send(self, msg_type_id: i32, payload: Seq<u8>) -> RingState {
        if self.send_outcome(msg_type_id, payload) is Ok {
            self.after_send(msg_type_id, payload)
        } else {
            self
        }
    }

    /// Records consumed by a receive with a budget of `limit` messages.
    pub open spec fn consumed(self, limit: nat) -> nat {
        scan(self.records, self.capacity - self.head % self.capacity, limit)
    }

    /// Messages delivered by a receive with a budget of `limit` messages.
    pub open spec fn received(self, limit: nat) -> Seq<(i32, Seq<u8>)> {
        messages(self.records.take(self.consumed(limit) as int))
    }

    /// The state after a receive with a budget of `limit` messages.
    pub open spec fn after_receive(self, limit: nat) -> RingState {
        let n = self.consumed(limit) as int;
        RingState {
            head: self.head + total_span(self.records.take(n)),
            records: self.records.skip(n),
            ..self
        }
    }
}

} // verus!

//! The producer's decision: whether a record fits at the tail, and behind how
//! much padding.
use vstd::prelude::*;
use crate::layout::{index_of, is_pow2};
use crate::model::{claim_fits, padding_for};

verus! {

/// Padding to place before a record of `required` bytes claimed at `tail` while
/// the consumer is at `head`, or `None` when the record does not fit (or when
/// `head` and `tail` cannot both be true of one buffer).
pub open spec fn claim_outcome(capacity: int, head: int, tail: int, required: int) -> Option<int> {
    if head <= tail && tail - head <= capacity && claim_fits(capacity, head, tail, required) {
        Some(padding_for(capacity, tail, required))
    } else {
        None
    }
}

/// Decides a claim of `required` bytes at `tail`, the consumer being at `head`.
pub fn claim_padding(capacity: u64, required: u64, tail: u64, head: u64) -> (r: Option<u64>)
    requires
        is_pow2(capacity as int),
        capacity <= crate::layout::MAX_CAPACITY,
        required <= capacity,
    ensures
        r matches Some(p) ==> claim_outcome(capacity as int, head as int, tail as int, required as int)
            == Some(p as int),
        r is None ==> claim_outcome(capacity as int, head as int, tail as int, required as int) is None,
{
    if head > tail {
        return None;
    }
    let used = tail - head;
    if used > capacity || required > capacity - used {
        return None;
    }
    let tail_index = index_of(tail, capacity);
    let to_buffer_end_length = capacity - tail_index;
    let mut padding: u64 = 0;
    if required > to_buffer_end_length {
        let head_index = index_of(head, capacity);
        if required > head_index {
            return None;
        }
        padding = to_buffer_end_length;
    }
    if tail > (i64::MAX as u64) - padding - required {
        return None;
    }
    Some(padding)
}

} // verus!

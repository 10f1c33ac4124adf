//! The consumer's scan of one block of words, and the words of one record, as
//! functions on plain values. The shared receiver and sender hand them the
//! words they load and store what they return.
use vstd::prelude::*;
use crate::layout::{
    align, byte_of, classify_header, encode_header, header_word, payload_word, payload_word_of,
    slot_of,
    Slot, ALIGNMENT, MAX_CAPACITY, PADDING_MSG_TYPE_ID, RECORD_HEADER_LENGTH,
};
use crate::model::{message_record, required_for};
use crate::words::record_word;
use crate::ring_buffer::{message_views, read_payload};

verus! {

/// The `len` payload bytes held by the words of `block` from word `first` on.
pub open spec fn block_payload(block: Seq<u64>, first: int, len: int) -> Seq<u8> {
    Seq::new(len as nat, |i: int| byte_of(block[first + i / 8], i % 8))
}

/// What a receive with `limit` messages left takes from `block`, the words
/// from its head to the end of the data area, reading from word `pos` on: the
/// messages, and the bytes consumed. It stops at a slot that holds no record,
/// at the end of the block, and once the limit is reached; padding is skipped.
pub open spec fn block_scan(block: Seq<u64>, pos: int, limit: nat) -> (Seq<(i32, Seq<u8>)>, int)
    decreases block.len() - pos,
{
    if pos < 0 || pos >= block.len() || limit == 0 {
        (Seq::empty(), 0)
    } else {
        match slot_of(block[pos], 8 * (block.len() - pos)) {
            Slot::Stop => (Seq::empty(), 0),
            Slot::Padding { span } => {
                let rest = block_scan(block, pos + if span >= 8 { span / 8 } else { 1 }, limit);
                (rest.0, span + rest.1)
            },
            Slot::Message { msg_type_id, length, span } => {
                let rest = block_scan(
                    block,
                    pos + if span >= 8 { span / 8 } else { 1 },
                    (limit - 1) as nat,
                );
                (
                    seq![(msg_type_id, block_payload(block, pos + 1, length - RECORD_HEADER_LENGTH))]
                        + rest.0,
                    span + rest.1,
                )
            },
        }
    }
}

/// Scans `block`, the words from the head to the end of the data area, for up
/// to `limit` messages. Returns them with the number of bytes consumed.
pub fn scan_block(block: &Vec<u64>, limit: usize) -> (r: (Vec<(i32, Vec<u8>)>, usize))
    requires
        8 * block@.len() <= MAX_CAPACITY,
        8 * block@.len() <= usize::MAX,
    ensures
        message_views(r.0@) == block_scan(block@, 0, limit as nat).0,
        r.1 as int == block_scan(block@, 0, limit as nat).1,
        r.0@.len() <= limit,
        r.1 <= 8 * block@.len(),
        r.1 % 8 == 0,
        forall|i: int| 0 <= i < r.0@.len() ==> (#[trigger] r.0@[i]).0 != PADDING_MSG_TYPE_ID,
{
    let ghost b = block@;
    let ghost total = block_scan(b, 0, limit as nat);
    let mut out: Vec<(i32, Vec<u8>)> = Vec::new();
    let mut pos: usize = 0;
    let mut messages_read: usize = 0;
    let mut stalled = false;
    while !stalled && pos < block.len() && messages_read < limit
        invariant
            b == block@,
            8 * b.len() <= MAX_CAPACITY,
            8 * b.len() <= usize::MAX,
            total == block_scan(b, 0, limit as nat),
            pos <= b.len(),
            messages_read <= limit,
            out@.len() == messages_read,
            forall|i: int| 0 <= i < out@.len() ==> (#[trigger] out@[i]).0 != PADDING_MSG_TYPE_ID,
            !stalled ==> message_views(out@) + block_scan(b, pos as int, (limit - messages_read) as nat).0
                == total.0,
            !stalled ==> 8 * pos + block_scan(b, pos as int, (limit - messages_read) as nat).1 == total.1,
            stalled ==> message_views(out@) == total.0 && 8 * pos == total.1,
        decreases b.len() - pos + (if stalled { 0int } else { 1int }),
    {
        let ghost rest = block_scan(b, pos as int, (limit - messages_read) as nat);
        let word = block[pos];
        match classify_header(word, 8 * (block.len() - pos)) {
            Slot::Stop => {
                proof {
                    assert(rest.0 =~= Seq::<(i32, Seq<u8>)>::empty());
                    assert(message_views(out@) + rest.0 =~= message_views(out@));
                }
                stalled = true;
            },
            Slot::Padding { span } => {
                pos = pos + span / 8;
            },
            Slot::Message { msg_type_id, length, span } => {
                let len = length - RECORD_HEADER_LENGTH;
                proof {
                    vstd::arithmetic::div_mod::lemma_fundamental_div_mod(len as int + 7, 8);
                    vstd::arithmetic::div_mod::lemma_fundamental_div_mod(span as int, 8);
                }
                let payload = read_payload(block, pos + 1, len);
                let ghost next = block_scan(b, pos + span / 8, (limit - messages_read - 1) as nat);
                proof {
                    assert(payload@ =~= block_payload(b, pos + 1, len as int));
                }
                let ghost before = out@;
                out.push((msg_type_id, payload));
                proof {
                    let x = (msg_type_id, payload@);
                    assert(message_views(out@) =~= message_views(before).push(x));
                    assert(rest.0 == seq![x] + next.0);
                    assert(message_views(before) + (seq![x] + next.0) =~= message_views(before).push(x)
                        + next.0);
                }
                messages_read = messages_read + 1;
                pos = pos + span / 8;
            },
        }
    }
    proof {
        if !stalled {
            let rest = block_scan(b, pos as int, (limit - messages_read) as nat);
            assert(rest.0 =~= Seq::<(i32, Seq<u8>)>::empty());
            assert(message_views(out@) + rest.0 =~= message_views(out@));
        }
    }
    (out, 8 * pos)
}

/// The words of a message record: its committed header, then its payload.
pub fn record_words(msg_type_id: i32, msg: &[u8]) -> (r: Vec<u64>)
    requires
        msg@.len() + RECORD_HEADER_LENGTH <= i32::MAX,
    ensures
        r@.len() == required_for(msg@.len() as int) / 8,
        r@[0] == header_word((msg@.len() + RECORD_HEADER_LENGTH) as i32, msg_type_id),
        forall|k: int| 0 <= k < r@.len() ==> #[trigger] r@[k] == record_word(message_record(msg_type_id, msg@), k),
{
    let record_length: usize = msg.len() + RECORD_HEADER_LENGTH;
    proof {
        crate::layout::lemma_alignment_pow2();
    }
    let words = (align(record_length as u64, ALIGNMENT as u64) / 8) as usize;
    proof {
        vstd::arithmetic::div_mod::lemma_fundamental_div_mod(record_length + 7, 8);
        crate::layout::lemma_align_up_laws(record_length as int, record_length as int, 8);
    }
    let mut r: Vec<u64> = Vec::with_capacity(words);
    r.push(encode_header(record_length as i32, msg_type_id));
    let mut k: usize = 1;
    while k < words
        invariant
            1 <= k <= words,
            words as int == required_for(msg@.len() as int) / 8,
            8 * words <= record_length + 7,
            record_length == msg@.len() + RECORD_HEADER_LENGTH,
            record_length <= i32::MAX,
            r@.len() == k,
            r@[0] == header_word(record_length as i32, msg_type_id),
            forall|j: int| 1 <= j < k ==> #[trigger] r@[j] == payload_word(msg@, j - 1),
        decreases words - k,
    {
        r.push(payload_word_of(msg, k - 1));
        k = k + 1;
    }
    r
}

} // verus!

//! Byte geometry of the region and of a record, and the pure arithmetic on it.
use vstd::prelude::*;
use vstd::arithmetic::power2::{pow2, lemma2_to64, lemma_pow2_pos};
use vstd::bits::{low_bits_mask, lemma_u64_low_bits_mask_is_mod};
use vstd::arithmetic::div_mod::{
    lemma_fundamental_div_mod, lemma_fundamental_div_mod_converse, lemma_div_is_ordered,
    lemma_mod_multiples_basic,
};
use vstd::arithmetic::mul::{lemma_mul_inequality, lemma_mul_is_commutative};

verus! {

/// Length of one cache line.
pub const CACHE_LINE_LENGTH: usize = 64;

/// Each trailer counter owns two cache lines, so that no two of them share one.
pub const COUNTER_STRIDE: usize = 2 * CACHE_LINE_LENGTH;

/// Length of the trailer: a leading pad and five counters.
pub const TRAILER_LENGTH: usize = 6 * COUNTER_STRIDE;

/// Offsets of the counters from the start of the trailer.
pub const TAIL_POSITION_OFFSET: usize = COUNTER_STRIDE;
pub const HEAD_CACHE_POSITION_OFFSET: usize = 2 * COUNTER_STRIDE;
pub const HEAD_POSITION_OFFSET: usize = 3 * COUNTER_STRIDE;
pub const CORRELATION_COUNTER_OFFSET: usize = 4 * COUNTER_STRIDE;
pub const CONSUMER_HEARTBEAT_OFFSET: usize = 5 * COUNTER_STRIDE;

/// A record header: a 32-bit length followed by a 32-bit message type id.
pub const RECORD_HEADER_LENGTH: usize = 8;

/// The smallest data area: room for one header.
pub const MIN_CAPACITY: usize = RECORD_HEADER_LENGTH;

/// Every record starts, and its length is rounded up, to this many bytes.
pub const ALIGNMENT: usize = 8;

/// The largest data area. A record is at most an eighth of the capacity plus
/// its header, and padding is shorter than the record it precedes, so every
/// length fits the 32-bit length field of a header.
pub const MAX_CAPACITY: u64 = 8589934592;

/// Type id of a padding record.
pub const PADDING_MSG_TYPE_ID: i32 = -1;

/// The region is held as little-endian words of this many bytes.
pub const WORD_LENGTH: usize = 8;

/// The trailer is six strides of two cache lines; the counters follow the
/// leading pad, one per stride.
pub proof fn lemma_trailer_layout()
    ensures
        TRAILER_LENGTH == 768,
        TAIL_POSITION_OFFSET == 128,
        HEAD_CACHE_POSITION_OFFSET == 2 * 128,
        HEAD_POSITION_OFFSET == 3 * 128,
        CORRELATION_COUNTER_OFFSET == 4 * 128,
        CONSUMER_HEARTBEAT_OFFSET == 5 * 128,
        CONSUMER_HEARTBEAT_OFFSET + COUNTER_STRIDE == TRAILER_LENGTH,
{
}

/// `n` is a power of two that a 64-bit word can hold.
pub open spec fn is_pow2(n: int) -> bool {
    exists|k: nat| k < 64 && n == pow2(k)
}

/// `n` rounded up to the next multiple of `a`.
pub open spec fn align_up(n: int, a: int) -> int {
    ((n + a - 1) / a) * a
}

/// Whether a data area of `capacity` bytes can hold a ring buffer.
pub open spec fn capacity_ok(capacity: int, min_capacity: int) -> bool {
    is_pow2(capacity) && min_capacity <= capacity <= MAX_CAPACITY
}

/// Longest payload that a ring buffer of `capacity` bytes accepts.
pub open spec fn max_message_len(capacity: int, min_capacity: int) -> int {
    if capacity == min_capacity {
        0
    } else {
        capacity / 8
    }
}

/// Whether `n` is a power of two: doubles a candidate until it reaches `n`.
pub fn is_power_of_two(n: u64) -> (r: bool)
    ensures
        r == is_pow2(n as int),
{
    let mut p: u64 = 1;
    let mut k: u64 = 0;
    proof {
        lemma2_to64();
    }
    while p < n && k < 63
        invariant
            k <= 63,
            p as int == pow2(k as nat),
            forall|j: nat| j < k ==> pow2(j) < n,
        decreases 63 - k,
    {
        proof {
            vstd::arithmetic::power2::lemma_pow2_unfold((k + 1) as nat);
            if k + 1 < 63 {
                vstd::arithmetic::power2::lemma_pow2_strictly_increases((k + 1) as nat, 63);
            }
            vstd::arithmetic::power2::lemma2_to64_rest();
        }
        p = p * 2;
        k = k + 1;
    }
    proof {
        if p == n {
            assert(is_pow2(n as int));
        } else if is_pow2(n as int) {
            let j = choose|j: nat| j < 64 && n as int == pow2(j);
            if j < k {
            } else if j == k {
            } else {
                if p >= n {
                    vstd::arithmetic::power2::lemma_pow2_strictly_increases(k as nat, j);
                } else {
                    assert(k == 63);
                    assert(j == 63);
                }
            }
        }
    }
    p == n
}

pub proof fn lemma_alignment_pow2()
    ensures
        is_pow2(ALIGNMENT as int),
{
    lemma2_to64();
    assert(ALIGNMENT as int == pow2(3));
}

/// Rounds `value` up to a multiple of `alignment`, a power of two.
pub fn align(value: u64, alignment: u64) -> (r: u64)
    requires
        is_pow2(alignment as int),
        value + alignment - 1 <= u64::MAX,
    ensures
        r as int == align_up(value as int, alignment as int),
{
    let ghost k = choose|k: nat| k < 64 && alignment as int == pow2(k);
    proof {
        lemma_pow2_pos(k);
    }
    let v: u64 = value + (alignment - 1);
    let m: u64 = alignment - 1;
    let r: u64 = v & !m;
    proof {
        assert(m as nat == low_bits_mask(k));
        lemma_u64_low_bits_mask_is_mod(v, k);
        assert((v & !m) + (v & m) == v) by (bit_vector);
        assert(r == v - v % alignment);
        lemma_fundamental_div_mod(v as int, alignment as int);
        assert(v as int == alignment as int * (v as int / alignment as int) + v as int % alignment as int);
        lemma_mul_is_commutative(alignment as int, v as int / alignment as int);
    }
    r
}

/// The index in the data area of a position: `position & (capacity - 1)`.
pub fn index_of(position: u64, capacity: u64) -> (r: u64)
    requires
        is_pow2(capacity as int),
    ensures
        r as int == position as int % capacity as int,
        r < capacity,
{
    let ghost k = choose|k: nat| k < 64 && capacity as int == pow2(k);
    proof {
        lemma_pow2_pos(k);
        lemma_u64_low_bits_mask_is_mod(position, k);
    }
    position & (capacity - 1)
}

/// Whether a data area of `capacity` bytes can hold a ring buffer.
pub fn is_capacity_valid(capacity: usize, min_capacity: usize) -> (r: bool)
    ensures
        r == capacity_ok(capacity as int, min_capacity as int),
{
    capacity >= min_capacity && capacity as u64 <= MAX_CAPACITY && is_power_of_two(capacity as u64)
}

/// Longest payload accepted by a ring buffer of `capacity` bytes.
pub fn max_message_length(capacity: usize, min_capacity: usize) -> (r: usize)
    ensures
        r as int == max_message_len(capacity as int, min_capacity as int),
{
    if capacity == min_capacity {
        0
    } else {
        capacity / 8
    }
}

/// A message type id below one is refused (minus one marks padding).
pub fn invalid_msg_type_id(id: i32) -> (r: bool)
    ensures
        r == (id < 1),
{
    id < 1
}

/// Where the payload of the record at `index` starts.
pub fn message_offset(index: usize) -> (r: usize)
    requires
        index + RECORD_HEADER_LENGTH <= usize::MAX,
    ensures
        r == index + RECORD_HEADER_LENGTH,
{
    index + RECORD_HEADER_LENGTH
}

/// The header word of a record: its length in the low 32 bits, its type id in the high ones.
pub open spec fn header_word(length: i32, msg_type_id: i32) -> u64 {
    (length as u32 as u64) | ((msg_type_id as u32 as u64) << 32u64)
}

/// The length field of a header word.
pub open spec fn length_of(word: u64) -> i32 {
    word as u32 as i32
}

/// The type id field of a header word.
pub open spec fn type_id_of(word: u64) -> i32 {
    (word >> 32u64) as u32 as i32
}

pub proof fn lemma_header_round_trip(length: i32, msg_type_id: i32)
    ensures
        length_of(header_word(length, msg_type_id)) == length,
        type_id_of(header_word(length, msg_type_id)) == msg_type_id,
{
    assert(((length as u32 as u64) | ((msg_type_id as u32 as u64) << 32u64)) as u32 as i32 == length) by (bit_vector);
    assert(((((length as u32 as u64) | ((msg_type_id as u32 as u64) << 32u64)) >> 32u64) as u32 as i32) == msg_type_id) by (bit_vector);
}

/// A multiple of `a` is already rounded.
pub proof fn lemma_align_up_exact(n: int, a: int)
    requires
        a > 0,
        n % a == 0,
    ensures
        align_up(n, a) == n,
{
    lemma_fundamental_div_mod(n, a);
    assert(a * (n / a) == (n / a) * a) by (nonlinear_arith);
    lemma_fundamental_div_mod_converse(n + a - 1, a, n / a, a - 1);
}

/// Rounding up to a multiple of `a` reaches at least `n`, keeps the order of
/// its arguments, and leaves an already rounded value where it is.
pub proof fn lemma_align_up_laws(n: int, m: int, a: int)
    requires
        0 <= n <= m,
        a > 0,
    ensures
        align_up(n, a) >= n,
        align_up(n, a) % a == 0,
        align_up(align_up(n, a), a) == align_up(n, a),
        align_up(n, a) <= align_up(m, a),
{
    let q = (n + a - 1) / a;
    lemma_fundamental_div_mod(n + a - 1, a);
    assert(a * q == q * a) by (nonlinear_arith);
    assert(q * a >= n);
    lemma_mod_multiples_basic(q, a);
    let x = q * a;
    assert((x + a - 1) / a == q) by {
        lemma_fundamental_div_mod_converse(x + a - 1, a, q, a - 1);
    }
    lemma_div_is_ordered(n + a - 1, m + a - 1, a);
    lemma_mul_inequality(q, (m + a - 1) / a, a);
}

/// Byte `i` of `bytes`, or zero past its end.
pub open spec fn byte_or_zero(bytes: Seq<u8>, i: int) -> u8 {
    if 0 <= i < bytes.len() {
        bytes[i]
    } else {
        0
    }
}

/// Eight bytes as one little-endian word.
pub open spec fn pack8(b0: u8, b1: u8, b2: u8, b3: u8, b4: u8, b5: u8, b6: u8, b7: u8) -> u64 {
    (b0 as u64) | ((b1 as u64) << 8u64) | ((b2 as u64) << 16u64) | ((b3 as u64) << 24u64) | ((b4 as u64) << 32u64) | ((b5 as u64) << 40u64) | ((b6 as u64) << 48u64) | ((b7 as u64) << 56u64)
}

/// Byte `j` (counted from the least significant one) of `word`.
pub open spec fn byte_of(word: u64, j: int) -> u8 {
    ((word >> (8 * j) as u64) & 0xffu64) as u8
}

/// Word `k` of a payload: its bytes `8k .. 8k + 8`, zero past its end.
pub open spec fn payload_word(bytes: Seq<u8>, k: int) -> u64 {
    pack8(
        byte_or_zero(bytes, 8 * k),
        byte_or_zero(bytes, 8 * k + 1),
        byte_or_zero(bytes, 8 * k + 2),
        byte_or_zero(bytes, 8 * k + 3),
        byte_or_zero(bytes, 8 * k + 4),
        byte_or_zero(bytes, 8 * k + 5),
        byte_or_zero(bytes, 8 * k + 6),
        byte_or_zero(bytes, 8 * k + 7),
    )
}

pub proof fn lemma_pack8_bytes(b0: u8, b1: u8, b2: u8, b3: u8, b4: u8, b5: u8, b6: u8, b7: u8)
    ensures
        byte_of(pack8(b0, b1, b2, b3, b4, b5, b6, b7), 0) == b0,
        byte_of(pack8(b0, b1, b2, b3, b4, b5, b6, b7), 1) == b1,
        byte_of(pack8(b0, b1, b2, b3, b4, b5, b6, b7), 2) == b2,
        byte_of(pack8(b0, b1, b2, b3, b4, b5, b6, b7), 3) == b3,
        byte_of(pack8(b0, b1, b2, b3, b4, b5, b6, b7), 4) == b4,
        byte_of(pack8(b0, b1, b2, b3, b4, b5, b6, b7), 5) == b5,
        byte_of(pack8(b0, b1, b2, b3, b4, b5, b6, b7), 6) == b6,
        byte_of(pack8(b0, b1, b2, b3, b4, b5, b6, b7), 7) == b7,
{
    assert((((((b0 as u64) | ((b1 as u64) << 8u64) | ((b2 as u64) << 16u64) | ((b3 as u64) << 24u64) | ((b4 as u64) << 32u64) | ((b5 as u64) << 40u64) | ((b6 as u64) << 48u64) | ((b7 as u64) << 56u64)) >> 0u64) & 0xffu64) as u8) == b0) by (bit_vector);
    assert((((((b0 as u64) | ((b1 as u64) << 8u64) | ((b2 as u64) << 16u64) | ((b3 as u64) << 24u64) | ((b4 as u64) << 32u64) | ((b5 as u64) << 40u64) | ((b6 as u64) << 48u64) | ((b7 as u64) << 56u64)) >> 8u64) & 0xffu64) as u8) == b1) by (bit_vector);
    assert((((((b0 as u64) | ((b1 as u64) << 8u64) | ((b2 as u64) << 16u64) | ((b3 as u64) << 24u64) | ((b4 as u64) << 32u64) | ((b5 as u64) << 40u64) | ((b6 as u64) << 48u64) | ((b7 as u64) << 56u64)) >> 16u64) & 0xffu64) as u8) == b2) by (bit_vector);
    assert((((((b0 as u64) | ((b1 as u64) << 8u64) | ((b2 as u64) << 16u64) | ((b3 as u64) << 24u64) | ((b4 as u64) << 32u64) | ((b5 as u64) << 40u64) | ((b6 as u64) << 48u64) | ((b7 as u64) << 56u64)) >> 24u64) & 0xffu64) as u8) == b3) by (bit_vector);
    assert((((((b0 as u64) | ((b1 as u64) << 8u64) | ((b2 as u64) << 16u64) | ((b3 as u64) << 24u64) | ((b4 as u64) << 32u64) | ((b5 as u64) << 40u64) | ((b6 as u64) << 48u64) | ((b7 as u64) << 56u64)) >> 32u64) & 0xffu64) as u8) == b4) by (bit_vector);
    assert((((((b0 as u64) | ((b1 as u64) << 8u64) | ((b2 as u64) << 16u64) | ((b3 as u64) << 24u64) | ((b4 as u64) << 32u64) | ((b5 as u64) << 40u64) | ((b6 as u64) << 48u64) | ((b7 as u64) << 56u64)) >> 40u64) & 0xffu64) as u8) == b5) by (bit_vector);
    assert((((((b0 as u64) | ((b1 as u64) << 8u64) | ((b2 as u64) << 16u64) | ((b3 as u64) << 24u64) | ((b4 as u64) << 32u64) | ((b5 as u64) << 40u64) | ((b6 as u64) << 48u64) | ((b7 as u64) << 56u64)) >> 48u64) & 0xffu64) as u8) == b6) by (bit_vector);
    assert((((((b0 as u64) | ((b1 as u64) << 8u64) | ((b2 as u64) << 16u64) | ((b3 as u64) << 24u64) | ((b4 as u64) << 32u64) | ((b5 as u64) << 40u64) | ((b6 as u64) << 48u64) | ((b7 as u64) << 56u64)) >> 56u64) & 0xffu64) as u8) == b7) by (bit_vector);
}

/// Each byte of a payload can be read back from the word that holds it.
pub proof fn lemma_payload_byte(bytes: Seq<u8>, i: int)
    requires
        0 <= i < bytes.len(),
    ensures
        byte_of(payload_word(bytes, i / 8), i % 8) == bytes[i],
{
    let k = i / 8;
    lemma_pack8_bytes(
        byte_or_zero(bytes, 8 * k),
        byte_or_zero(bytes, 8 * k + 1),
        byte_or_zero(bytes, 8 * k + 2),
        byte_or_zero(bytes, 8 * k + 3),
        byte_or_zero(bytes, 8 * k + 4),
        byte_or_zero(bytes, 8 * k + 5),
        byte_or_zero(bytes, 8 * k + 6),
        byte_or_zero(bytes, 8 * k + 7),
    );
}

/// Past the end of a payload its words are zero.
pub proof fn lemma_payload_word_past_end(bytes: Seq<u8>, k: int)
    requires
        8 * k >= bytes.len(),
    ensures
        payload_word(bytes, k) == 0,
{
    assert((0u8 as u64) | ((0u8 as u64) << 8u64) | ((0u8 as u64) << 16u64) | ((0u8 as u64) << 24u64) | ((0u8 as u64) << 32u64) | ((0u8 as u64) << 40u64) | ((0u8 as u64) << 48u64) | ((0u8 as u64) << 56u64) == 0u64) by (bit_vector);
}

/// Byte `i` of `bytes`, or zero past its end.
fn byte_at(bytes: &[u8], i: usize) -> (r: u8)
    ensures
        r == byte_or_zero(bytes@, i as int),
{
    if i < bytes.len() {
        bytes[i]
    } else {
        0
    }
}

/// Word `k` of a payload, as it is stored after the record header.
pub fn payload_word_of(bytes: &[u8], k: usize) -> (r: u64)
    requires
        8 * k + 7 <= usize::MAX,
    ensures
        r == payload_word(bytes@, k as int),
{
    let b0 = byte_at(bytes, 8 * k);
    let b1 = byte_at(bytes, 8 * k + 1);
    let b2 = byte_at(bytes, 8 * k + 2);
    let b3 = byte_at(bytes, 8 * k + 3);
    let b4 = byte_at(bytes, 8 * k + 4);
    let b5 = byte_at(bytes, 8 * k + 5);
    let b6 = byte_at(bytes, 8 * k + 6);
    let b7 = byte_at(bytes, 8 * k + 7);
    (b0 as u64) | ((b1 as u64) << 8u64) | ((b2 as u64) << 16u64) | ((b3 as u64) << 24u64) | ((b4 as u64) << 32u64) | ((b5 as u64) << 40u64) | ((b6 as u64) << 48u64) | ((b7 as u64) << 56u64)
}

/// Byte `j` of `word`.
pub fn word_byte(word: u64, j: u64) -> (r: u8)
    requires
        j < 8,
    ensures
        r == byte_of(word, j as int),
{
    ((word >> (8 * j)) & 0xff) as u8
}

/// The header word of a record.
pub fn encode_header(length: i32, msg_type_id: i32) -> (r: u64)
    ensures
        r == header_word(length, msg_type_id),
        length_of(r) == length,
        type_id_of(r) == msg_type_id,
{
    proof {
        lemma_header_round_trip(length, msg_type_id);
    }
    (length as u32 as u64) | ((msg_type_id as u32 as u64) << 32u64)
}

/// The length field of a header word.
pub fn decode_length(word: u64) -> (r: i32)
    ensures
        r == length_of(word),
{
    word as u32 as i32
}

/// The type id field of a header word.
pub fn decode_type_id(word: u64) -> (r: i32)
    ensures
        r == type_id_of(word),
{
    (word >> 32u64) as u32 as i32
}

/// What the consumer makes of a header word found `room` bytes before the end
/// of the block it reads.
#[derive(Clone, Copy, Debug, PartialEq, Eq, Structural)]
pub enum Slot {
    /// Empty, reserved, or no header that a sender writes: the scan stops here.
    Stop,
    /// A padding record of `span` bytes: skipped.
    Padding { span: usize },
    /// A committed message of `length` bytes, header included, in `span` bytes.
    Message { msg_type_id: i32, length: usize, span: usize },
}

pub open spec fn slot_of(word: u64, room: int) -> Slot {
    let length = length_of(word) as int;
    if length < RECORD_HEADER_LENGTH || length > room {
        Slot::Stop
    } else if type_id_of(word) == PADDING_MSG_TYPE_ID {
        Slot::Padding { span: align_up(length, ALIGNMENT as int) as usize }
    } else {
        Slot::Message {
            msg_type_id: type_id_of(word),
            length: length as usize,
            span: align_up(length, ALIGNMENT as int) as usize,
        }
    }
}

/// Reads a header word found `room` bytes before the end of the consumer's block.
pub fn classify_header(word: u64, room: usize) -> (r: Slot)
    requires
        room <= MAX_CAPACITY,
        room % 8 == 0,
    ensures
        r == slot_of(word, room as int),
        r matches Slot::Padding { span } ==> 8 <= span <= room && span % 8 == 0,
        r matches Slot::Message { length, span, .. } ==> RECORD_HEADER_LENGTH <= length <= span <= room
            && span % 8 == 0,
{
    let length = decode_length(word);
    if length < RECORD_HEADER_LENGTH as i32 || length as usize > room {
        return Slot::Stop;
    }
    proof {
        lemma_alignment_pow2();
        lemma_align_up_laws(length as int, room as int, ALIGNMENT as int);
        lemma_align_up_exact(room as int, ALIGNMENT as int);
    }
    let span = align(length as u64, ALIGNMENT as u64) as usize;
    let msg_type_id = decode_type_id(word);
    if msg_type_id == PADDING_MSG_TYPE_ID {
        Slot::Padding { span }
    } else {
        Slot::Message { msg_type_id, length: length as usize, span }
    }
}

} // verus!

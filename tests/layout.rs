use ringbuffer::layout::{
    classify_header, Slot, align, decode_length, decode_type_id, encode_header, index_of, invalid_msg_type_id,
    is_capacity_valid, is_power_of_two, max_message_length, message_offset, payload_word_of,
    word_byte, CACHE_LINE_LENGTH, CONSUMER_HEARTBEAT_OFFSET, CORRELATION_COUNTER_OFFSET,
    HEAD_CACHE_POSITION_OFFSET, HEAD_POSITION_OFFSET, MAX_CAPACITY, MIN_CAPACITY,
    TAIL_POSITION_OFFSET, TRAILER_LENGTH, WORD_LENGTH,
};
use ringbuffer::ring_buffer::{
    CORRELATION_WORD, HEAD_CACHE_WORD, HEAD_WORD, HEARTBEAT_WORD, TAIL_WORD, TRAILER_WORDS,
};
use std::mem::{align_of, size_of};
use std::sync::atomic::AtomicI64;

#[test]
fn ring_buffer_ringbuffer_descriptor_layout_alignment() {
    assert_eq!(TRAILER_LENGTH, 6 * 2 * CACHE_LINE_LENGTH);
    assert_eq!(align_of::<AtomicI64>(), 8);

    assert_eq!(TAIL_POSITION_OFFSET, 1 * 2 * CACHE_LINE_LENGTH);
    assert_eq!(HEAD_CACHE_POSITION_OFFSET, 2 * 2 * CACHE_LINE_LENGTH);
    assert_eq!(HEAD_POSITION_OFFSET, 3 * 2 * CACHE_LINE_LENGTH);
    assert_eq!(CORRELATION_COUNTER_OFFSET, 4 * 2 * CACHE_LINE_LENGTH);
    assert_eq!(CONSUMER_HEARTBEAT_OFFSET, 5 * 2 * CACHE_LINE_LENGTH);
}

#[test]
fn descriptor_ringbuffer_descriptor_layout_alignment() {
    assert_eq!(TRAILER_WORDS * WORD_LENGTH, 6 * 2 * CACHE_LINE_LENGTH);
    assert_eq!(size_of::<AtomicI64>(), WORD_LENGTH);

    assert_eq!(TAIL_WORD * WORD_LENGTH, 1 * 2 * CACHE_LINE_LENGTH);
    assert_eq!(HEAD_CACHE_WORD * WORD_LENGTH, 2 * 2 * CACHE_LINE_LENGTH);
    assert_eq!(HEAD_WORD * WORD_LENGTH, 3 * 2 * CACHE_LINE_LENGTH);
    assert_eq!(CORRELATION_WORD * WORD_LENGTH, 4 * 2 * CACHE_LINE_LENGTH);
    assert_eq!(HEARTBEAT_WORD * WORD_LENGTH, 5 * 2 * CACHE_LINE_LENGTH);
}

#[test]
fn trailer_is_768_bytes() {
    assert_eq!(TRAILER_LENGTH, 768);
    assert_eq!(TAIL_POSITION_OFFSET, 0x080);
    assert_eq!(HEAD_CACHE_POSITION_OFFSET, 0x100);
    assert_eq!(HEAD_POSITION_OFFSET, 0x180);
    assert_eq!(CORRELATION_COUNTER_OFFSET, 0x200);
    assert_eq!(CONSUMER_HEARTBEAT_OFFSET, 0x280);
}

#[test]
fn align_rounds_up_to_multiples() {
    assert_eq!(align(0, 8), 0);
    assert_eq!(align(1, 8), 8);
    assert_eq!(align(8, 8), 8);
    assert_eq!(align(13, 8), 16);
    assert_eq!(align(16, 8), 16);
    assert_eq!(align(17, 8), 24);
    assert_eq!(align(5, 1), 5);
    assert_eq!(align(100, 64), 128);
}

#[test]
fn align_is_idempotent_monotone_and_not_below() {
    for n in 0u64..200 {
        let a = align(n, 8);
        assert!(a >= n);
        assert_eq!(align(a, 8), a);
        assert!(align(n + 1, 8) >= a);
        assert_eq!(a % 8, 0);
    }
}

#[test]
fn power_of_two_check() {
    assert!(is_power_of_two(1));
    assert!(is_power_of_two(8));
    assert!(is_power_of_two(1024));
    assert!(is_power_of_two(1 << 63));
    assert!(!is_power_of_two(0));
    assert!(!is_power_of_two(12));
    assert!(!is_power_of_two(1023));
}

#[test]
fn capacity_validity() {
    assert!(is_capacity_valid(1024, MIN_CAPACITY));
    assert!(is_capacity_valid(8, MIN_CAPACITY));
    assert!(is_capacity_valid(MAX_CAPACITY as usize, MIN_CAPACITY));
    assert!(is_capacity_valid(1 << 31, MIN_CAPACITY));
    assert!(is_capacity_valid(1 << 32, MIN_CAPACITY));
    assert_eq!(MAX_CAPACITY, 1 << 33);
    assert!(!is_capacity_valid(4, MIN_CAPACITY));
    assert!(!is_capacity_valid(1000, MIN_CAPACITY));
    assert!(!is_capacity_valid(0, MIN_CAPACITY));
    assert!(!is_capacity_valid((2 * MAX_CAPACITY) as usize, MIN_CAPACITY));
}

#[test]
fn maximum_message_length() {
    assert_eq!(max_message_length(8, MIN_CAPACITY), 0);
    assert_eq!(max_message_length(16, MIN_CAPACITY), 2);
    assert_eq!(max_message_length(1024, MIN_CAPACITY), 128);
    assert_eq!(max_message_length(1 << 33, MIN_CAPACITY), 1 << 30);
}

#[test]
fn type_ids_below_one_are_invalid() {
    assert!(invalid_msg_type_id(0));
    assert!(invalid_msg_type_id(-1));
    assert!(invalid_msg_type_id(i32::MIN));
    assert!(!invalid_msg_type_id(1));
    assert!(!invalid_msg_type_id(88));
}

#[test]
fn payload_follows_header() {
    assert_eq!(message_offset(0), 8);
    assert_eq!(message_offset(24), 32);
}

#[test]
fn index_masks_position() {
    assert_eq!(index_of(0, 32), 0);
    assert_eq!(index_of(24, 32), 24);
    assert_eq!(index_of(40, 32), 8);
    assert_eq!(index_of(1024 + 16, 1024), 16);
}

#[test]
fn header_word_layout() {
    let word = encode_header(16, 88);
    assert_eq!(word, 16u64 | (88u64 << 32));
    assert_eq!(decode_length(word), 16);
    assert_eq!(decode_type_id(word), 88);
    let reserved = encode_header(-16, 0);
    assert_eq!(decode_length(reserved), -16);
    assert_eq!(decode_type_id(reserved), 0);
    let padding = encode_header(8, -1);
    assert_eq!(decode_length(padding), 8);
    assert_eq!(decode_type_id(padding), -1);
    assert_eq!(padding.to_le_bytes(), [8, 0, 0, 0, 0xff, 0xff, 0xff, 0xff]);
}

#[test]
fn payload_words_are_little_endian() {
    let payload = [54u8, 33, 77, 11, 123, 1, 2, 3, 4, 5];
    let first = payload_word_of(&payload, 0);
    assert_eq!(first.to_le_bytes(), [54, 33, 77, 11, 123, 1, 2, 3]);
    let second = payload_word_of(&payload, 1);
    assert_eq!(second.to_le_bytes(), [4, 5, 0, 0, 0, 0, 0, 0]);
    assert_eq!(word_byte(first, 0), 54);
    assert_eq!(word_byte(first, 4), 123);
    assert_eq!(word_byte(second, 1), 5);
    assert_eq!(word_byte(second, 7), 0);
}

#[test]
fn consumer_reads_header_words() {
    assert_eq!(classify_header(0, 64), Slot::Stop);
    assert_eq!(classify_header(encode_header(-16, 0), 64), Slot::Stop);
    assert_eq!(classify_header(encode_header(4, 9), 64), Slot::Stop);
    assert_eq!(classify_header(encode_header(72, 9), 64), Slot::Stop);
    assert_eq!(classify_header(encode_header(8, -1), 64), Slot::Padding { span: 8 });
    assert_eq!(
        classify_header(encode_header(13, 88), 64),
        Slot::Message { msg_type_id: 88, length: 13, span: 16 }
    );
    assert_eq!(
        classify_header(encode_header(64, 2), 64),
        Slot::Message { msg_type_id: 2, length: 64, span: 64 }
    );
}

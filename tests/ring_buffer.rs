use ringbuffer::layout::encode_header;
use ringbuffer::scan::{record_words, scan_block};
use ringbuffer::ring_buffer::TRAILER_WORDS;
use ringbuffer::{attach, RingBuffer, RingBufferError};

#[test]
fn read_write_read_single_message() {
    let (mut sender, mut receiver) = RingBuffer::new(1024).unwrap().split();

    let message = (88, [54, 33, 77, 11, 123]);

    sender.send(message.0, &message.1).unwrap();

    let mut received = receiver.receive(1);

    assert_eq!(received.len(), 1);

    let received_message = received.remove(0);
    assert_eq!(received_message.0, message.0);
    assert_eq!(received_message.1, message.1);
}

#[test]
fn read_write_read_multiple_messages() {
    let (mut sender, mut receiver) = RingBuffer::new(1024).unwrap().split();

    let message_one = (88, [54, 33, 77, 11, 123]);

    sender.send(message_one.0, &message_one.1).unwrap();

    let mut received = receiver.receive(1);

    assert_eq!(received.len(), 1);

    let received_message = received.remove(0);
    assert_eq!(received_message.0, message_one.0);
    assert_eq!(received_message.1, message_one.1);

    let message_two = (94, [44, 11]);

    sender.send(message_two.0, &message_two.1).unwrap();

    let mut received = receiver.receive(1);

    assert_eq!(received.len(), 1);

    let received_message = received.remove(0);
    assert_eq!(received_message.0, message_two.0);
    assert_eq!(received_message.1, message_two.1);
}

#[test]
fn single_message_round_trip_positions() {
    let mut rb = RingBuffer::new(1024).unwrap();
    rb.write(88, &[54, 33, 77, 11, 123]).unwrap();
    assert_eq!(rb.tail_position(), 16);
    let received = rb.read(1);
    assert_eq!(received, vec![(88, vec![54, 33, 77, 11, 123])]);
    assert_eq!(rb.head_position(), 16);
    assert_eq!(rb.tail_position(), 16);
}

#[test]
fn two_sequential_messages_positions() {
    let mut rb = RingBuffer::new(1024).unwrap();
    rb.write(88, &[54, 33, 77, 11, 123]).unwrap();
    assert_eq!(rb.read(1), vec![(88, vec![54, 33, 77, 11, 123])]);
    rb.write(94, &[44, 11]).unwrap();
    assert_eq!(rb.read(1), vec![(94, vec![44, 11])]);
    assert_eq!(rb.head_position(), 32);
    assert_eq!(rb.tail_position(), 32);
}

#[test]
fn messages_arrive_in_send_order() {
    let mut rb = RingBuffer::new(1024).unwrap();
    let sent: Vec<(i32, Vec<u8>)> = (1..=20).map(|i| (i, vec![i as u8; (i % 9) as usize])).collect();
    for (t, p) in &sent {
        rb.write(*t, p).unwrap();
    }
    let received = rb.read(usize::MAX);
    assert_eq!(received, sent);
    assert_eq!(rb.head_position(), rb.tail_position());
}

#[test]
fn receive_respects_the_limit() {
    let mut rb = RingBuffer::new(1024).unwrap();
    for t in 1..=5 {
        rb.write(t, &[t as u8]).unwrap();
    }
    assert_eq!(rb.read(2), vec![(1, vec![1]), (2, vec![2])]);
    assert_eq!(rb.head_position(), 32);
    assert_eq!(rb.read(0), vec![]);
    assert_eq!(rb.head_position(), 32);
    assert_eq!(rb.read(10), vec![(3, vec![3]), (4, vec![4]), (5, vec![5])]);
    assert_eq!(rb.read(10), vec![]);
}

#[test]
fn wrap_with_padding() {
    let mut rb = RingBuffer::new(32).unwrap();
    assert_eq!(rb.max_message_length(), 4);
    for t in 1..=3 {
        rb.write(t, &[]).unwrap();
    }
    assert_eq!(rb.tail_position(), 24);
    assert_eq!(rb.read(10), vec![(1, vec![]), (2, vec![]), (3, vec![])]);
    assert_eq!(rb.head_position(), 24);
    // 8 + 4 bytes round up to 16, more than the 8 left before the end.
    rb.write(7, &[1, 2, 3, 4]).unwrap();
    assert_eq!(rb.tail_position(), 24 + 8 + 16);
    // The first receive only consumes the padding record up to the end.
    assert_eq!(rb.read(10), vec![]);
    assert_eq!(rb.head_position(), 32);
    assert_eq!(rb.read(10), vec![(7, vec![1, 2, 3, 4])]);
    assert_eq!(rb.head_position(), 48);
    assert_eq!(rb.tail_position(), 48);
}

#[test]
fn exact_fit_to_end_needs_no_padding() {
    let mut rb = RingBuffer::new(32).unwrap();
    rb.write(1, &[]).unwrap();
    rb.write(2, &[]).unwrap();
    assert_eq!(rb.read(10).len(), 2);
    assert_eq!(rb.tail_position(), 16);
    // 8 + 4 bytes round up to 16: exactly what is left before the end.
    rb.write(3, &[9, 9, 9, 9]).unwrap();
    assert_eq!(rb.tail_position(), 32);
    assert_eq!(rb.read(10), vec![(3, vec![9, 9, 9, 9])]);
    assert_eq!(rb.head_position(), 32);
}

#[test]
fn capacity_exhaustion() {
    let mut rb = RingBuffer::new(64).unwrap();
    let mut sent = 0;
    loop {
        match rb.write(5, &[1, 2, 3, 4, 5, 6, 7, 8]) {
            Ok(()) => sent += 1,
            Err(e) => {
                assert_eq!(e, RingBufferError::InsufficientCapacity);
                break;
            }
        }
    }
    assert_eq!(sent, 4);
    assert_eq!(rb.tail_position() - rb.head_position(), 64);
    let before = rb.tail_position();
    assert_eq!(rb.write(5, &[1]), Err(RingBufferError::InsufficientCapacity));
    assert_eq!(rb.tail_position(), before);
    assert_eq!(rb.read(10).len(), 4);
}

#[test]
fn insufficient_capacity_when_wrap_does_not_fit_before_head() {
    let mut rb = RingBuffer::new(64).unwrap();
    rb.write(1, &[]).unwrap();
    for _ in 0..3 {
        rb.write(2, &[0; 8]).unwrap();
    }
    assert_eq!(rb.tail_position(), 56);
    assert_eq!(rb.read(1), vec![(1, vec![])]);
    assert_eq!(rb.head_position(), 8);
    // 16 bytes are free in all, but only 8 before the end and 8 before the head.
    assert_eq!(rb.write(3, &[0; 8]), Err(RingBufferError::InsufficientCapacity));
    assert_eq!(rb.tail_position(), 56);
    // An 8-byte record fits before the end.
    rb.write(4, &[]).unwrap();
    assert_eq!(rb.tail_position(), 64);
}

#[test]
fn wrap_fits_before_head_after_receive() {
    let mut rb = RingBuffer::new(64).unwrap();
    rb.write(1, &[]).unwrap();
    for _ in 0..3 {
        rb.write(2, &[0; 8]).unwrap();
    }
    assert_eq!(rb.read(2).len(), 2);
    assert_eq!(rb.head_position(), 24);
    rb.write(3, &[7; 8]).unwrap();
    assert_eq!(rb.tail_position(), 56 + 8 + 16);
    assert_eq!(rb.read(10), vec![(2, vec![0; 8]), (2, vec![0; 8])]);
    assert_eq!(rb.read(10), vec![(3, vec![7; 8])]);
    assert_eq!(rb.head_position(), rb.tail_position());
}

#[test]
fn minimum_capacity_has_no_room_for_payloads() {
    let mut rb = RingBuffer::new(8).unwrap();
    assert_eq!(rb.max_message_length(), 0);
    assert_eq!(rb.write(1, &[1]), Err(RingBufferError::MessageTooLong));
    assert_eq!(rb.write(0, &[1]), Err(RingBufferError::MessageTooLong));
    assert_eq!(rb.tail_position(), 0);
    assert_eq!(RingBuffer::new(16).unwrap().max_message_length(), 2);
}

#[test]
fn argument_errors() {
    let mut rb = RingBuffer::new(1024).unwrap();
    assert_eq!(rb.write(0, &[1]), Err(RingBufferError::InvalidMessageTypeId));
    assert_eq!(rb.write(-1, &[1]), Err(RingBufferError::InvalidMessageTypeId));
    assert_eq!(rb.write(1, &[0; 129]), Err(RingBufferError::MessageTooLong));
    assert_eq!(rb.tail_position(), 0);
    rb.write(1, &[0; 128]).unwrap();
    assert_eq!(rb.tail_position(), 136);
}

#[test]
fn invalid_capacities() {
    assert_eq!(RingBuffer::new(1000).err(), Some(RingBufferError::InvalidCapacity));
    assert_eq!(RingBuffer::new(4).err(), Some(RingBufferError::InvalidCapacity));
    assert_eq!(RingBuffer::new(0).err(), Some(RingBufferError::InvalidCapacity));
    assert!(RingBuffer::new(8).is_ok());
}

#[test]
fn region_construction() {
    let rb = RingBuffer::from_memory(vec![7u64; 128 + TRAILER_WORDS]).unwrap();
    assert_eq!(rb.capacity(), 1024);
    assert_eq!(rb.tail_position(), 0);
    assert_eq!(rb.head_position(), 0);
    assert_eq!(rb.correlation_counter(), 0);
    assert_eq!(
        RingBuffer::from_memory(vec![0u64; 100 + TRAILER_WORDS]).err(),
        Some(RingBufferError::InvalidCapacity)
    );
    assert_eq!(
        RingBuffer::from_memory(vec![0u64; TRAILER_WORDS - 1]).err(),
        Some(RingBufferError::InvalidCapacity)
    );
}

#[test]
fn buffered_bytes_match_positions() {
    let mut rb = RingBuffer::new(64).unwrap();
    rb.write(1, &[1, 2, 3]).unwrap();
    rb.write(2, &[]).unwrap();
    assert_eq!(rb.tail_position() - rb.head_position(), 16 + 8);
    rb.read(1);
    assert_eq!(rb.tail_position() - rb.head_position(), 8);
}

#[test]
fn admin_counters() {
    let mut rb = RingBuffer::new(64).unwrap();
    rb.set_correlation_counter(-5);
    rb.set_consumer_heartbeat(1234);
    assert_eq!(rb.correlation_counter(), -5);
    assert_eq!(rb.consumer_heartbeat(), 1234);
    let (sender, receiver) = rb.split();
    assert_eq!(sender.admin_counters().correlation_counter().load(std::sync::atomic::Ordering::Acquire), -5);
    assert_eq!(receiver.admin_counters().consumer_heartbeat().load(std::sync::atomic::Ordering::Acquire), 1234);
}

#[test]
fn split_keeps_buffered_messages() {
    let mut rb = RingBuffer::new(128).unwrap();
    rb.write(3, &[1, 2]).unwrap();
    let (mut sender, mut receiver) = rb.split();
    sender.send(4, &[3]).unwrap();
    assert_eq!(receiver.receive(10), vec![(3, vec![1, 2]), (4, vec![3])]);
    assert_eq!(receiver.receive(10), vec![]);
}

#[test]
fn shared_send_errors_and_wrap() {
    let (mut sender, mut receiver) = RingBuffer::new(32).unwrap().split();
    assert_eq!(sender.send(0, &[]), Err(RingBufferError::InvalidMessageTypeId));
    assert_eq!(sender.send(1, &[0; 5]), Err(RingBufferError::MessageTooLong));
    for t in 1..=3 {
        sender.send(t, &[]).unwrap();
    }
    assert_eq!(receiver.receive(10).len(), 3);
    sender.send(7, &[1, 2, 3, 4]).unwrap();
    assert_eq!(receiver.receive(10), vec![]);
    assert_eq!(receiver.receive(10), vec![(7, vec![1, 2, 3, 4])]);
    assert_eq!(sender.tail_position(), 48);
    assert_eq!(sender.head_position(), 48);
    assert_eq!(receiver.tail_position(), 48);
}

#[test]
fn shared_capacity_exhaustion() {
    let (mut sender, mut receiver) = RingBuffer::new(64).unwrap().split();
    for _ in 0..4 {
        sender.send(5, &[0; 8]).unwrap();
    }
    assert_eq!(sender.send(5, &[0; 8]), Err(RingBufferError::InsufficientCapacity));
    assert_eq!(receiver.receive(1).len(), 1);
    sender.send(5, &[1; 8]).unwrap();
}

#[test]
fn cloned_senders_share_the_tail() {
    let (mut first, mut receiver) = RingBuffer::new(256).unwrap().split();
    let mut second = first.clone();
    first.send(1, &[1]).unwrap();
    second.send(2, &[2]).unwrap();
    first.send(1, &[3]).unwrap();
    assert_eq!(receiver.receive(10), vec![(1, vec![1]), (2, vec![2]), (1, vec![3])]);
}

#[test]
fn reserved_slot_blocks_consumer() {
    let mut region = vec![0u64; 128 + TRAILER_WORDS];
    region[0] = encode_header(-16, 0);
    let (_sender, mut receiver) = attach(region, false).unwrap();
    assert_eq!(receiver.receive(1000), vec![]);
    assert_eq!(receiver.head_position(), 0);
}

#[test]
fn attach_zeroes_a_fresh_region() {
    let mut region = vec![0u64; 128 + TRAILER_WORDS];
    region[0] = encode_header(-16, 0);
    region[128 + 16] = 999;
    let (mut sender, mut receiver) = attach(region, true).unwrap();
    assert_eq!(receiver.tail_position(), 0);
    sender.send(9, &[1]).unwrap();
    assert_eq!(receiver.receive(1000), vec![(9, vec![1])]);
    assert!(attach(vec![0u64; 3 + TRAILER_WORDS], true).is_err());
}

#[test]
fn one_message_drains_in_at_most_two_receives() {
    for start in 0..16usize {
        for k in 0..=112usize {
            let mut rb = RingBuffer::new(1024).unwrap();
            // Move the positions so that the message may have to wrap.
            for _ in 0..start {
                rb.write(1, &[0; 56]).unwrap();
                rb.read(1);
            }
            let payload: Vec<u8> = (0..k).map(|i| i as u8).collect();
            rb.write(42, &payload).unwrap();
            let mut received = rb.read(usize::MAX);
            if received.is_empty() {
                received = rb.read(usize::MAX);
            }
            assert_eq!(received, vec![(42, payload)]);
            assert_eq!(rb.head_position(), rb.tail_position());
        }
    }
}

#[test]
fn handlers_receive_each_message() {
    let mut rb = RingBuffer::new(256).unwrap();
    rb.write(1, &[1]).unwrap();
    rb.write(2, &[2, 2]).unwrap();
    let seen = std::cell::RefCell::new(Vec::new());
    let n = rb.read_with(10, |t: i32, p: &[u8]| seen.borrow_mut().push((t, p.to_vec())));
    assert_eq!(n, 2);
    assert_eq!(*seen.borrow(), vec![(1, vec![1]), (2, vec![2, 2])]);
    assert_eq!(rb.head_position(), rb.tail_position());

    let (mut sender, mut receiver) = rb.split();
    sender.send(3, &[3, 3, 3]).unwrap();
    sender.send(4, &[]).unwrap();
    let seen = std::cell::RefCell::new(Vec::new());
    let n = receiver.receive_with(1, |t: i32, p: &[u8]| seen.borrow_mut().push((t, p.to_vec())));
    assert_eq!(n, 1);
    assert_eq!(*seen.borrow(), vec![(3, vec![3, 3, 3])]);
    let n = receiver.receive_with(5, |t: i32, p: &[u8]| seen.borrow_mut().push((t, p.to_vec())));
    assert_eq!(n, 1);
    assert_eq!(seen.borrow().len(), 2);
}

#[test]
fn record_words_of_a_message() {
    let words = record_words(88, &[54, 33, 77, 11, 123]);
    assert_eq!(words, vec![encode_header(13, 88), u64::from_le_bytes([54, 33, 77, 11, 123, 0, 0, 0])]);
    assert_eq!(record_words(1, &[]), vec![encode_header(8, 1)]);
    assert_eq!(record_words(2, &[9; 9]).len(), 3);
}

#[test]
fn scan_of_a_block() {
    let mut block = record_words(88, &[54, 33, 77, 11, 123]);
    block.push(encode_header(16, -1));
    block.push(0);
    block.extend(record_words(94, &[44, 11]));
    block.push(encode_header(-16, 0));
    block.push(0);
    block.extend(record_words(5, &[1]));
    let (messages, bytes) = scan_block(&block, 100);
    assert_eq!(messages, vec![(88, vec![54, 33, 77, 11, 123]), (94, vec![44, 11])]);
    assert_eq!(bytes, 48);
    let (messages, bytes) = scan_block(&block, 1);
    assert_eq!(messages, vec![(88, vec![54, 33, 77, 11, 123])]);
    assert_eq!(bytes, 16);
    assert_eq!(scan_block(&block, 0), (vec![], 0));
    // A header longer than what is left of the block stops the scan.
    assert_eq!(scan_block(&vec![encode_header(24, 3), 0], 10), (vec![], 0));
}

#[test]
fn handles_see_one_region() {
    let (mut sender, receiver) = RingBuffer::new(64).unwrap().split();
    sender.send(1, &[1, 2]).unwrap();
    assert_eq!(receiver.tail_position(), 16);
    assert_eq!(sender.tail_position(), 16);
    receiver.admin_counters().correlation_counter().store(7, std::sync::atomic::Ordering::Release);
    assert_eq!(sender.admin_counters().correlation_counter().load(std::sync::atomic::Ordering::Acquire), 7);
}

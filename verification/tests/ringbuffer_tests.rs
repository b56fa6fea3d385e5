use ringbuffer::{AllocatedRingBuffer, Metadata, Ringbuffer, BASE_SEQUENCE, HEADER_SIZE};

#[derive(Copy, Clone, Debug, PartialEq, Eq)]
struct TestMetadata(u64);

impl Metadata for TestMetadata {}

fn write(buffer: &mut [u8], bytes: &[u8]) {
    for (buffer_byte, byte) in buffer.iter_mut().zip(bytes.iter()) {
        *buffer_byte = *byte;
    }
}

#[test]
fn empty_buffer_sequences() {
    let buffer = AllocatedRingBuffer::<TestMetadata>::new(8, 1);

    assert_eq!(buffer.first_sequence(), BASE_SEQUENCE);
    assert_eq!(buffer.first_valid_sequence(), BASE_SEQUENCE);
    assert_eq!(buffer.next_sequence(), BASE_SEQUENCE);
    assert_eq!(buffer.next_reserve_sequence(), BASE_SEQUENCE);
}

/// Payload length of the block for a message of `size` bytes.
fn payload_len(size: usize) -> usize {
    (size + HEADER_SIZE + HEADER_SIZE - 1) / HEADER_SIZE * HEADER_SIZE - HEADER_SIZE
}

#[test]
fn reserve() {
    let mut buffer = AllocatedRingBuffer::<TestMetadata>::new(2048, 4);

    let message_text = b"Hello World!";
    let metadata = TestMetadata(42);

    let mut reservation = buffer.reserve(message_text.len()).unwrap();

    assert_eq!(reservation.sequence(), 0);
    write(reservation.buffer_mut(), message_text);

    reservation.finalize(&mut buffer, metadata);

    let mut text_buffer = [0; 8];
    let message = buffer.read(0, &mut text_buffer).unwrap();

    assert_eq!(message.buffer.unwrap(), &message_text[..8]);
    assert_eq!(message.metadata, metadata);
}

#[test]
fn reserve_finalize_read_returns_payload() {
    let mut buffer = AllocatedRingBuffer::<TestMetadata>::new(2048, 4);

    let message_text = b"Hello World!";
    let metadata = TestMetadata(42);

    let mut reservation = buffer.reserve(message_text.len()).unwrap();
    assert_eq!(reservation.sequence(), 0);
    assert_eq!(reservation.buffer().len(), payload_len(12));
    assert!(reservation.buffer().len() >= 12);
    write(reservation.buffer_mut(), message_text);

    reservation.finalize(&mut buffer, metadata);

    let mut text_buffer = [0u8; 16];
    let message = buffer.read(0, &mut text_buffer).unwrap();
    assert_eq!(message.sequence, 0);
    assert_eq!(message.metadata, metadata);
    let read = message.buffer.unwrap();
    assert_eq!(&read[..12], message_text);
    assert_eq!(&read[12..], &[0, 0, 0, 0]);
}

#[test]
fn reserve_commit_read_roundtrip() {
    let mut rb = AllocatedRingBuffer::<TestMetadata>::new(1024, 16);

    let mut reserved = rb.reserve(13).unwrap();
    assert!(reserved.buffer().len() >= 13);
    write(reserved.buffer_mut(), b"hello, world!");
    let sequence = reserved.sequence();

    let committed = reserved.commit(&mut rb, TestMetadata(42));
    // The next reservation closes the editing window of the newest committed message.
    let _next = rb.reserve(0).unwrap();
    drop(committed);

    let mut buf = vec![0u8; 13];
    let msg = rb.read(sequence, &mut buf).unwrap();

    assert_eq!(msg.sequence, sequence);
    assert_eq!(msg.metadata, TestMetadata(42));
    assert!(msg.buffer.is_some());
    assert_eq!(&buf, b"hello, world!");
}

#[test]
fn reopen_for_editing() {
    let mut rb = AllocatedRingBuffer::<TestMetadata>::new(128, 8);

    let mut reserved = rb.reserve(8).unwrap();
    write(reserved.buffer_mut(), b"12345678");
    let seq = reserved.sequence();
    let committed = reserved.commit(&mut rb, TestMetadata(1));

    if let Ok((reopened, metadata)) = committed.reopen(4) {
        assert_eq!(metadata, TestMetadata(1));
        reopened.finalize(&mut rb, TestMetadata(metadata.0.wrapping_add(1)));
    }

    let mut buf = vec![0u8; 8];
    if let Some(msg) = rb.read(seq, &mut buf) {
        assert_eq!(msg.metadata, TestMetadata(2));
        assert_eq!(&buf, b"12345678");
    }
}

#[test]
fn read_into_short_buffer_copies_prefix() {
    let mut buffer = Ringbuffer::<TestMetadata>::new(256, 4);
    let mut reservation = buffer.reserve(5).unwrap();
    write(reservation.buffer_mut(), b"abcde");
    reservation.finalize(&mut buffer, TestMetadata(1));

    let mut short = [9u8; 2];
    let message = buffer.read(0, &mut short).unwrap();
    assert_eq!(message.buffer.unwrap(), b"ab");
}

#[test]
fn reservations_get_consecutive_sequences() {
    let mut buffer = Ringbuffer::<TestMetadata>::new(1024, 8);
    let first = buffer.reserve(1).unwrap();
    let second = buffer.reserve(1).unwrap();
    let third = buffer.reserve(1).unwrap();
    assert_eq!(first.sequence(), 0);
    assert_eq!(second.sequence(), 1);
    assert_eq!(third.sequence(), 2);
}

#[test]
fn oversized_reservations_are_refused() {
    let mut buffer = Ringbuffer::<TestMetadata>::new(64, 4);
    assert!(buffer.reserve(25).is_none());
    assert!(buffer.reserve(usize::MAX).is_none());
    assert!(buffer.reserve(usize::MAX - 8).is_none());
    let reservation = buffer.reserve(24).unwrap();
    assert_eq!(reservation.sequence(), 0);
    assert_eq!(reservation.buffer().len(), 24);
}

#[test]
fn zero_size_reservation_has_no_payload() {
    let mut buffer = Ringbuffer::<TestMetadata>::new(64, 4);
    let reservation = buffer.reserve(0).unwrap();
    assert_eq!(reservation.sequence(), 0);
    assert!(reservation.buffer().is_empty());
    reservation.finalize(&mut buffer, TestMetadata(3));
    let mut out = [7u8; 4];
    let message = buffer.read(0, &mut out).unwrap();
    assert_eq!(message.metadata, TestMetadata(3));
    assert_eq!(message.buffer.unwrap(), &[7, 7, 7, 7]);
}

#[test]
fn newest_commit_waits_for_next_reservation() {
    let mut buffer = Ringbuffer::<TestMetadata>::new(256, 4);
    let mut first = buffer.reserve(4).unwrap();
    write(first.buffer_mut(), &[1, 2, 3, 4]);
    let _committed = first.commit(&mut buffer, TestMetadata(7));

    let mut out = [0u8; 4];
    assert!(buffer.read(0, &mut out).is_none());
    assert_eq!(buffer.next_reserve_sequence(), 1);

    let second = buffer.reserve(4).unwrap();
    assert_eq!(second.sequence(), 1);
    let message = buffer.read(0, &mut out).unwrap();
    assert_eq!(message.sequence, 0);
    assert_eq!(message.metadata, TestMetadata(7));
    assert_eq!(message.buffer.unwrap(), &[1, 2, 3, 4]);
    assert_eq!(buffer.next_reserve_sequence(), 2);
    assert_eq!(buffer.next_sequence(), 1);

    second.finalize(&mut buffer, TestMetadata(8));
    assert_eq!(buffer.next_reserve_sequence(), 2);
    assert_eq!(buffer.next_sequence(), 2);
}

#[test]
fn older_commit_is_finalized_at_once() {
    let mut buffer = Ringbuffer::<TestMetadata>::new(256, 4);
    let first = buffer.reserve(4).unwrap();
    let _second = buffer.reserve(4).unwrap();
    let _committed = first.commit(&mut buffer, TestMetadata(5));
    let mut out = [0u8; 4];
    let message = buffer.read(0, &mut out).unwrap();
    assert_eq!(message.metadata, TestMetadata(5));
    assert!(buffer.read(1, &mut out).is_none());
}

#[test]
fn unreserved_sequences_read_as_nothing() {
    let mut buffer = Ringbuffer::<TestMetadata>::new(256, 4);
    let mut out = [0u8; 4];
    assert!(buffer.read(0, &mut out).is_none());
    assert!(buffer.read(3, &mut out).is_none());
    assert!(buffer.read(u64::MAX, &mut out).is_none());
    let reservation = buffer.reserve(4).unwrap();
    reservation.finalize(&mut buffer, TestMetadata(9));
    assert!(buffer.read(1, &mut out).is_none());
    assert!(buffer.read(2, &mut out).is_none());
}

#[test]
fn empty_descriptors_lead_to_the_next_id_round() {
    let mut buffer = Ringbuffer::<TestMetadata>::new(256, 4);
    let reservation = buffer.reserve(4).unwrap();
    reservation.finalize(&mut buffer, TestMetadata(9));
    let mut out = [0u8; 4];
    assert_eq!(buffer.read(u64::MAX, &mut out).unwrap().sequence, 0);
    assert_eq!(buffer.read(u64::MAX - 1, &mut out).unwrap().sequence, 0);
    assert!(buffer.read(u64::MAX - 3, &mut out).is_none());
}

#[test]
fn two_half_capacity_blocks_do_not_overlap() {
    let mut buffer = AllocatedRingBuffer::<TestMetadata>::new(32, 8);
    let mut first = buffer.reserve(4).unwrap();
    let mut second = buffer.reserve(4).unwrap();
    assert_eq!(second.sequence(), 1);
    assert!(second.buffer().len() >= 4);
    let len = first.buffer().len();
    assert_eq!(len, payload_len(4));
    assert_eq!(second.buffer().len(), len);
    write(first.buffer_mut(), &[0x11; 16]);
    write(second.buffer_mut(), &[0x22; 16]);
    first.finalize(&mut buffer, TestMetadata(0));
    second.finalize(&mut buffer, TestMetadata(1));

    let mut out = vec![0u8; len];
    let message = buffer.read(0, &mut out).unwrap();
    assert_eq!(message.metadata, TestMetadata(0));
    assert_eq!(message.buffer.unwrap(), &vec![0x11; len][..]);
    let message = buffer.read(1, &mut out).unwrap();
    assert_eq!(message.metadata, TestMetadata(1));
    assert_eq!(message.buffer.unwrap(), &vec![0x22; len][..]);
}

#[test]
fn blocks_of_half_the_capacity_fill_a_lap() {
    let mut buffer = Ringbuffer::<TestMetadata>::new(64, 8);
    let size = 32 - HEADER_SIZE;
    let mut first = buffer.reserve(size).unwrap();
    let mut second = buffer.reserve(size).unwrap();
    assert_eq!(first.buffer().len(), size);
    assert_eq!(second.buffer().len(), size);
    write(first.buffer_mut(), &[0xaa; 32]);
    write(second.buffer_mut(), &[0xbb; 32]);
    first.finalize(&mut buffer, TestMetadata(0));
    second.finalize(&mut buffer, TestMetadata(1));

    let mut out = vec![0u8; size];
    let message = buffer.read(1, &mut out).unwrap();
    assert_eq!(message.metadata, TestMetadata(1));
    assert_eq!(message.buffer.unwrap(), &vec![0xbb; size][..]);
    let message = buffer.read(0, &mut out).unwrap();
    assert_eq!(message.metadata, TestMetadata(0));
    assert_eq!(message.buffer.unwrap(), &vec![0xaa; size][..]);
}

#[test]
fn overwritten_block_reads_as_metadata_only() {
    let mut buffer = Ringbuffer::<TestMetadata>::new(64, 8);
    let size = 32 - HEADER_SIZE;
    let mut first = buffer.reserve(size).unwrap();
    write(first.buffer_mut(), &[0xaa; 32]);
    first.finalize(&mut buffer, TestMetadata(0));
    let mut second = buffer.reserve(size).unwrap();
    write(second.buffer_mut(), &[0xbb; 32]);
    second.finalize(&mut buffer, TestMetadata(1));

    // The third block starts the next lap, on top of the first one.
    let mut third = buffer.reserve(size).unwrap();
    assert_eq!(third.sequence(), 2);

    let mut out = vec![7u8; size];
    let message = buffer.read(0, &mut out).unwrap();
    assert_eq!(message.sequence, 0);
    assert_eq!(message.metadata, TestMetadata(0));
    assert!(message.buffer.is_none());
    assert_eq!(out, vec![7u8; size]);

    let message = buffer.read(1, &mut out).unwrap();
    assert_eq!(message.buffer.unwrap(), &vec![0xbb; size][..]);

    write(third.buffer_mut(), &[0xcc; 32]);
    third.finalize(&mut buffer, TestMetadata(2));
    let message = buffer.read(2, &mut out).unwrap();
    assert_eq!(message.metadata, TestMetadata(2));
    assert_eq!(message.buffer.unwrap(), &vec![0xcc; size][..]);
    assert!(buffer.read(0, &mut out).unwrap().buffer.is_none());
}

#[test]
fn getters_follow_the_finalized_messages() {
    let mut buffer = Ringbuffer::<TestMetadata>::new(256, 4);
    let reservation = buffer.reserve(4).unwrap();
    reservation.finalize(&mut buffer, TestMetadata(2));
    assert_eq!(buffer.first_sequence(), BASE_SEQUENCE);
    assert_eq!(buffer.first_valid_sequence(), 0);
    assert_eq!(buffer.next_sequence(), 1);
    assert_eq!(buffer.next_reserve_sequence(), 1);
}

#[test]
fn next_reserve_sequence_announces_the_next_reservation() {
    let mut buffer = AllocatedRingBuffer::<TestMetadata>::new(2048, 4);
    let _held = buffer.reserve(12).unwrap();
    assert_eq!(buffer.next_reserve_sequence(), 1);
    let next = buffer.reserve(12).unwrap();
    assert_eq!(next.sequence(), 1);
    assert_eq!(buffer.next_reserve_sequence(), 2);
    assert_eq!(buffer.next_sequence(), BASE_SEQUENCE);
    assert_eq!(buffer.first_valid_sequence(), BASE_SEQUENCE);
}

#[test]
fn first_valid_sequence_skips_a_held_message() {
    let mut buffer = AllocatedRingBuffer::<TestMetadata>::new(2048, 4);
    let _held = buffer.reserve(12).unwrap();
    let second = buffer.reserve(12).unwrap();
    second.finalize(&mut buffer, TestMetadata(5));
    assert_eq!(buffer.first_valid_sequence(), 1);
    assert_eq!(buffer.next_sequence(), 2);
    let mut out = [0u8; 4];
    assert!(buffer.read(0, &mut out).is_none());
    let message = buffer.read(1, &mut out).unwrap();
    assert_eq!(message.metadata, TestMetadata(5));
}

#[test]
fn committed_message_is_not_reopened() {
    let mut buffer = AllocatedRingBuffer::<TestMetadata>::new(128, 8);
    let reserved = buffer.reserve(8).unwrap();
    let committed = reserved.commit(&mut buffer, TestMetadata(1));
    assert!(committed.reopen(4).is_err());
    assert_eq!(buffer.next_reserve_sequence(), 1);
}

#[test]
fn next_sequence_follows_the_newest_when_all_are_finalized() {
    let mut buffer = AllocatedRingBuffer::<TestMetadata>::new(2048, 4);
    let first = buffer.reserve(12).unwrap();
    first.finalize(&mut buffer, TestMetadata(1));
    let second = buffer.reserve(12).unwrap();
    second.finalize(&mut buffer, TestMetadata(2));
    assert_eq!(buffer.next_sequence(), 2);
    assert_eq!(buffer.next_reserve_sequence(), 2);
    assert_eq!(buffer.first_valid_sequence(), 0);
}

#[test]
fn late_commit_does_not_overwrite_a_newer_block() {
    let mut buffer = AllocatedRingBuffer::<TestMetadata>::new(64, 8);
    let size = 32 - HEADER_SIZE;
    let mut a = buffer.reserve(size).unwrap();
    let b = buffer.reserve(size).unwrap();
    b.finalize(&mut buffer, TestMetadata(1));
    // The third block starts the next lap, on top of the first one, which is still open.
    let mut c = buffer.reserve(size).unwrap();
    write(a.buffer_mut(), &[97; 32]);
    write(c.buffer_mut(), &[99; 32]);
    c.finalize(&mut buffer, TestMetadata(2));
    let _committed = a.commit(&mut buffer, TestMetadata(0));

    let mut out = vec![0u8; size];
    let message = buffer.read(2, &mut out).unwrap();
    assert_eq!(message.sequence, 2);
    assert_eq!(message.buffer.unwrap(), &vec![99u8; size][..]);

    let mut out = vec![5u8; size];
    let message = buffer.read(0, &mut out).unwrap();
    assert_eq!(message.metadata, TestMetadata(0));
    assert!(message.buffer.is_none());
    assert_eq!(out, vec![5u8; size]);
}

#[test]
fn header_inside_an_older_payload_hides_it() {
    let h = HEADER_SIZE;
    let mut buffer = AllocatedRingBuffer::<TestMetadata>::new(8 * h, 8);
    let first = buffer.reserve(h).unwrap();
    let mut second = buffer.reserve(3 * h).unwrap();
    write(second.buffer_mut(), &[0x33; 64]);
    second.finalize(&mut buffer, TestMetadata(1));
    let mut out = vec![0u8; 3 * h];
    assert_eq!(buffer.read(1, &mut out).unwrap().buffer.unwrap(), &vec![0x33u8; 3 * h][..]);

    // Goes to the start of the next lap.
    let _third = buffer.reserve(2 * h).unwrap();
    let mut out = vec![0u8; 3 * h];
    assert_eq!(buffer.read(1, &mut out).unwrap().buffer.unwrap(), &vec![0x33u8; 3 * h][..]);

    // Its header lands inside the payload of the second message.
    let _fourth = buffer.reserve(h).unwrap();
    let mut out = vec![0u8; 3 * h];
    let message = buffer.read(1, &mut out).unwrap();
    assert_eq!(message.metadata, TestMetadata(1));
    assert!(message.buffer.is_none());
    drop(first);
}

#[test]
fn first_valid_sequence_skips_a_message_whose_data_is_gone() {
    let mut buffer = Ringbuffer::<TestMetadata>::new(64, 8);
    let size = 32 - HEADER_SIZE;
    let first = buffer.reserve(size).unwrap();
    first.finalize(&mut buffer, TestMetadata(0));
    let second = buffer.reserve(size).unwrap();
    second.finalize(&mut buffer, TestMetadata(1));
    assert_eq!(buffer.first_valid_sequence(), 0);
    let _third = buffer.reserve(size).unwrap();
    assert_eq!(buffer.first_valid_sequence(), 1);
}

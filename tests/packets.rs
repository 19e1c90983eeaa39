use coremidi::packets::{PACKET_HEADER_SIZE, PACKET_LIST_HEADER_SIZE};
use coremidi::storage::INLINE_SIZE;
use coremidi::{PacketBuffer, PacketList};

fn packets_of(buffer: &PacketBuffer) -> Vec<(u64, Vec<u8>)> {
    let mut out = Vec::new();
    let mut it = buffer.iter();
    while let Some(packet) = it.next() {
        out.push((packet.timestamp(), packet.data().to_vec()));
    }
    out
}

#[test]
fn packet_struct_layout() {
    assert_eq!(PACKET_HEADER_SIZE, 10);
    assert_eq!(PACKET_LIST_HEADER_SIZE, 4);
    let buffer = PacketBuffer::new(0, &[0x90, 0x40, 0x7f]);
    let bytes = buffer.as_bytes();
    assert_eq!(&bytes[0..4], &[1, 0, 0, 0]);
    assert_eq!(&bytes[PACKET_LIST_HEADER_SIZE + PACKET_HEADER_SIZE..17], &[0x90, 0x40, 0x7f]);
}

#[test]
fn single_packet_alloc_inline() {
    let packet_buf = PacketBuffer::new(42, &[0x90u8, 0x40, 0x7f]);
    if !packet_buf.is_inline_storage() {
        panic!("A single 3-byte message must not be allocated externally")
    }
}

#[test]
fn packet_list_length() {
    let mut packet_buf = PacketBuffer::new(42, &[0x90u8, 0x40, 0x7f]);
    packet_buf.push_data(43, &[0x91u8, 0x40, 0x7f]);
    packet_buf.push_data(44, &[0x80u8, 0x40, 0x7f]);
    packet_buf.push_data(45, &[0x81u8, 0x40, 0x7f]);
    assert_eq!(packet_buf.len(), 4);
}

#[test]
fn packet_buffer_empty_with_capacity() {
    let packet_buf = PacketBuffer::with_capacity(128);
    assert_eq!(packet_buf.capacity(), 128);
    assert_eq!(packet_buf.len(), 0);
}

#[test]
fn packet_buffer_with_capacity_zero() {
    let packet_buf = PacketBuffer::with_capacity(0);
    assert_eq!(packet_buf.capacity(), INLINE_SIZE);
    assert_eq!(packet_buf.len(), 0);
}

#[test]
fn packet_buffer_with_capacity() {
    let mut packet_buf = PacketBuffer::with_capacity(128);
    packet_buf.push_data(43, &[0x91u8, 0x40, 0x7f]);
    packet_buf.push_data(44, &[0x80u8, 0x40, 0x7f]);
    packet_buf.push_data(45, &[0x81u8, 0x40, 0x7f]);
    assert_eq!(packet_buf.capacity(), 128);
    assert_eq!(packet_buf.len(), 3);
}

#[test]
fn packet_buffer_clear() {
    let mut packet_buf = PacketBuffer::new(42, &[0x90u8, 0x40, 0x7f]);
    packet_buf.push_data(43, &[0x91u8, 0x40, 0x7f]);
    packet_buf.push_data(44, &[0x80u8, 0x40, 0x7f]);
    packet_buf.push_data(45, &[0x81u8, 0x40, 0x7f]);
    assert_eq!(packet_buf.len(), 4);
    packet_buf.clear();
    assert_eq!(packet_buf.len(), 0);
}

#[test]
fn two_note_messages_read_back_in_order() {
    let mut buffer = PacketBuffer::with_capacity(0);
    buffer.push_data(10, &[0x90, 0x3C, 0x7F]).push_data(20, &[0x80, 0x3C, 0x7F]);
    assert_eq!(buffer.len(), 2);
    assert_eq!(
        packets_of(&buffer),
        vec![(10, vec![0x90, 0x3C, 0x7F]), (20, vec![0x80, 0x3C, 0x7F])]
    );
}

#[test]
fn long_sysex_moves_to_heap() {
    let mut sysex = vec![0xF0u8];
    sysex.resize(301, 0x01);
    sysex.push(0xF7);
    let mut buffer = PacketBuffer::with_capacity(0);
    assert!(buffer.is_inline_storage());
    buffer.push_data(7, &sysex);
    assert!(!buffer.is_inline_storage());
    assert_eq!(buffer.len(), 1);
    assert_eq!(packets_of(&buffer), vec![(7, sysex.clone())]);
    // 4 + 10 + 302 = 316, already a multiple of 4
    assert_eq!(buffer.capacity(), 316);
}

#[test]
fn capacity_128_stays_for_three_small_packets() {
    let mut buffer = PacketBuffer::with_capacity(128);
    assert_eq!(buffer.capacity(), 128);
    buffer.push_data(1, &[0x90, 0x40, 0x7f]);
    assert_eq!(buffer.capacity(), 128);
    buffer.push_data(2, &[0x90, 0x41, 0x7f]);
    assert_eq!(buffer.capacity(), 128);
    buffer.push_data(3, &[0x90, 0x42, 0x7f]);
    assert_eq!(buffer.capacity(), 128);
    assert!(!buffer.is_inline_storage());
}

#[test]
fn packets_are_aligned_and_little_endian() {
    let mut buffer = PacketBuffer::new(0x0102, &[0x90, 0x3c, 0x7f]);
    buffer.push_data(0x0304, &[0xf8]);
    let bytes = buffer.as_bytes();
    assert_eq!(&bytes[0..4], &[2, 0, 0, 0]);
    assert_eq!(&bytes[4..12], &[0x02, 0x01, 0, 0, 0, 0, 0, 0]);
    assert_eq!(&bytes[12..14], &[3, 0]);
    assert_eq!(&bytes[14..17], &[0x90, 0x3c, 0x7f]);
    // 17 rounds up to 20 for the second packet
    assert_eq!(&bytes[20..28], &[0x04, 0x03, 0, 0, 0, 0, 0, 0]);
    assert_eq!(&bytes[28..30], &[1, 0]);
    assert_eq!(bytes[30], 0xf8);
}

#[test]
fn growth_rounds_up_to_multiple_of_four() {
    let mut buffer = PacketBuffer::with_capacity(0);
    buffer.push_data(0, &[1u8; 20]);
    // 4 + 10 + 20 = 34, rounded up to 36
    assert_eq!(buffer.capacity(), 36);
    let with = PacketBuffer::with_capacity(129);
    assert_eq!(with.capacity(), 132);
}

#[test]
fn growth_keeps_earlier_packets() {
    let mut buffer = PacketBuffer::new(1, &[0x90, 0x40, 0x7f]);
    assert!(buffer.is_inline_storage());
    buffer.push_data(2, &[0x42u8; 40]);
    assert!(!buffer.is_inline_storage());
    assert_eq!(packets_of(&buffer), vec![(1, vec![0x90, 0x40, 0x7f]), (2, vec![0x42u8; 40])]);
}

#[test]
fn empty_data_makes_a_packet() {
    let mut buffer = PacketBuffer::with_capacity(0);
    buffer.push_data(5, &[]);
    assert_eq!(buffer.len(), 1);
    assert_eq!(packets_of(&buffer), vec![(5, vec![])]);
}

#[test]
fn equal_timestamps_keep_separate_packets() {
    let mut buffer = PacketBuffer::new(42, &[0x90, 0x40, 0x7f]);
    buffer.push_data(42, &[0x90, 0x41, 0x7f]);
    assert_eq!(buffer.len(), 2);
    assert_eq!(
        packets_of(&buffer),
        vec![(42, vec![0x90, 0x40, 0x7f]), (42, vec![0x90, 0x41, 0x7f])]
    );
}

#[test]
fn clear_keeps_capacity_and_pushes_like_fresh() {
    let mut buffer = PacketBuffer::new(1, &[0x42u8; 40]);
    let capacity = buffer.capacity();
    buffer.clear();
    assert_eq!(buffer.len(), 0);
    assert!(buffer.is_empty());
    assert_eq!(buffer.capacity(), capacity);
    assert_eq!(packets_of(&buffer), vec![]);
    buffer.push_data(9, &[0x80, 0x40, 0x00]);
    let mut fresh = PacketBuffer::with_capacity(capacity);
    fresh.push_data(9, &[0x80, 0x40, 0x00]);
    assert_eq!(packets_of(&buffer), packets_of(&fresh));
    assert_eq!(buffer.capacity(), fresh.capacity());
    assert_eq!(&buffer.as_bytes()[0..17], &fresh.as_bytes()[0..17]);
}

#[test]
fn iterator_counts_down_and_stops() {
    let mut buffer = PacketBuffer::new(1, &[1]);
    buffer.push_data(2, &[2]);
    let mut it = buffer.iter();
    assert_eq!(it.len(), 2);
    assert!(it.next().is_some());
    assert_eq!(it.len(), 1);
    assert!(it.next().is_some());
    assert_eq!(it.len(), 0);
    assert!(it.next().is_none());
    assert!(it.next().is_none());
    assert_eq!(it.len(), 0);
}

#[test]
fn packet_size_counts_header() {
    assert_eq!(PacketBuffer::packet_size(3), 13);
    assert_eq!(PacketBuffer::packet_size(0), 10);
}

#[test]
fn packet_list_from_foreign_bytes() {
    // count 1, timestamp 42, length 3, three bytes
    let bytes = [1u8, 0, 0, 0, 42, 0, 0, 0, 0, 0, 0, 0, 3, 0, 0x90, 0x40, 0x7f];
    let list = PacketList::from_bytes(&bytes).unwrap();
    assert_eq!(list.len(), 1);
    let mut it = list.iter();
    let packet = it.next().unwrap();
    assert_eq!(packet.timestamp(), 42);
    assert_eq!(packet.data(), &[0x90, 0x40, 0x7f]);
    assert!(it.next().is_none());
}

#[test]
fn packet_list_rejects_truncated_bytes() {
    let bytes = [1u8, 0, 0, 0, 42, 0, 0, 0, 0, 0, 0, 0, 3, 0, 0x90, 0x40];
    assert!(PacketList::from_bytes(&bytes).is_none());
    assert!(PacketList::from_bytes(&bytes[0..3]).is_none());
    assert!(PacketList::from_bytes(&bytes[0..10]).is_none());
    let empty = [0u8, 0, 0, 0];
    assert!(PacketList::from_bytes(&empty).unwrap().is_empty());
}

#[test]
fn packet_buffer_bytes_read_back_as_list() {
    let mut buffer = PacketBuffer::new(1, &[0x90, 0x40, 0x7f]);
    buffer.push_data(2, &[0xf0, 1, 2, 3, 0xf7]).push_data(3, &[0xf8]);
    let list = PacketList::from_bytes(buffer.as_bytes()).unwrap();
    assert_eq!(list.len(), 3);
    let mut it = list.iter();
    assert_eq!(it.next().unwrap().data(), &[0x90, 0x40, 0x7f]);
    assert_eq!(it.next().unwrap().data(), &[0xf0, 1, 2, 3, 0xf7]);
    assert_eq!(it.next().unwrap().data(), &[0xf8]);
    assert_eq!(buffer.as_list().len(), 3);
}

#[test]
fn with_packet_chains_by_value() {
    let buffer = PacketBuffer::with_capacity(0)
        .with_packet(1, &[0x90, 0x40, 0x7f])
        .with_packet(2, &[0x80, 0x40, 0x7f]);
    assert_eq!(buffer.len(), 2);
    assert_eq!(packets_of(&buffer), vec![(1, vec![0x90, 0x40, 0x7f]), (2, vec![0x80, 0x40, 0x7f])]);
}

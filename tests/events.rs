use coremidi::events::{EVENT_LIST_HEADER_SIZE, EVENT_PACKET_HEADER_SIZE};
use coremidi::storage::INLINE_SIZE;
use coremidi::{EventBuffer, EventList, Protocol, Timestamp};

fn events_of(buffer: &EventBuffer) -> Vec<(Timestamp, Vec<u32>)> {
    let mut out = Vec::new();
    let mut it = buffer.iter();
    while let Some(packet) = it.next() {
        out.push((packet.timestamp(), packet.data().to_vec()));
    }
    out
}

#[test]
fn event_list_accessors() {
    const BUFFER_SIZE: usize = 256;
    let mut buffer = [0u8; BUFFER_SIZE];
    let mut at = 0;
    let mut put = |bytes: &[u8]| {
        buffer[at..at + bytes.len()].copy_from_slice(bytes);
        at += bytes.len();
    };
    put(&2u32.to_le_bytes());
    put(&2u32.to_le_bytes());
    put(&10u64.to_le_bytes());
    put(&2u32.to_le_bytes());
    for w in [1u32, 2] {
        put(&w.to_le_bytes());
    }
    put(&20u64.to_le_bytes());
    put(&3u32.to_le_bytes());
    for w in [3u32, 4, 5] {
        put(&w.to_le_bytes());
    }
    let event_list = EventList::from_bytes(&buffer).unwrap();

    assert_eq!(event_list.protocol(), Protocol::Midi20);
    assert!(!event_list.is_empty());
    assert_eq!(event_list.len(), 2);

    let mut collected = Vec::new();
    let mut it = event_list.iter();
    while let Some(packet) = it.next() {
        collected.push((packet.timestamp(), packet.data().to_vec()));
    }
    assert_eq!(collected, vec![(10, vec![1, 2]), (20, vec![3, 4, 5]),]);
}

#[test]
fn event_buffer_as_list_matches() {
    let mut buffer = EventBuffer::with_capacity(256, Protocol::Midi10);
    buffer.push(10, &[1, 2]).push(20, &[3, 4, 5]);
    let list = buffer.as_list();
    assert_eq!(list.protocol(), Protocol::Midi10);
    assert_eq!(list.len(), 2);
    let reread = EventList::from_bytes(buffer.as_bytes()).unwrap();
    assert_eq!(reread.len(), 2);
    let mut it = reread.iter();
    assert_eq!(it.next().unwrap().data(), vec![1, 2]);
    assert_eq!(it.next().unwrap().data(), vec![3, 4, 5]);
}

#[test]
fn event_list_rejects_truncated_bytes() {
    assert!(EventList::from_bytes(&[2, 0, 0, 0]).is_none());
    let mut buffer = EventBuffer::with_capacity(0, Protocol::Midi20);
    buffer.push(10, &[1, 2]);
    let bytes = buffer.as_bytes();
    assert!(EventList::from_bytes(&bytes[0..28]).is_some());
    assert!(EventList::from_bytes(&bytes[0..27]).is_none());
    assert!(EventList::from_bytes(&bytes[0..19]).is_none());
    let empty = [1u8, 0, 0, 0, 0, 0, 0, 0];
    let list = EventList::from_bytes(&empty).unwrap();
    assert!(list.is_empty());
    assert_eq!(list.protocol(), Protocol::Midi10);
}

#[test]
fn event_buffer_new() {
    let event_buffer = EventBuffer::new(Protocol::Midi20);

    assert_eq!(event_buffer.capacity(), INLINE_SIZE);
    assert_eq!(event_buffer.protocol(), Protocol::Midi20);
    assert_eq!(event_buffer.len(), 0);
}

#[test]
fn event_buffer_with_capacity_inline() {
    let event_buffer = EventBuffer::with_capacity(2, Protocol::Midi20);

    assert_eq!(event_buffer.capacity(), INLINE_SIZE);
    assert_eq!(event_buffer.protocol(), Protocol::Midi20);
    assert_eq!(event_buffer.len(), 0);
}

#[test]
fn event_buffer_with_capacity_external() {
    let event_buffer = EventBuffer::with_capacity(INLINE_SIZE * 2, Protocol::Midi20);

    assert_eq!(event_buffer.capacity(), INLINE_SIZE * 2);
}

#[test]
fn event_buffer_push_within_capacity() {
    let mut event_buffer = EventBuffer::new(Protocol::Midi20);
    event_buffer.push(10, &[1, 2]).push(20, &[3, 4, 5]);

    assert_eq!(event_buffer.len(), 2);
    assert_eq!(events_of(&event_buffer), vec![(10, vec![1, 2]), (20, vec![3, 4, 5]),]);
}

#[test]
fn event_buffer_push_over_capacity() {
    let mut event_buffer = EventBuffer::new(Protocol::Midi20);
    event_buffer.push(10, &[1, 2]).push(20, &[3, 4, 5, 6, 7, 8, 9, 10]);

    assert_eq!(event_buffer.len(), 2);
    assert_eq!(
        events_of(&event_buffer),
        vec![(10, vec![1, 2]), (20, vec![3, 4, 5, 6, 7, 8, 9, 10])]
    );
}

#[test]
fn event_buffer_clear() {
    let mut event_buffer = EventBuffer::new(Protocol::Midi20);
    event_buffer.push(10, &[1, 2]);

    assert_eq!(event_buffer.len(), 1);
    assert_eq!(events_of(&event_buffer), vec![(10, vec![1, 2])]);

    event_buffer.clear();

    assert_eq!(event_buffer.len(), 0);
    assert_eq!(event_buffer.capacity(), INLINE_SIZE);
    assert_eq!(events_of(&event_buffer), vec![]);
}

#[test]
fn event_list_layout_bytes() {
    assert_eq!(EVENT_LIST_HEADER_SIZE, 8);
    assert_eq!(EVENT_PACKET_HEADER_SIZE, 12);
    let mut buffer = EventBuffer::new(Protocol::Midi10);
    buffer.push(0x0102, &[0x20903c00]);
    let bytes = buffer.as_bytes();
    assert_eq!(&bytes[0..4], &[1, 0, 0, 0]);
    assert_eq!(&bytes[4..8], &[1, 0, 0, 0]);
    assert_eq!(&bytes[8..16], &[0x02, 0x01, 0, 0, 0, 0, 0, 0]);
    assert_eq!(&bytes[16..20], &[1, 0, 0, 0]);
    assert_eq!(&bytes[20..24], &[0x00, 0x3c, 0x90, 0x20]);
    assert!(buffer.is_inline_storage());
}

#[test]
fn event_inline_until_threshold() {
    let mut buffer = EventBuffer::new(Protocol::Midi20);
    // 8 + 12 + 8 = 28 bytes: still inline
    buffer.push(0, &[0x20903c00, 0xffff0000]);
    assert!(buffer.is_inline_storage());
    assert_eq!(buffer.capacity(), INLINE_SIZE);
    // the next push needs 28 + 12 + 4 = 44 bytes
    buffer.push(1, &[0x20803c00]);
    assert!(!buffer.is_inline_storage());
    assert_eq!(buffer.capacity(), 44);
    assert_eq!(
        events_of(&buffer),
        vec![(0, vec![0x20903c00, 0xffff0000]), (1, vec![0x20803c00])]
    );
}

#[test]
fn event_protocol_kept_by_clear() {
    let mut buffer = EventBuffer::with_capacity(64, Protocol::Unsupported(7));
    buffer.push(3, &[9]);
    buffer.clear();
    assert_eq!(buffer.protocol(), Protocol::Unsupported(7));
    assert_eq!(buffer.capacity(), 64);
    assert!(buffer.is_empty());
}

#[test]
fn event_iterator_counts_down_and_stops() {
    let mut buffer = EventBuffer::new(Protocol::Midi20);
    buffer.push(1, &[]);
    let mut it = buffer.iter();
    assert_eq!(it.len(), 1);
    let first = it.next().unwrap();
    assert_eq!(first.timestamp(), 1);
    assert_eq!(first.data(), Vec::<u32>::new());
    assert_eq!(it.len(), 0);
    assert!(it.next().is_none());
    assert_eq!(it.len(), 0);
}

#[test]
fn event_with_packet_chains_by_value() {
    let buffer = EventBuffer::new(Protocol::Midi20)
        .with_packet(0, &[0x20903c00, 0xffff0000])
        .with_packet(5, &[0x20803c00, 0x00000000]);
    assert_eq!(buffer.len(), 2);
    assert_eq!(
        events_of(&buffer),
        vec![(0, vec![0x20903c00, 0xffff0000]), (5, vec![0x20803c00, 0x00000000])]
    );
    // 8 + 20 + 20 = 48 bytes
    assert_eq!(buffer.capacity(), 48);
}

//! The event list: an 8-byte header (protocol identifier, then event count)
//! followed by event packets, each a 64-bit timestamp, a 32-bit word count
//! and that many 32-bit words. Every packet's size is a multiple of 4, so
//! packets stay aligned without padding.

use vstd::prelude::*;
use vstd::slice::slice_subrange;

use crate::bytes::{
    read_u32, read_u64, same_outside, u32_at, u64_at, write_u32, write_u64, write_words,
};
use crate::packets::Timestamp;
use crate::sequence::{lemma_pushed_all, lemma_read_all, pushed_all, read_all};
use crate::protocol::{id_of_protocol, protocol_of_id, Protocol};
use crate::storage::{round_up4, Storage, INLINE_SIZE};

verus! {

/// Bytes of the list header: the protocol identifier and the event count.
pub const EVENT_LIST_HEADER_SIZE: usize = 8;

/// Bytes of an event packet header: the timestamp and the word count.
pub const EVENT_PACKET_HEADER_SIZE: usize = 12;

/// The most words an event packet can hold.
pub const MAX_EVENT_WORDS: usize = 64;

/// An event packet as the contracts see it: its timestamp and its words.
pub type EventModel = (u64, Seq<u32>);

/// Byte offset at which event packet `i` of `es` starts.
pub open spec fn event_offset(es: Seq<EventModel>, i: int) -> int
    decreases i,
{
    if i <= 0 {
        EVENT_LIST_HEADER_SIZE as int
    } else {
        event_offset(es, i - 1) + EVENT_PACKET_HEADER_SIZE + 4 * es[i - 1].1.len()
    }
}

/// The words held by `b`, four little-endian bytes each.
pub open spec fn words_of(b: Seq<u8>) -> Seq<u32> {
    Seq::new((b.len() / 4) as nat, |k: int| u32_at(b, 4 * k) as u32)
}

/// Event packet `i` of `es` is written in `bytes` at its offset.
pub open spec fn event_at(bytes: Seq<u8>, es: Seq<EventModel>, i: int) -> bool {
    let o = event_offset(es, i);
    let w = es[i].1;
    &&& o + EVENT_PACKET_HEADER_SIZE + 4 * w.len() <= bytes.len()
    &&& u64_at(bytes, o) == es[i].0 as int
    &&& u32_at(bytes, o + 8) == w.len()
    &&& forall|k: int|
        0 <= k < w.len() ==> #[trigger] u32_at(bytes, o + EVENT_PACKET_HEADER_SIZE + 4 * k)
            == w[k] as int
}

/// `bytes` holds an event list of protocol `id` whose packets are `es`.
pub open spec fn encodes_events(bytes: Seq<u8>, id: i32, es: Seq<EventModel>) -> bool {
    &&& EVENT_LIST_HEADER_SIZE <= bytes.len()
    &&& u32_at(bytes, 0) == (id as u32) as int
    &&& u32_at(bytes, 4) == es.len()
    &&& forall|i: int| 0 <= i < es.len() ==> #[trigger] event_at(bytes, es, i)
}

proof fn lemma_event_offset_mono(es: Seq<EventModel>, i: int, j: int)
    requires
        0 <= i <= j,
    ensures
        EVENT_LIST_HEADER_SIZE <= event_offset(es, i) <= event_offset(es, j),
        event_offset(es, j) % 4 == 0,
    decreases j,
{
    if j > 0 {
        if i < j {
            lemma_event_offset_mono(es, i, j - 1);
        } else {
            lemma_event_offset_mono(es, 0, j - 1);
        }
    }
}

proof fn lemma_event_offset_push(es: Seq<EventModel>, x: EventModel, i: int)
    requires
        0 <= i <= es.len(),
    ensures
        event_offset(es.push(x), i) == event_offset(es, i),
    decreases i,
{
    if i > 0 {
        lemma_event_offset_push(es, x, i - 1);
        assert(es.push(x)[i - 1] == es[i - 1]);
    }
}

/// Writing an event packet at the next offset, then the count, appends it
/// to the list and keeps every earlier packet.
proof fn lemma_event_push_layout(
    b0: Seq<u8>,
    b1: Seq<u8>,
    b2: Seq<u8>,
    b3: Seq<u8>,
    b4: Seq<u8>,
    b: Seq<u8>,
    id: i32,
    es: Seq<EventModel>,
    x: EventModel,
    next: int,
)
    requires
        encodes_events(b0, id, es),
        b1.len() >= b0.len(),
        b1.subrange(0, b0.len() as int) == b0,
        next == event_offset(es, es.len() as int),
        next + EVENT_PACKET_HEADER_SIZE + 4 * x.1.len() <= b1.len(),
        u64_at(b2, next) == x.0 as int,
        same_outside(b1, b2, next, next + 8),
        u32_at(b3, next + 8) == x.1.len(),
        same_outside(b2, b3, next + 8, next + 12),
        forall|k: int|
            0 <= k < x.1.len() ==> #[trigger] u32_at(b4, next + EVENT_PACKET_HEADER_SIZE + 4 * k)
                == x.1[k] as int,
        same_outside(b3, b4, next + EVENT_PACKET_HEADER_SIZE, next + EVENT_PACKET_HEADER_SIZE + 4
            * x.1.len()),
        u32_at(b, 4) == es.len() + 1,
        same_outside(b4, b, 4, 8),
    ensures
        encodes_events(b, id, es.push(x)),
        event_offset(es.push(x), es.len() as int) == next,
{
    let n = es.len() as int;
    let qs = es.push(x);
    lemma_event_offset_push(es, x, n);
    lemma_event_offset_mono(es, n, n);
    assert forall|j: int| 0 <= j < 4 || (EVENT_LIST_HEADER_SIZE <= j < next && j < b0.len())
        implies b[j] == b0[j] by {
        assert(b1.subrange(0, b0.len() as int)[j] == b0[j]);
    }
    assert(u32_at(b, 0) == u32_at(b0, 0));
    assert forall|i: int| 0 <= i < qs.len() implies #[trigger] event_at(b, qs, i) by {
        if i < n {
            assert(event_at(b0, es, i));
            lemma_event_offset_mono(es, i + 1, n);
            lemma_event_offset_mono(es, i, i);
            lemma_event_offset_push(es, x, i);
            assert(qs[i] == es[i]);
            let o = event_offset(es, i);
            assert(u64_at(b, o) == u64_at(b0, o));
            assert(u32_at(b, o + 8) == u32_at(b0, o + 8));
            assert forall|k: int| 0 <= k < es[i].1.len() implies #[trigger] u32_at(
                b,
                o + EVENT_PACKET_HEADER_SIZE + 4 * k,
            ) == es[i].1[k] as int by {
                assert(u32_at(b, o + EVENT_PACKET_HEADER_SIZE + 4 * k) == u32_at(
                    b0,
                    o + EVENT_PACKET_HEADER_SIZE + 4 * k,
                ));
            }
        } else {
            assert(qs[i] == x);
            assert(u64_at(b, next) == u64_at(b2, next));
            assert(u32_at(b, next + 8) == u32_at(b3, next + 8));
            assert forall|k: int| 0 <= k < x.1.len() implies #[trigger] u32_at(
                b,
                next + EVENT_PACKET_HEADER_SIZE + 4 * k,
            ) == x.1[k] as int by {
                assert(u32_at(b, next + EVENT_PACKET_HEADER_SIZE + 4 * k) == u32_at(
                    b4,
                    next + EVENT_PACKET_HEADER_SIZE + 4 * k,
                ));
            }
        }
    }
}

proof fn lemma_event_decode_prefix(b: Seq<u8>, es: Seq<EventModel>, fs: Seq<EventModel>, i: int)
    requires
        0 <= i <= es.len(),
        i <= fs.len(),
        forall|j: int| 0 <= j < i ==> #[trigger] event_at(b, es, j),
        forall|j: int| 0 <= j < i ==> #[trigger] event_at(b, fs, j),
    ensures
        event_offset(es, i) == event_offset(fs, i),
        forall|j: int| 0 <= j < i ==> es[j] == fs[j],
    decreases i,
{
    if i > 0 {
        lemma_event_decode_prefix(b, es, fs, i - 1);
        assert(event_at(b, es, i - 1));
        assert(event_at(b, fs, i - 1));
        let o = event_offset(es, i - 1);
        assert forall|k: int| 0 <= k < es[i - 1].1.len() implies #[trigger] es[i - 1].1[k]
            == fs[i - 1].1[k] by {
            assert(u32_at(b, o + EVENT_PACKET_HEADER_SIZE + 4 * k) == es[i - 1].1[k] as int);
            assert(u32_at(b, o + EVENT_PACKET_HEADER_SIZE + 4 * k) == fs[i - 1].1[k] as int);
        }
        assert(es[i - 1].1 =~= fs[i - 1].1);
    }
}

/// The bytes of an event list determine its packets: what a reader decodes
/// from the bytes is exactly the sequence of event packets that was written.
pub proof fn lemma_events_decode_unique(b: Seq<u8>, id: i32, es: Seq<EventModel>, fs: Seq<EventModel>)
    requires
        encodes_events(b, id, es),
        encodes_events(b, id, fs),
    ensures
        es == fs,
{
    lemma_event_decode_prefix(b, es, fs, es.len() as int);
    assert(es =~= fs);
}

/// Round trip: pushing event packets with non-decreasing timestamps and at
/// most the largest word count into an empty buffer, then iterating over it,
/// yields exactly those packets, in order, with the same words. The same
/// holds for whoever reads the buffer's bytes: any event list decoded from
/// them is those packets.
pub proof fn lemma_events_round_trip(
    items: Seq<EventModel>,
    bytes: Seq<u8>,
    id: i32,
    decoded: Seq<EventModel>,
)
    requires
        forall|i: int| 0 <= i < items.len() ==> #[trigger] items[i].1.len() <= MAX_EVENT_WORDS,
        forall|i: int, j: int| 0 <= i <= j < items.len() ==> items[i].0 <= items[j].0,
        encodes_events(bytes, id, pushed_all(Seq::<EventModel>::empty(), items)),
        encodes_events(bytes, id, decoded),
    ensures
        read_all(pushed_all(Seq::<EventModel>::empty(), items)) == items,
        read_all(decoded) == items,
{
    lemma_pushed_all(Seq::<EventModel>::empty(), items);
    assert(Seq::<EventModel>::empty() + items =~= items);
    lemma_read_all(items);
    lemma_events_decode_unique(bytes, id, items, decoded);
    lemma_read_all(decoded);
}

/// A growable event list: the list's bytes, and the offset of its last
/// packet (just past the header while the list is empty).
pub struct EventBuffer {
    storage: Storage,
    current_packet_offset: usize,
    protocol_id: Ghost<i32>,
    events: Ghost<Seq<EventModel>>,
}

impl View for EventBuffer {
    type V = Seq<EventModel>;

    closed spec fn view(&self) -> Seq<EventModel> {
        self.events@
    }
}

impl EventBuffer {
    /// The buffer's bytes hold its packets, and the cursor is at the last one.
    pub closed spec fn wf(&self) -> bool {
        let es = self.events@;
        &&& self.storage.wf()
        &&& encodes_events(self.storage@, self.protocol_id@, es)
        &&& self.current_packet_offset == if es.len() == 0 {
            EVENT_LIST_HEADER_SIZE as int
        } else {
            event_offset(es, es.len() - 1)
        }
    }

    /// The list's bytes, as handed to the platform.
    pub closed spec fn bytes(&self) -> Seq<u8> {
        self.storage@
    }

    /// The identifier of the list's protocol.
    pub closed spec fn spec_protocol_id(&self) -> i32 {
        self.protocol_id@
    }

    /// Capacity in bytes.
    pub closed spec fn spec_capacity(&self) -> int {
        self.storage@.len() as int
    }

    /// Whether the bytes are held inline, with no heap allocation.
    pub closed spec fn is_inline(&self) -> bool {
        self.storage.is_inline()
    }

    /// Offset at which the next packet would start: the end of the last one.
    pub open spec fn next_offset(&self) -> int {
        event_offset(self@, self@.len() as int)
    }

    /// Bytes a push of `n` words needs, as if it starts a new packet.
    pub open spec fn required_capacity(&self, n: int) -> int {
        self.next_offset() + EVENT_PACKET_HEADER_SIZE + 4 * n
    }

    /// The bytes always hold the event list laid out as the platform reads it.
    pub proof fn lemma_layout(&self)
        requires
            self.wf(),
        ensures
            encodes_events(self.bytes(), self.spec_protocol_id(), self@),
            self.bytes().len() == self.spec_capacity(),
            self.spec_capacity() % 4 == 0,
            self.spec_capacity() >= INLINE_SIZE,
    {
        self.storage.lemma_len_bound();
    }

    /// An empty buffer for `protocol`, held inline.
    pub fn new(protocol: Protocol) -> (r: Self)
        ensures
            r.wf(),
            r@ == Seq::<EventModel>::empty(),
            r.next_offset() == EVENT_LIST_HEADER_SIZE,
            r.spec_protocol_id() == id_of_protocol(protocol),
            r.spec_capacity() == INLINE_SIZE,
            r.is_inline(),
    {
        Self::with_capacity(INLINE_SIZE, protocol)
    }

    /// An empty buffer for `protocol` of at least `capacity` bytes (never
    /// less than the inline size).
    pub fn with_capacity(capacity: usize, protocol: Protocol) -> (r: Self)
        requires
            capacity + 3 <= usize::MAX,
        ensures
            r.wf(),
            r@ == Seq::<EventModel>::empty(),
            r.next_offset() == EVENT_LIST_HEADER_SIZE,
            r.spec_protocol_id() == id_of_protocol(protocol),
            r.spec_capacity() == Storage::capacity_for(capacity as int),
            r.spec_capacity() >= capacity,
            r.spec_capacity() % 4 == 0,
            r.is_inline() == (capacity <= INLINE_SIZE),
    {
        let mut storage = Storage::with_capacity(capacity);
        let id = protocol.id();
        write_u32(&mut storage, 0, id as u32);
        write_u32(&mut storage, 4, 0);
        EventBuffer {
            storage,
            current_packet_offset: EVENT_LIST_HEADER_SIZE,
            protocol_id: Ghost(id),
            events: Ghost(Seq::empty()),
        }
    }

    /// Capacity in bytes.
    pub fn capacity(&self) -> (r: usize)
        requires
            self.wf(),
        ensures
            r == self.spec_capacity(),
    {
        self.storage.capacity()
    }

    /// Whether the bytes are still held inline.
    pub fn is_inline_storage(&self) -> (r: bool)
        ensures
            r == self.is_inline(),
    {
        self.storage.inline()
    }

    /// The protocol of the list.
    pub fn protocol(&self) -> (r: Protocol)
        requires
            self.wf(),
        ensures
            r == protocol_of_id(self.spec_protocol_id()),
    {
        let raw = read_u32(self.storage.as_bytes(), 0);
        let id = raw as i32;
        proof {
            let p = self.spec_protocol_id();
            assert(raw == p as u32);
            assert((p as u32) as i32 == p) by (bit_vector);
        }
        Protocol::from_id(id)
    }

    /// Number of event packets.
    pub fn len(&self) -> (r: usize)
        requires
            self.wf(),
        ensures
            r == self@.len(),
    {
        read_u32(self.storage.as_bytes(), 4) as usize
    }

    /// Whether the list holds no event packet.
    pub fn is_empty(&self) -> (r: bool)
        requires
            self.wf(),
        ensures
            r == (self@.len() == 0),
    {
        self.len() == 0
    }

    /// The list's bytes.
    pub fn as_bytes(&self) -> (r: &[u8])
        ensures
            r@ == self.bytes(),
    {
        self.storage.as_bytes()
    }

    /// Offset just past the last packet: where the next one would start.
    fn current_bytes_len(&self) -> (r: usize)
        requires
            self.wf(),
        ensures
            r == self.next_offset(),
            r <= self.spec_capacity(),
    {
        proof {
            self.storage.lemma_len_bound();
            lemma_event_offset_mono(self.events@, 0, 0);
        }
        if self.is_empty() {
            self.current_packet_offset
        } else {
            let ghost es = self.events@;
            let ghost n = es.len() - 1;
            assert(event_at(self.storage@, es, n));
            let word_count = read_u32(self.storage.as_bytes(), self.current_packet_offset + 8);
            self.current_packet_offset + EVENT_PACKET_HEADER_SIZE + 4 * (word_count as usize)
        }
    }

    /// Takes the buffer, appends a packet as `push` does, and hands the
    /// buffer back.
    pub fn with_packet(self, timestamp: Timestamp, data: &[u32]) -> (r: Self)
        requires
            self.wf(),
            data@.len() <= MAX_EVENT_WORDS,
            self@.len() < u32::MAX,
            self.required_capacity(data@.len() as int) + 3 <= usize::MAX,
        ensures
            r.wf(),
            r@ == self@.push((timestamp, data@)),
            r.spec_protocol_id() == self.spec_protocol_id(),
            r.spec_capacity() == if self.required_capacity(data@.len() as int)
                <= self.spec_capacity() {
                self.spec_capacity()
            } else {
                round_up4(self.required_capacity(data@.len() as int))
            },
            r.is_inline() == (self.is_inline() && self.required_capacity(data@.len() as int)
                <= self.spec_capacity()),
            r.next_offset() == self.required_capacity(data@.len() as int),
    {
        let mut buffer = self;
        buffer.push(timestamp, data);
        buffer
    }

    /// Grows the storage for a push of `data_len` words, as if it starts a
    /// new packet.
    fn ensure_capacity(&mut self, data_len: usize)
        requires
            old(self).wf(),
            old(self).required_capacity(data_len as int) + 3 <= usize::MAX,
        ensures
            final(self).wf(),
            final(self)@ == old(self)@,
            final(self).spec_protocol_id() == old(self).spec_protocol_id(),
            final(self).storage@.len() >= old(self).required_capacity(data_len as int),
            final(self).storage@.subrange(0, old(self).storage@.len() as int) == old(self).storage@,
            final(self).spec_capacity() == if old(self).required_capacity(data_len as int)
                <= old(self).spec_capacity() {
                old(self).spec_capacity()
            } else {
                round_up4(old(self).required_capacity(data_len as int))
            },
            final(self).is_inline() == (old(self).is_inline() && old(self).required_capacity(
                data_len as int,
            ) <= old(self).spec_capacity()),
    {
        let next_capacity = self.current_bytes_len() + EVENT_PACKET_HEADER_SIZE + 4 * data_len;
        let ghost before = self.storage@;
        self.storage.ensure_capacity(next_capacity);
        proof {
            let b = self.storage@;
            let es = self.events@;
            assert forall|j: int| 0 <= j < before.len() implies #[trigger] b[j] == before[j] by {
                assert(b.subrange(0, before.len() as int)[j] == before[j]);
            }
            assert(u32_at(b, 0) == u32_at(before, 0));
            assert(u32_at(b, 4) == u32_at(before, 4));
            assert forall|i: int| 0 <= i < es.len() implies #[trigger] event_at(b, es, i) by {
                assert(event_at(before, es, i));
                lemma_event_offset_mono(es, i, i);
                let o = event_offset(es, i);
                assert(u64_at(b, o) == u64_at(before, o));
                assert(u32_at(b, o + 8) == u32_at(before, o + 8));
                assert forall|k: int| 0 <= k < es[i].1.len() implies #[trigger] u32_at(
                    b,
                    o + EVENT_PACKET_HEADER_SIZE + 4 * k,
                ) == es[i].1[k] as int by {
                    assert(u32_at(b, o + EVENT_PACKET_HEADER_SIZE + 4 * k) == u32_at(
                        before,
                        o + EVENT_PACKET_HEADER_SIZE + 4 * k,
                    ));
                }
            }
        }
    }

    /// Appends an event packet with the given timestamp and words. The
    /// capacity is grown first, for the worst case, so the write always fits.
    ///
    /// Timestamps are meant to be non-decreasing over a buffer; that is the
    /// caller's concern and is not checked.
    pub fn push(&mut self, timestamp: Timestamp, data: &[u32]) -> (r: &mut Self)
        requires
            old(self).wf(),
            data@.len() <= MAX_EVENT_WORDS,
            old(self)@.len() < u32::MAX,
            old(self).required_capacity(data@.len() as int) + 3 <= usize::MAX,
        ensures
            r.wf(),
            r@ == old(self)@.push((timestamp, data@)),
            r.spec_protocol_id() == old(self).spec_protocol_id(),
            r.spec_capacity() == if old(self).required_capacity(data@.len() as int)
                <= old(self).spec_capacity() {
                old(self).spec_capacity()
            } else {
                round_up4(old(self).required_capacity(data@.len() as int))
            },
            r.is_inline() == (old(self).is_inline() && old(self).required_capacity(
                data@.len() as int,
            ) <= old(self).spec_capacity()),
            r.spec_capacity() >= old(self).spec_capacity(),
            r.spec_capacity() % 4 == 0,
            r.next_offset() == old(self).required_capacity(data@.len() as int),
            *final(self) == *final(r),
    {
        self.ensure_capacity(data.len());
        let added = self.add(timestamp, data);
        proof {
            assert(added);
        }
        self
    }

    /// Writes an event packet at the next offset when it fits in the
    /// capacity, and reports whether it did; the buffer is left as it was when
    /// it does not.
    fn add(&mut self, timestamp: Timestamp, data: &[u32]) -> (added: bool)
        requires
            old(self).wf(),
            data@.len() <= MAX_EVENT_WORDS,
            old(self)@.len() < u32::MAX,
        ensures
            final(self).wf(),
            added == (old(self).required_capacity(data@.len() as int)
                <= old(self).spec_capacity()),
            added ==> final(self)@ == old(self)@.push((timestamp, data@)),
            added ==> final(self).next_offset() == old(self).required_capacity(data@.len() as int),
            !added ==> *final(self) == *old(self),
            final(self).spec_protocol_id() == old(self).spec_protocol_id(),
            final(self).spec_capacity() == old(self).spec_capacity(),
            final(self).is_inline() == old(self).is_inline(),
    {
        let next = self.current_bytes_len();
        let capacity = self.capacity();
        if capacity - next < EVENT_PACKET_HEADER_SIZE || (capacity - next
            - EVENT_PACKET_HEADER_SIZE) / 4 < data.len() {
            return false;
        }
        let ghost es = self.events@;
        let ghost x: EventModel = (timestamp, data@);
        let count = self.len();
        let ghost b0 = self.storage@;
        write_u64(&mut self.storage, next, timestamp);
        let ghost b2 = self.storage@;
        write_u32(&mut self.storage, next + 8, data.len() as u32);
        let ghost b3 = self.storage@;
        write_words(&mut self.storage, next + EVENT_PACKET_HEADER_SIZE, data);
        let ghost b4 = self.storage@;
        write_u32(&mut self.storage, 4, (count + 1) as u32);
        self.current_packet_offset = next;
        self.events = Ghost(es.push(x));
        proof {
            assert(b0.subrange(0, b0.len() as int) =~= b0);
            lemma_event_push_layout(
                b0,
                b0,
                b2,
                b3,
                b4,
                self.storage@,
                self.protocol_id@,
                es,
                x,
                next as int,
            );
            assert(es.push(x)[es.len() as int] == x);
        }
        true
    }

    /// Removes every event packet; the protocol and the capacity are kept.
    pub fn clear(&mut self)
        requires
            old(self).wf(),
        ensures
            final(self).wf(),
            final(self)@ == Seq::<EventModel>::empty(),
            final(self).spec_protocol_id() == old(self).spec_protocol_id(),
            final(self).spec_capacity() == old(self).spec_capacity(),
            final(self).is_inline() == old(self).is_inline(),
    {
        write_u32(&mut self.storage, 4, 0);
        self.current_packet_offset = EVENT_LIST_HEADER_SIZE;
        self.events = Ghost(Seq::empty());
    }

    /// A cleared buffer and a fresh empty one of the same capacity hold the
    /// same (no) packets and need the same room for any push, so every push
    /// that follows acts on them alike.
    pub proof fn lemma_cleared_like_fresh(cleared: &Self, fresh: &Self, n: int)
        requires
            cleared.wf(),
            fresh.wf(),
            cleared@.len() == 0,
            fresh@.len() == 0,
            cleared.spec_capacity() == fresh.spec_capacity(),
        ensures
            cleared@ == fresh@,
            cleared.required_capacity(n) == fresh.required_capacity(n),
            cleared.required_capacity(n) == EVENT_LIST_HEADER_SIZE + EVENT_PACKET_HEADER_SIZE + 4
                * n,
    {
        assert(cleared@ =~= fresh@);
    }

    /// The buffer's bytes read as an event list.
    pub fn as_list(&self) -> (r: EventList<'_>)
        requires
            self.wf(),
        ensures
            r.wf(),
            r@ == self@,
            r.spec_protocol_id() == self.spec_protocol_id(),
            r.bytes() == self.bytes(),
    {
        proof {
            self.storage.lemma_len_bound();
        }
        EventList { bytes: self.storage.as_bytes(), protocol_id: self.protocol_id, events: self.events }
    }

    /// An iterator over the event packets, in order.
    pub fn iter(&self) -> (r: EventListIter<'_>)
        requires
            self.wf(),
        ensures
            r.wf(),
            r@ == self@,
    {
        proof {
            self.storage.lemma_len_bound();
            assert(self.events@.subrange(0, self.events@.len() as int) =~= self.events@);
        }
        EventListIter {
            bytes: self.storage.as_bytes(),
            offset: EVENT_LIST_HEADER_SIZE,
            count: self.len(),
            protocol_id: self.protocol_id,
            events: self.events,
            index: Ghost(0),
        }
    }
}

/// One event packet of a list: its timestamp, and its words' bytes borrowed
/// from the list.
pub struct EventPacket<'a> {
    timestamp: Timestamp,
    words: &'a [u8],
}

impl<'a> View for EventPacket<'a> {
    type V = EventModel;

    closed spec fn view(&self) -> EventModel {
        (self.timestamp, words_of(self.words@))
    }
}

impl<'a> EventPacket<'a> {
    /// The time at which the packet's messages are to be played (0 is now).
    pub fn timestamp(&self) -> (r: Timestamp)
        ensures
            r == self@.0,
    {
        self.timestamp
    }

    /// The packet's raw MIDI words.
    pub fn data(&self) -> (r: Vec<u32>)
        ensures
            r@ == self@.1,
    {
        let n = self.words.len() / 4;
        let mut out: Vec<u32> = Vec::with_capacity(n);
        let mut k: usize = 0;
        while k < n
            invariant
                k <= n,
                n == self.words.len() / 4,
                out@ == words_of(self.words@).subrange(0, k as int),
            decreases n - k,
        {
            assert(4 * k + 4 <= self.words.len());
            out.push(read_u32(self.words, 4 * k));
            k = k + 1;
            proof {
                assert(out@ =~= words_of(self.words@).subrange(0, k as int));
            }
        }
        proof {
            assert(out@ =~= words_of(self.words@));
        }
        out
    }
}

/// A forward iterator over the event packets of a list; it stops by count.
pub struct EventListIter<'a> {
    bytes: &'a [u8],
    offset: usize,
    count: usize,
    protocol_id: Ghost<i32>,
    events: Ghost<Seq<EventModel>>,
    index: Ghost<int>,
}

impl<'a> View for EventListIter<'a> {
    /// The event packets not yet returned.
    type V = Seq<EventModel>;

    closed spec fn view(&self) -> Seq<EventModel> {
        self.events@.subrange(self.index@, self.events@.len() as int)
    }
}

impl<'a> EventListIter<'a> {
    pub closed spec fn wf(&self) -> bool {
        &&& encodes_events(self.bytes@, self.protocol_id@, self.events@)
        &&& self.bytes@.len() <= usize::MAX
        &&& 0 <= self.index@ <= self.events@.len()
        &&& self.count == self.events@.len() - self.index@
        &&& self.offset == event_offset(self.events@, self.index@)
    }

    /// Number of event packets left.
    pub fn len(&self) -> (r: usize)
        requires
            self.wf(),
        ensures
            r == self@.len(),
    {
        self.count
    }

    /// The next event packet, or `None` once every packet was returned.
    pub fn next(&mut self) -> (r: Option<EventPacket<'a>>)
        requires
            old(self).wf(),
        ensures
            final(self).wf(),
            old(self)@.len() == 0 ==> r is None && final(self)@ == old(self)@,
            old(self)@.len() > 0 ==> r is Some && r->Some_0@ == old(self)@[0] && final(self)@
                == old(self)@.drop_first(),
    {
        if self.count == 0 {
            return None;
        }
        let ghost es = self.events@;
        let ghost i = self.index@;
        proof {
            assert(event_at(self.bytes@, es, i));
        }
        let timestamp = read_u64(self.bytes, self.offset);
        let word_count = read_u32(self.bytes, self.offset + 8) as usize;
        let start = self.offset + EVENT_PACKET_HEADER_SIZE;
        let words = slice_subrange(self.bytes, start, start + 4 * word_count);
        self.offset = start + 4 * word_count;
        self.count = self.count - 1;
        self.index = Ghost(i + 1);
        proof {
            let w = es[i].1;
            assert forall|k: int| 0 <= k < w.len() implies #[trigger] words_of(words@)[k] == w[k] by {
                assert(u32_at(words@, 4 * k) == u32_at(self.bytes@, start + 4 * k));
            }
            assert(words_of(words@) =~= w);
            assert(self@ =~= old(self)@.drop_first());
        }
        Some(EventPacket { timestamp, words })
    }
}

/// A read-only view of an event list laid out in borrowed bytes: a list
/// that the platform hands over, or a buffer's own bytes.
pub struct EventList<'a> {
    bytes: &'a [u8],
    protocol_id: Ghost<i32>,
    events: Ghost<Seq<EventModel>>,
}

impl<'a> View for EventList<'a> {
    type V = Seq<EventModel>;

    closed spec fn view(&self) -> Seq<EventModel> {
        self.events@
    }
}

impl<'a> EventList<'a> {
    pub closed spec fn wf(&self) -> bool {
        &&& encodes_events(self.bytes@, self.protocol_id@, self.events@)
        &&& self.bytes@.len() <= usize::MAX
    }

    /// The bytes that the view reads.
    pub closed spec fn bytes(&self) -> Seq<u8> {
        self.bytes@
    }

    /// The identifier of the list's protocol.
    pub closed spec fn spec_protocol_id(&self) -> i32 {
        self.protocol_id@
    }

    /// Reads `bytes` as an event list: `None` when they hold no complete
    /// list (too short for the header, or a packet that runs past the end).
    pub fn from_bytes(bytes: &'a [u8]) -> (r: Option<EventList<'a>>)
        ensures
            r is Some <==> exists|id: i32, es: Seq<EventModel>| encodes_events(bytes@, id, es),
            r is Some ==> r->Some_0.wf() && r->Some_0.bytes() == bytes@,
    {
        if bytes.len() < EVENT_LIST_HEADER_SIZE {
            return None;
        }
        let raw = read_u32(bytes, 0);
        let ghost id = #[verifier::truncate] (raw as i32);
        proof {
            assert((raw as i32) as u32 == raw) by (bit_vector);
        }
        let count = read_u32(bytes, 4) as usize;
        let mut offset: usize = EVENT_LIST_HEADER_SIZE;
        let mut i: usize = 0;
        let ghost mut es: Seq<EventModel> = Seq::empty();
        while i < count
            invariant
                EVENT_LIST_HEADER_SIZE <= bytes@.len(),
                u32_at(bytes@, 0) == (id as u32) as int,
                count == u32_at(bytes@, 4),
                i <= count,
                es.len() == i,
                offset == event_offset(es, i as int),
                offset <= bytes@.len(),
                forall|j: int| 0 <= j < i ==> #[trigger] event_at(bytes@, es, j),
            decreases count - i,
        {
            if bytes.len() - offset < EVENT_PACKET_HEADER_SIZE {
                proof {
                    lemma_no_event_list(bytes@, es, i as int);
                }
                return None;
            }
            let timestamp = read_u64(bytes, offset);
            let word_count = read_u32(bytes, offset + 8) as usize;
            if (bytes.len() - offset - EVENT_PACKET_HEADER_SIZE) / 4 < word_count {
                proof {
                    lemma_no_event_list(bytes@, es, i as int);
                }
                return None;
            }
            let start = offset + EVENT_PACKET_HEADER_SIZE;
            let ghost w: Seq<u32> = Seq::new(
                word_count as nat,
                |k: int| u32_at(bytes@, start + 4 * k) as u32,
            );
            let ghost x: EventModel = (timestamp, w);
            proof {
                assert forall|j: int| 0 <= j < i + 1 implies #[trigger] event_at(
                    bytes@,
                    es.push(x),
                    j,
                ) by {
                    lemma_event_offset_push(es, x, j);
                    if j < i {
                        assert(es.push(x)[j] == es[j]);
                        assert(event_at(bytes@, es, j));
                    } else {
                        assert forall|k: int| 0 <= k < w.len() implies #[trigger] u32_at(
                            bytes@,
                            start + 4 * k,
                        ) == w[k] as int by {
                            assert(0 <= u32_at(bytes@, start + 4 * k) <= u32::MAX);
                        }
                    }
                }
                lemma_event_offset_push(es, x, i as int);
                es = es.push(x);
            }
            offset = start + 4 * word_count;
            i = i + 1;
        }
        proof {
            assert(encodes_events(bytes@, id, es));
        }
        Some(EventList { bytes, protocol_id: Ghost(id), events: Ghost(es) })
    }

    /// The protocol of the list.
    pub fn protocol(&self) -> (r: Protocol)
        requires
            self.wf(),
        ensures
            r == protocol_of_id(self.spec_protocol_id()),
    {
        let raw = read_u32(self.bytes, 0);
        proof {
            let p = self.spec_protocol_id();
            assert(raw == p as u32);
            assert((p as u32) as i32 == p) by (bit_vector);
        }
        Protocol::from_id(raw as i32)
    }

    /// Number of event packets.
    pub fn len(&self) -> (r: usize)
        requires
            self.wf(),
        ensures
            r == self@.len(),
    {
        read_u32(self.bytes, 4) as usize
    }

    /// Whether the list holds no event packet.
    pub fn is_empty(&self) -> (r: bool)
        requires
            self.wf(),
        ensures
            r == (self@.len() == 0),
    {
        self.len() == 0
    }

    /// An iterator over the event packets, in order.
    pub fn iter(&self) -> (r: EventListIter<'a>)
        requires
            self.wf(),
        ensures
            r.wf(),
            r@ == self@,
    {
        proof {
            assert(self.events@.subrange(0, self.events@.len() as int) =~= self.events@);
        }
        EventListIter {
            bytes: self.bytes,
            offset: EVENT_LIST_HEADER_SIZE,
            count: self.len(),
            protocol_id: self.protocol_id,
            events: self.events,
            index: Ghost(0),
        }
    }
}

/// When packet `i` of the count in the header does not fit in the bytes
/// whose first `i` packets are `es`, the bytes hold no event list at all.
proof fn lemma_no_event_list(b: Seq<u8>, es: Seq<EventModel>, i: int)
    requires
        EVENT_LIST_HEADER_SIZE <= b.len(),
        0 <= i < u32_at(b, 4),
        es.len() == i,
        forall|j: int| 0 <= j < i ==> #[trigger] event_at(b, es, j),
        event_offset(es, i) + EVENT_PACKET_HEADER_SIZE > b.len() || event_offset(es, i)
            + EVENT_PACKET_HEADER_SIZE + 4 * u32_at(b, event_offset(es, i) + 8) > b.len(),
    ensures
        !exists|id: i32, fs: Seq<EventModel>| encodes_events(b, id, fs),
{
    if exists|id: i32, fs: Seq<EventModel>| encodes_events(b, id, fs) {
        let (id, fs) = choose|id: i32, fs: Seq<EventModel>| encodes_events(b, id, fs);
        lemma_event_decode_prefix(b, es, fs, i);
        assert(event_at(b, fs, i));
    }
}

} // verus!

//! The classic packet list: a 4-byte packet count followed by packets, each a
//! 64-bit timestamp, a 16-bit length and that many bytes, every packet
//! starting at a 4-byte aligned offset.

use vstd::prelude::*;
use vstd::slice::slice_subrange;

use crate::bytes::{
    read_u16, read_u32, read_u64, same_outside, u16_at, u32_at, u64_at, write_bytes, write_u16,
    write_u32, write_u64,
};
use crate::sequence::{lemma_pushed_all, lemma_read_all, pushed_all, read_all};
use crate::storage::{round_up4, round_up4_exec, Storage, INLINE_SIZE};

verus! {

pub type Timestamp = u64;

/// Bytes of the list header: the packet count.
pub const PACKET_LIST_HEADER_SIZE: usize = 4;

/// Bytes of a packet header: the timestamp and the data length.
pub const PACKET_HEADER_SIZE: usize = 10;

/// The largest data length that a packet can hold.
pub const MAX_PACKET_DATA: usize = 65535;

/// A packet as the contracts see it: its timestamp and its bytes.
pub type PacketModel = (u64, Seq<u8>);

/// Byte offset at which packet `i` of `ps` starts.
pub open spec fn packet_offset(ps: Seq<PacketModel>, i: int) -> int
    decreases i,
{
    if i <= 0 {
        PACKET_LIST_HEADER_SIZE as int
    } else {
        round_up4(packet_offset(ps, i - 1) + PACKET_HEADER_SIZE + ps[i - 1].1.len())
    }
}

/// Packet `i` of `ps` is written in `bytes` at its offset.
pub open spec fn packet_at(bytes: Seq<u8>, ps: Seq<PacketModel>, i: int) -> bool {
    let o = packet_offset(ps, i);
    let d = ps[i].1;
    &&& o + PACKET_HEADER_SIZE + d.len() <= bytes.len()
    &&& u64_at(bytes, o) == ps[i].0 as int
    &&& u16_at(bytes, o + 8) == d.len()
    &&& bytes.subrange(o + PACKET_HEADER_SIZE, o + PACKET_HEADER_SIZE + d.len()) == d
}

/// `bytes` holds a packet list whose packets are `ps`.
pub open spec fn encodes_packets(bytes: Seq<u8>, ps: Seq<PacketModel>) -> bool {
    &&& PACKET_LIST_HEADER_SIZE <= bytes.len()
    &&& u32_at(bytes, 0) == ps.len()
    &&& forall|i: int| 0 <= i < ps.len() ==> #[trigger] packet_at(bytes, ps, i)
}

proof fn lemma_offset_step(ps: Seq<PacketModel>, i: int)
    requires
        0 <= i,
    ensures
        packet_offset(ps, i) + PACKET_HEADER_SIZE + ps[i].1.len() <= packet_offset(ps, i + 1),
        packet_offset(ps, i + 1) < packet_offset(ps, i) + PACKET_HEADER_SIZE + ps[i].1.len() + 4,
        packet_offset(ps, i + 1) % 4 == 0,
{
}

proof fn lemma_offset_min(ps: Seq<PacketModel>, j: int)
    ensures
        packet_offset(ps, j) >= PACKET_LIST_HEADER_SIZE,
        packet_offset(ps, j) % 4 == 0,
    decreases j,
{
    if j > 0 {
        lemma_offset_min(ps, j - 1);
    }
}

proof fn lemma_offset_mono(ps: Seq<PacketModel>, i: int, j: int)
    requires
        0 <= i <= j,
    ensures
        packet_offset(ps, i) <= packet_offset(ps, j),
        packet_offset(ps, j) >= PACKET_LIST_HEADER_SIZE,
    decreases j - i,
{
    lemma_offset_min(ps, j);
    if i < j {
        lemma_offset_step(ps, j - 1);
        lemma_offset_mono(ps, i, j - 1);
    }
}

proof fn lemma_offset_push(ps: Seq<PacketModel>, x: PacketModel, i: int)
    requires
        0 <= i <= ps.len(),
    ensures
        packet_offset(ps.push(x), i) == packet_offset(ps, i),
    decreases i,
{
    if i > 0 {
        lemma_offset_push(ps, x, i - 1);
        assert(ps.push(x)[i - 1] == ps[i - 1]);
    }
}

/// Packet `i` stays in place when the bytes before `hi` (and after the
/// header) are kept and the packet ends before `hi`.
proof fn lemma_packet_kept(b: Seq<u8>, c: Seq<u8>, ps: Seq<PacketModel>, qs: Seq<PacketModel>, i: int, hi: int)
    requires
        0 <= i < ps.len(),
        i < qs.len(),
        qs[i] == ps[i],
        packet_offset(qs, i) == packet_offset(ps, i),
        packet_at(b, ps, i),
        packet_offset(ps, i) >= PACKET_LIST_HEADER_SIZE,
        packet_offset(ps, i) + PACKET_HEADER_SIZE + ps[i].1.len() <= hi,
        hi <= c.len(),
        hi <= b.len(),
        forall|j: int| PACKET_LIST_HEADER_SIZE <= j < hi ==> c[j] == b[j],
    ensures
        packet_at(c, qs, i),
{
    let o = packet_offset(ps, i);
    let d = ps[i].1;
    assert(c.subrange(o + PACKET_HEADER_SIZE, o + PACKET_HEADER_SIZE + d.len())
        =~= b.subrange(o + PACKET_HEADER_SIZE, o + PACKET_HEADER_SIZE + d.len()));
}

/// Writing a packet at the next offset, then the count, appends it to the
/// list and keeps every earlier packet.
proof fn lemma_push_layout(
    b0: Seq<u8>,
    b1: Seq<u8>,
    b2: Seq<u8>,
    b3: Seq<u8>,
    b4: Seq<u8>,
    b: Seq<u8>,
    ps: Seq<PacketModel>,
    x: PacketModel,
    next: int,
)
    requires
        encodes_packets(b0, ps),
        forall|i: int| 0 <= i < ps.len() ==> #[trigger] ps[i].1.len() <= MAX_PACKET_DATA,
        x.1.len() <= MAX_PACKET_DATA,
        b1.len() >= b0.len(),
        b1.subrange(0, b0.len() as int) == b0,
        next == packet_offset(ps, ps.len() as int),
        next + PACKET_HEADER_SIZE + x.1.len() <= b1.len(),
        u64_at(b2, next) == x.0 as int,
        same_outside(b1, b2, next, next + 8),
        u16_at(b3, next + 8) == x.1.len(),
        same_outside(b2, b3, next + 8, next + 10),
        b4.subrange(next + PACKET_HEADER_SIZE, next + PACKET_HEADER_SIZE + x.1.len()) == x.1,
        same_outside(b3, b4, next + PACKET_HEADER_SIZE, next + PACKET_HEADER_SIZE + x.1.len()),
        u32_at(b, 0) == ps.len() + 1,
        same_outside(b4, b, 0, 4),
    ensures
        encodes_packets(b, ps.push(x)),
        packet_offset(ps.push(x), ps.len() as int) == next,
        forall|i: int|
            0 <= i < ps.push(x).len() ==> #[trigger] ps.push(x)[i].1.len() <= MAX_PACKET_DATA,
{
    let n = ps.len() as int;
    let qs = ps.push(x);
    lemma_offset_push(ps, x, n);
    lemma_offset_min(ps, n);
    assert forall|j: int| PACKET_LIST_HEADER_SIZE <= j < next && j < b0.len() implies b[j]
        == b0[j] by {
        assert(b1.subrange(0, b0.len() as int)[j] == b0[j]);
    }
    assert forall|i: int| 0 <= i < qs.len() implies #[trigger] packet_at(b, qs, i) by {
        if i < n {
            assert(packet_at(b0, ps, i));
            lemma_offset_step(ps, i);
            lemma_offset_mono(ps, i + 1, n);
            lemma_offset_push(ps, x, i);
            lemma_offset_min(ps, i);
            lemma_packet_kept(b0, b, ps, qs, i, packet_offset(ps, i) + PACKET_HEADER_SIZE
                + ps[i].1.len());
        } else {
            assert(qs[i] == x);
            assert(u64_at(b, next) == u64_at(b2, next));
            assert(u16_at(b, next + 8) == u16_at(b3, next + 8));
            assert(b.subrange(next + PACKET_HEADER_SIZE, next + PACKET_HEADER_SIZE + x.1.len())
                =~= b4.subrange(next + PACKET_HEADER_SIZE, next + PACKET_HEADER_SIZE + x.1.len()));
        }
    }
    assert forall|i: int| 0 <= i < qs.len() implies #[trigger] qs[i].1.len() <= MAX_PACKET_DATA by {
        if i < n {
            assert(qs[i] == ps[i]);
        }
    }
}

proof fn lemma_decode_prefix(b: Seq<u8>, ps: Seq<PacketModel>, qs: Seq<PacketModel>, i: int)
    requires
        0 <= i <= ps.len(),
        i <= qs.len(),
        forall|j: int| 0 <= j < i ==> #[trigger] packet_at(b, ps, j),
        forall|j: int| 0 <= j < i ==> #[trigger] packet_at(b, qs, j),
    ensures
        packet_offset(ps, i) == packet_offset(qs, i),
        forall|j: int| 0 <= j < i ==> ps[j] == qs[j],
    decreases i,
{
    if i > 0 {
        lemma_decode_prefix(b, ps, qs, i - 1);
        assert(packet_at(b, ps, i - 1));
        assert(packet_at(b, qs, i - 1));
        assert(ps[i - 1].1 =~= qs[i - 1].1);
    }
}

/// The bytes of a packet list determine its packets: what a reader decodes
/// from the bytes is exactly the sequence of packets that was written.
pub proof fn lemma_packets_decode_unique(b: Seq<u8>, ps: Seq<PacketModel>, qs: Seq<PacketModel>)
    requires
        encodes_packets(b, ps),
        encodes_packets(b, qs),
    ensures
        ps == qs,
{
    lemma_decode_prefix(b, ps, qs, ps.len() as int);
    assert(ps =~= qs);
}

/// Round trip: pushing packets with non-decreasing timestamps and data of
/// at most the largest packet size into an empty buffer, then iterating over
/// it, yields exactly those packets, in order, with the same bytes. The same
/// holds for whoever reads the buffer's bytes: any packet list decoded from
/// them is those packets.
pub proof fn lemma_packets_round_trip(items: Seq<PacketModel>, bytes: Seq<u8>, decoded: Seq<PacketModel>)
    requires
        forall|i: int| 0 <= i < items.len() ==> #[trigger] items[i].1.len() <= MAX_PACKET_DATA,
        forall|i: int, j: int| 0 <= i <= j < items.len() ==> items[i].0 <= items[j].0,
        encodes_packets(bytes, pushed_all(Seq::<PacketModel>::empty(), items)),
        encodes_packets(bytes, decoded),
    ensures
        read_all(pushed_all(Seq::<PacketModel>::empty(), items)) == items,
        read_all(decoded) == items,
{
    lemma_pushed_all(Seq::<PacketModel>::empty(), items);
    assert(Seq::<PacketModel>::empty() + items =~= items);
    lemma_read_all(items);
    lemma_packets_decode_unique(bytes, items, decoded);
    lemma_read_all(decoded);
}

/// A growable packet list: the list's bytes, and the offset of its last
/// packet (just past the header while the list is empty).
pub struct PacketBuffer {
    storage: Storage,
    current_packet_offset: usize,
    packets: Ghost<Seq<PacketModel>>,
}

impl View for PacketBuffer {
    type V = Seq<PacketModel>;

    closed spec fn view(&self) -> Seq<PacketModel> {
        self.packets@
    }
}

impl PacketBuffer {
    /// The buffer's bytes hold its packets, and the cursor is at the last one.
    pub closed spec fn wf(&self) -> bool {
        let ps = self.packets@;
        &&& self.storage.wf()
        &&& encodes_packets(self.storage@, ps)
        &&& forall|i: int| 0 <= i < ps.len() ==> #[trigger] ps[i].1.len() <= MAX_PACKET_DATA
        &&& self.current_packet_offset == if ps.len() == 0 {
            PACKET_LIST_HEADER_SIZE as int
        } else {
            packet_offset(ps, ps.len() - 1)
        }
    }

    /// The list's bytes, as handed to the platform.
    pub closed spec fn bytes(&self) -> Seq<u8> {
        self.storage@
    }

    /// Capacity in bytes.
    pub closed spec fn spec_capacity(&self) -> int {
        self.storage@.len() as int
    }

    /// Whether the bytes are held inline, with no heap allocation.
    pub closed spec fn is_inline(&self) -> bool {
        self.storage.is_inline()
    }

    /// Offset at which the next packet would start.
    pub open spec fn next_offset(&self) -> int {
        packet_offset(self@, self@.len() as int)
    }

    /// Bytes a push of `n` data bytes needs, as if it starts a new packet.
    pub open spec fn required_capacity(&self, n: int) -> int {
        self.next_offset() + PACKET_HEADER_SIZE + n
    }

    /// The bytes always hold the packet list laid out as the platform reads it.
    pub proof fn lemma_layout(&self)
        requires
            self.wf(),
        ensures
            encodes_packets(self.bytes(), self@),
            self.bytes().len() == self.spec_capacity(),
            self.spec_capacity() % 4 == 0,
            self.spec_capacity() >= INLINE_SIZE,
    {
        self.storage.lemma_len_bound();
    }

    /// An empty buffer of at least `capacity` bytes (never less than the
    /// inline size).
    pub fn with_capacity(capacity: usize) -> (r: Self)
        requires
            capacity + 3 <= usize::MAX,
        ensures
            r.wf(),
            r@ == Seq::<PacketModel>::empty(),
            r.next_offset() == PACKET_LIST_HEADER_SIZE,
            r.spec_capacity() == Storage::capacity_for(capacity as int),
            r.spec_capacity() >= capacity,
            r.spec_capacity() % 4 == 0,
            r.is_inline() == (capacity <= INLINE_SIZE),
    {
        let capacity = if capacity < INLINE_SIZE { INLINE_SIZE } else { capacity };
        let mut storage = Storage::with_capacity(capacity);
        write_u32(&mut storage, 0, 0);
        PacketBuffer {
            storage,
            current_packet_offset: PACKET_LIST_HEADER_SIZE,
            packets: Ghost(Seq::empty()),
        }
    }

    /// A buffer holding one packet with the given timestamp and data.
    pub fn new(time: Timestamp, data: &[u8]) -> (r: Self)
        requires
            data@.len() <= MAX_PACKET_DATA,
        ensures
            r.wf(),
            r@ == seq![(time, data@)],
            r.next_offset() == round_up4(
                PACKET_LIST_HEADER_SIZE + PACKET_HEADER_SIZE + data@.len(),
            ),
            r.spec_capacity() == Storage::capacity_for(
                data@.len() + PACKET_LIST_HEADER_SIZE + PACKET_HEADER_SIZE,
            ),
            r.is_inline() == (data@.len() + PACKET_LIST_HEADER_SIZE + PACKET_HEADER_SIZE
                <= INLINE_SIZE),
    {
        let capacity = data.len() + PACKET_LIST_HEADER_SIZE + PACKET_HEADER_SIZE;
        let mut storage = Storage::with_capacity(capacity);
        write_u32(&mut storage, 0, 0);
        let mut buffer = PacketBuffer {
            storage,
            current_packet_offset: PACKET_LIST_HEADER_SIZE,
            packets: Ghost(Seq::empty()),
        };
        proof {
            buffer.storage.lemma_len_bound();
        }
        buffer.push_data(time, data);
        buffer
    }

    /// Capacity in bytes.
    pub fn capacity(&self) -> (r: usize)
        requires
            self.wf(),
        ensures
            r == self.spec_capacity(),
    {
        self.storage.capacity()
    }

    /// Whether the bytes are still held inline.
    pub fn is_inline_storage(&self) -> (r: bool)
        ensures
            r == self.is_inline(),
    {
        self.storage.inline()
    }

    /// Number of packets.
    pub fn len(&self) -> (r: usize)
        requires
            self.wf(),
        ensures
            r == self@.len(),
    {
        read_u32(self.storage.as_bytes(), 0) as usize
    }

    /// Whether the list holds no packet.
    pub fn is_empty(&self) -> (r: bool)
        requires
            self.wf(),
        ensures
            r == (self@.len() == 0),
    {
        self.len() == 0
    }

    /// The list's bytes.
    pub fn as_bytes(&self) -> (r: &[u8])
        ensures
            r@ == self.bytes(),
    {
        self.storage.as_bytes()
    }

    /// Bytes a packet with `data_len` bytes of data takes, padding aside.
    pub fn packet_size(data_len: usize) -> (r: usize)
        requires
            data_len + PACKET_HEADER_SIZE <= usize::MAX,
        ensures
            r == PACKET_HEADER_SIZE + data_len,
    {
        PACKET_HEADER_SIZE + data_len
    }

    /// Offset at which the next packet would start.
    fn next_packet_offset(&self) -> (r: usize)
        requires
            self.wf(),
        ensures
            r == self.next_offset(),
            r <= self.spec_capacity() + 3,
    {
        proof {
            self.storage.lemma_len_bound();
        }
        if self.is_empty() {
            self.current_packet_offset
        } else {
            let ghost ps = self.packets@;
            let ghost n = ps.len() - 1;
            assert(packet_at(self.storage@, ps, n));
            let data_len = read_u16(self.storage.as_bytes(), self.current_packet_offset + 8);
            let end = self.current_packet_offset + Self::packet_size(data_len as usize);
            round_up4_exec(end)
        }
    }

    /// Appends a packet with the given timestamp and data. The capacity is
    /// grown first, for the worst case, so the write always fits.
    ///
    /// Timestamps are meant to be non-decreasing over a buffer; that is the
    /// caller's concern and is not checked.
    pub fn push_data(&mut self, time: Timestamp, data: &[u8]) -> (r: &mut Self)
        requires
            old(self).wf(),
            data@.len() <= MAX_PACKET_DATA,
            old(self)@.len() < u32::MAX,
            old(self).required_capacity(data@.len() as int) + 3 <= usize::MAX,
        ensures
            r.wf(),
            r@ == old(self)@.push((time, data@)),
            r.spec_capacity() == if old(self).required_capacity(data@.len() as int)
                <= old(self).spec_capacity() {
                old(self).spec_capacity()
            } else {
                round_up4(old(self).required_capacity(data@.len() as int))
            },
            r.is_inline() == (old(self).is_inline() && old(self).required_capacity(
                data@.len() as int,
            ) <= old(self).spec_capacity()),
            r.spec_capacity() >= old(self).spec_capacity(),
            r.spec_capacity() % 4 == 0,
            r.next_offset() == round_up4(old(self).required_capacity(data@.len() as int)),
            *final(self) == *final(r),
    {
        self.ensure_capacity(data.len());
        let added = self.add(time, data);
        proof {
            assert(added);
        }
        self
    }

    /// Takes the buffer, appends a packet as `push_data` does, and hands the
    /// buffer back.
    pub fn with_packet(self, time: Timestamp, data: &[u8]) -> (r: Self)
        requires
            self.wf(),
            data@.len() <= MAX_PACKET_DATA,
            self@.len() < u32::MAX,
            self.required_capacity(data@.len() as int) + 3 <= usize::MAX,
        ensures
            r.wf(),
            r@ == self@.push((time, data@)),
            r.spec_capacity() == if self.required_capacity(data@.len() as int)
                <= self.spec_capacity() {
                self.spec_capacity()
            } else {
                round_up4(self.required_capacity(data@.len() as int))
            },
            r.is_inline() == (self.is_inline() && self.required_capacity(data@.len() as int)
                <= self.spec_capacity()),
            r.next_offset() == round_up4(self.required_capacity(data@.len() as int)),
    {
        let mut buffer = self;
        buffer.push_data(time, data);
        buffer
    }

    /// Grows the storage for a push of `data_len` bytes, as if it starts a
    /// new packet.
    fn ensure_capacity(&mut self, data_len: usize)
        requires
            old(self).wf(),
            old(self).required_capacity(data_len as int) + 3 <= usize::MAX,
        ensures
            final(self).wf(),
            final(self)@ == old(self)@,
            final(self).spec_capacity() >= old(self).required_capacity(data_len as int),
            final(self).spec_capacity() == if old(self).required_capacity(data_len as int)
                <= old(self).spec_capacity() {
                old(self).spec_capacity()
            } else {
                round_up4(old(self).required_capacity(data_len as int))
            },
            final(self).is_inline() == (old(self).is_inline() && old(self).required_capacity(
                data_len as int,
            ) <= old(self).spec_capacity()),
    {
        let next = self.next_packet_offset();
        let ghost before = self.storage@;
        self.storage.ensure_capacity(next + Self::packet_size(data_len));
        proof {
            let b = self.storage@;
            let ps = self.packets@;
            assert forall|j: int| 0 <= j < before.len() implies #[trigger] b[j] == before[j] by {
                assert(b.subrange(0, before.len() as int)[j] == before[j]);
            }
            assert(u32_at(b, 0) == u32_at(before, 0));
            assert forall|i: int| 0 <= i < ps.len() implies #[trigger] packet_at(b, ps, i) by {
                assert(packet_at(before, ps, i));
                lemma_offset_min(ps, i);
                lemma_packet_kept(before, b, ps, ps, i, packet_offset(ps, i) + PACKET_HEADER_SIZE
                    + ps[i].1.len());
            }
        }
    }

    /// Writes a packet at the next offset when it fits in the capacity, and
    /// reports whether it did; the buffer is left as it was when it does not.
    fn add(&mut self, time: Timestamp, data: &[u8]) -> (added: bool)
        requires
            old(self).wf(),
            data@.len() <= MAX_PACKET_DATA,
            old(self)@.len() < u32::MAX,
        ensures
            final(self).wf(),
            added == (old(self).required_capacity(data@.len() as int)
                <= old(self).spec_capacity()),
            added ==> final(self)@ == old(self)@.push((time, data@)),
            added ==> final(self).next_offset() == round_up4(
                old(self).required_capacity(data@.len() as int),
            ),
            !added ==> *final(self) == *old(self),
            final(self).spec_capacity() == old(self).spec_capacity(),
            final(self).is_inline() == old(self).is_inline(),
    {
        let next = self.next_packet_offset();
        let capacity = self.capacity();
        if next > capacity || capacity - next < Self::packet_size(data.len()) {
            return false;
        }
        let ghost ps = self.packets@;
        let ghost n = ps.len() as int;
        let ghost x: PacketModel = (time, data@);
        let ghost qs = ps.push(x);
        let count = self.len();
        let ghost b0 = self.storage@;
        write_u64(&mut self.storage, next, time);
        let ghost b2 = self.storage@;
        write_u16(&mut self.storage, next + 8, data.len() as u16);
        let ghost b3 = self.storage@;
        write_bytes(&mut self.storage, next + PACKET_HEADER_SIZE, data);
        let ghost b4 = self.storage@;
        write_u32(&mut self.storage, 0, (count + 1) as u32);
        self.current_packet_offset = next;
        self.packets = Ghost(qs);
        proof {
            assert(b0.subrange(0, b0.len() as int) =~= b0);
            lemma_push_layout(b0, b0, b2, b3, b4, self.storage@, ps, x, next as int);
            assert(qs[n] == x);
        }
        true
    }

    /// A cleared buffer and a fresh empty one of the same capacity hold the
    /// same (no) packets and need the same room for any push, so every push
    /// that follows acts on them alike.
    pub proof fn lemma_cleared_like_fresh(cleared: &Self, fresh: &Self, n: int)
        requires
            cleared.wf(),
            fresh.wf(),
            cleared@.len() == 0,
            fresh@.len() == 0,
            cleared.spec_capacity() == fresh.spec_capacity(),
        ensures
            cleared@ == fresh@,
            cleared.required_capacity(n) == fresh.required_capacity(n),
            cleared.required_capacity(n) == PACKET_LIST_HEADER_SIZE + PACKET_HEADER_SIZE + n,
    {
        assert(cleared@ =~= fresh@);
    }

    /// The buffer's bytes read as a packet list.
    pub fn as_list(&self) -> (r: PacketList<'_>)
        requires
            self.wf(),
        ensures
            r.wf(),
            r@ == self@,
            r.bytes() == self.bytes(),
    {
        proof {
            self.storage.lemma_len_bound();
        }
        PacketList { bytes: self.storage.as_bytes(), packets: self.packets }
    }

    /// An iterator over the packets, in order.
    pub fn iter(&self) -> (r: PacketListIterator<'_>)
        requires
            self.wf(),
        ensures
            r.wf(),
            r@ == self@,
    {
        proof {
            self.storage.lemma_len_bound();
            assert(self.packets@.subrange(0, self.packets@.len() as int) =~= self.packets@);
        }
        PacketListIterator {
            bytes: self.storage.as_bytes(),
            offset: PACKET_LIST_HEADER_SIZE,
            count: self.len(),
            packets: self.packets,
            index: Ghost(0),
        }
    }

    /// Removes every packet; the capacity is kept.
    pub fn clear(&mut self)
        requires
            old(self).wf(),
        ensures
            final(self).wf(),
            final(self)@ == Seq::<PacketModel>::empty(),
            final(self).spec_capacity() == old(self).spec_capacity(),
            final(self).is_inline() == old(self).is_inline(),
    {
        write_u32(&mut self.storage, 0, 0);
        self.current_packet_offset = PACKET_LIST_HEADER_SIZE;
        self.packets = Ghost(Seq::empty());
    }
}

/// One packet of a list: its timestamp, and its data borrowed from the
/// list's bytes.
pub struct Packet<'a> {
    timestamp: Timestamp,
    data: &'a [u8],
}

impl<'a> View for Packet<'a> {
    type V = PacketModel;

    closed spec fn view(&self) -> PacketModel {
        (self.timestamp, self.data@)
    }
}

impl<'a> Packet<'a> {
    /// The time at which the packet's bytes are to be played (0 is now).
    pub fn timestamp(&self) -> (r: Timestamp)
        ensures
            r == self@.0,
    {
        self.timestamp
    }

    /// The packet's raw MIDI bytes.
    pub fn data(&self) -> (r: &'a [u8])
        ensures
            r@ == self@.1,
    {
        self.data
    }
}

/// A forward iterator over the packets of a list; it stops by count.
pub struct PacketListIterator<'a> {
    bytes: &'a [u8],
    offset: usize,
    count: usize,
    packets: Ghost<Seq<PacketModel>>,
    index: Ghost<int>,
}

impl<'a> View for PacketListIterator<'a> {
    /// The packets not yet returned.
    type V = Seq<PacketModel>;

    closed spec fn view(&self) -> Seq<PacketModel> {
        self.packets@.subrange(self.index@, self.packets@.len() as int)
    }
}

impl<'a> PacketListIterator<'a> {
    pub closed spec fn wf(&self) -> bool {
        &&& encodes_packets(self.bytes@, self.packets@)
        &&& self.bytes@.len() + 3 <= usize::MAX
        &&& 0 <= self.index@ <= self.packets@.len()
        &&& self.count == self.packets@.len() - self.index@
        &&& self.offset == packet_offset(self.packets@, self.index@)
    }

    /// Number of packets left.
    pub fn len(&self) -> (r: usize)
        requires
            self.wf(),
        ensures
            r == self@.len(),
    {
        self.count
    }

    /// The next packet, or `None` once every packet was returned.
    pub fn next(&mut self) -> (r: Option<Packet<'a>>)
        requires
            old(self).wf(),
        ensures
            final(self).wf(),
            old(self)@.len() == 0 ==> r is None && final(self)@ == old(self)@,
            old(self)@.len() > 0 ==> r is Some && r->Some_0@ == old(self)@[0] && final(self)@
                == old(self)@.drop_first(),
    {
        if self.count == 0 {
            return None;
        }
        let ghost ps = self.packets@;
        let ghost i = self.index@;
        proof {
            assert(packet_at(self.bytes@, ps, i));
            lemma_offset_step(ps, i);
        }
        let timestamp = read_u64(self.bytes, self.offset);
        let len = read_u16(self.bytes, self.offset + 8) as usize;
        let start = self.offset + PACKET_HEADER_SIZE;
        let data = slice_subrange(self.bytes, start, start + len);
        self.offset = round_up4_exec(start + len);
        self.count = self.count - 1;
        self.index = Ghost(i + 1);
        proof {
            assert(self@ =~= old(self)@.drop_first());
        }
        Some(Packet { timestamp, data })
    }
}

/// A read-only view of a packet list laid out in borrowed bytes: a list
/// that the platform hands over, or a buffer's own bytes.
pub struct PacketList<'a> {
    bytes: &'a [u8],
    packets: Ghost<Seq<PacketModel>>,
}

impl<'a> View for PacketList<'a> {
    type V = Seq<PacketModel>;

    closed spec fn view(&self) -> Seq<PacketModel> {
        self.packets@
    }
}

impl<'a> PacketList<'a> {
    pub closed spec fn wf(&self) -> bool {
        &&& encodes_packets(self.bytes@, self.packets@)
        &&& self.bytes@.len() + 3 <= usize::MAX
    }

    /// The bytes that the view reads.
    pub closed spec fn bytes(&self) -> Seq<u8> {
        self.bytes@
    }

    /// Reads `bytes` as a packet list: `None` when they hold no complete
    /// list (too short for the header, or a packet that runs past the end).
    pub fn from_bytes(bytes: &'a [u8]) -> (r: Option<PacketList<'a>>)
        requires
            bytes@.len() + 3 <= usize::MAX,
        ensures
            r is Some <==> exists|ps: Seq<PacketModel>| encodes_packets(bytes@, ps),
            r is Some ==> r->Some_0.wf() && r->Some_0.bytes() == bytes@,
    {
        if bytes.len() < PACKET_LIST_HEADER_SIZE {
            return None;
        }
        let count = read_u32(bytes, 0) as usize;
        let mut offset: usize = PACKET_LIST_HEADER_SIZE;
        let mut i: usize = 0;
        let ghost mut ps: Seq<PacketModel> = Seq::empty();
        while i < count
            invariant
                PACKET_LIST_HEADER_SIZE <= bytes@.len(),
                bytes@.len() + 3 <= usize::MAX,
                count == u32_at(bytes@, 0),
                i <= count,
                ps.len() == i,
                offset == packet_offset(ps, i as int),
                offset <= bytes@.len() + 3,
                forall|j: int| 0 <= j < i ==> #[trigger] packet_at(bytes@, ps, j),
            decreases count - i,
        {
            if offset > bytes.len() || bytes.len() - offset < PACKET_HEADER_SIZE {
                proof {
                    lemma_no_packet_list(bytes@, ps, i as int);
                }
                return None;
            }
            let timestamp = read_u64(bytes, offset);
            let len = read_u16(bytes, offset + 8) as usize;
            if bytes.len() - offset - PACKET_HEADER_SIZE < len {
                proof {
                    lemma_no_packet_list(bytes@, ps, i as int);
                }
                return None;
            }
            let start = offset + PACKET_HEADER_SIZE;
            let ghost x: PacketModel = (timestamp, bytes@.subrange(start as int, start + len));
            proof {
                assert forall|j: int| 0 <= j < i + 1 implies #[trigger] packet_at(
                    bytes@,
                    ps.push(x),
                    j,
                ) by {
                    lemma_offset_push(ps, x, j);
                    if j < i {
                        assert(ps.push(x)[j] == ps[j]);
                        assert(packet_at(bytes@, ps, j));
                    }
                }
                lemma_offset_push(ps, x, i as int);
                ps = ps.push(x);
            }
            offset = round_up4_exec(start + len);
            i = i + 1;
        }
        proof {
            assert(encodes_packets(bytes@, ps));
        }
        Some(PacketList { bytes, packets: Ghost(ps) })
    }

    /// Number of packets.
    pub fn len(&self) -> (r: usize)
        requires
            self.wf(),
        ensures
            r == self@.len(),
    {
        read_u32(self.bytes, 0) as usize
    }

    /// Whether the list holds no packet.
    pub fn is_empty(&self) -> (r: bool)
        requires
            self.wf(),
        ensures
            r == (self@.len() == 0),
    {
        self.len() == 0
    }

    /// An iterator over the packets, in order.
    pub fn iter(&self) -> (r: PacketListIterator<'a>)
        requires
            self.wf(),
        ensures
            r.wf(),
            r@ == self@,
    {
        proof {
            assert(self.packets@.subrange(0, self.packets@.len() as int) =~= self.packets@);
        }
        PacketListIterator {
            bytes: self.bytes,
            offset: PACKET_LIST_HEADER_SIZE,
            count: self.len(),
            packets: self.packets,
            index: Ghost(0),
        }
    }
}

/// When packet `i` of the count in the header does not fit in the bytes
/// whose first `i` packets are `ps`, the bytes hold no packet list at all.
proof fn lemma_no_packet_list(b: Seq<u8>, ps: Seq<PacketModel>, i: int)
    requires
        PACKET_LIST_HEADER_SIZE <= b.len(),
        0 <= i < u32_at(b, 0),
        ps.len() == i,
        forall|j: int| 0 <= j < i ==> #[trigger] packet_at(b, ps, j),
        packet_offset(ps, i) + PACKET_HEADER_SIZE > b.len() || packet_offset(ps, i)
            + PACKET_HEADER_SIZE + u16_at(b, packet_offset(ps, i) + 8) > b.len(),
    ensures
        !exists|qs: Seq<PacketModel>| encodes_packets(b, qs),
{
    if exists|qs: Seq<PacketModel>| encodes_packets(b, qs) {
        let qs = choose|qs: Seq<PacketModel>| encodes_packets(b, qs);
        lemma_decode_prefix(b, ps, qs, i);
        assert(packet_at(b, qs, i));
    }
}

} // verus!

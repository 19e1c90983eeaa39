//! Dual-mode byte storage: a fixed inline array for small lists, a heap
//! vector once more room is needed.

use vstd::prelude::*;

verus! {

/// Bytes held inline before the storage moves to the heap: the event-list
/// header (8 bytes) plus one record holding a two-word message (20 bytes).
/// A multiple of 4.
pub const INLINE_SIZE: usize = 28;

/// The smallest multiple of 4 that is at least `n`.
pub open spec fn round_up4(n: int) -> int {
    ((n + 3) / 4) * 4
}

/// Computes `round_up4(n)`.
pub fn round_up4_exec(n: usize) -> (r: usize)
    requires
        n + 3 <= usize::MAX,
    ensures
        r == round_up4(n as int),
        r >= n,
        r < n + 4,
        r % 4 == 0,
{
    ((n + 3) / 4) * 4
}

/// Byte storage of a list: inline while it is small, on the heap after.
pub enum Storage {
    Inline([u8; 28]),
    External(Vec<u8>),
}

impl View for Storage {
    type V = Seq<u8>;

    open spec fn view(&self) -> Seq<u8> {
        match self {
            Storage::Inline(a) => a@,
            Storage::External(v) => v@,
        }
    }
}

impl Storage {
    /// Well-formed storage: heap storage is larger than the inline size and
    /// its length is a multiple of 4.
    pub open spec fn wf(&self) -> bool {
        match self {
            Storage::Inline(a) => a@.len() == INLINE_SIZE,
            Storage::External(v) => v@.len() > INLINE_SIZE && v@.len() % 4 == 0 && v@.len()
                <= usize::MAX,
        }
    }

    pub open spec fn is_inline(&self) -> bool {
        self is Inline
    }

    /// The capacity that a storage made for `capacity` bytes has.
    pub open spec fn capacity_for(capacity: int) -> int {
        if capacity <= INLINE_SIZE {
            INLINE_SIZE as int
        } else {
            round_up4(capacity)
        }
    }

    /// Zeroed storage of at least `capacity` bytes; inline when that fits.
    pub fn with_capacity(capacity: usize) -> (r: Storage)
        requires
            capacity + 3 <= usize::MAX,
        ensures
            r.wf(),
            r@.len() == Self::capacity_for(capacity as int),
            r.is_inline() == (capacity <= INLINE_SIZE),
            forall|i: int| 0 <= i < r@.len() ==> r@[i] == 0u8,
    {
        if capacity <= INLINE_SIZE {
            let a: [u8; 28] = [0u8; 28];
            proof {
                assert(a@ =~= Seq::new(28, |i: int| 0u8));
            }
            Storage::Inline(a)
        } else {
            let n = round_up4_exec(capacity);
            let mut v: Vec<u8> = Vec::with_capacity(n);
            while v.len() < n
                invariant
                    v.len() <= n,
                    forall|i: int| 0 <= i < v@.len() ==> v@[i] == 0u8,
                decreases n - v.len(),
            {
                v.push(0u8);
            }
            Storage::External(v)
        }
    }

    /// The length of well-formed storage is a multiple of 4 with room for
    /// 3 more bytes below `usize::MAX`.
    pub proof fn lemma_len_bound(&self)
        requires
            self.wf(),
        ensures
            self@.len() % 4 == 0,
            self@.len() + 3 <= usize::MAX,
            self@.len() >= INLINE_SIZE,
    {
        assert(usize::MAX % 4 == 3);
    }

    /// Usable capacity in bytes.
    pub fn capacity(&self) -> (r: usize)
        requires
            self.wf(),
        ensures
            r == self@.len(),
            r % 4 == 0,
            r >= INLINE_SIZE,
            r + 3 <= usize::MAX,
    {
        proof {
            self.lemma_len_bound();
        }
        match self {
            Storage::Inline(_) => 28,
            Storage::External(v) => v.len(),
        }
    }

    /// Whether the bytes are still held inline.
    pub fn inline(&self) -> (r: bool)
        ensures
            r == self.is_inline(),
    {
        match self {
            Storage::Inline(_) => true,
            Storage::External(_) => false,
        }
    }

    /// Grows the storage to hold at least `capacity` bytes, keeping the bytes
    /// it holds; it never shrinks.
    pub fn ensure_capacity(&mut self, capacity: usize)
        requires
            old(self).wf(),
            capacity + 3 <= usize::MAX,
        ensures
            final(self).wf(),
            capacity <= old(self)@.len() ==> *final(self) == *old(self),
            capacity > old(self)@.len() ==> final(self)@.len() == round_up4(capacity as int),
            final(self)@.len() >= capacity,
            final(self)@.len() >= old(self)@.len(),
            final(self)@.subrange(0, old(self)@.len() as int) == old(self)@,
            forall|i: int| old(self)@.len() <= i < final(self)@.len() ==> final(self)@[i] == 0u8,
            final(self).is_inline() ==> old(self).is_inline(),
    {
        if capacity <= self.capacity() {
            return;
        }
        let n = round_up4_exec(capacity);
        let promoted: Option<Vec<u8>> = match self {
            Storage::Inline(a) => {
                let mut v: Vec<u8> = Vec::with_capacity(n);
                let mut i: usize = 0;
                while i < 28
                    invariant
                        i <= 28,
                        a@.len() == 28,
                        v@ == a@.subrange(0, i as int),
                    decreases 28 - i,
                {
                    v.push(a[i]);
                    i = i + 1;
                }
                while v.len() < n
                    invariant
                        28 <= v.len() <= n,
                        v@.subrange(0, 28) == a@,
                        forall|j: int| 28 <= j < v@.len() ==> v@[j] == 0u8,
                    decreases n - v.len(),
                {
                    v.push(0u8);
                }
                Some(v)
            },
            Storage::External(v) => {
                let ghost start = v@;
                while v.len() < n
                    invariant
                        start.len() <= v.len() <= n,
                        v@.subrange(0, start.len() as int) == start,
                        forall|j: int| start.len() <= j < v@.len() ==> v@[j] == 0u8,
                    decreases n - v.len(),
                {
                    v.push(0u8);
                }
                None
            },
        };
        if let Some(v) = promoted {
            *self = Storage::External(v);
        }
    }

    /// The bytes, read-only.
    pub fn as_bytes(&self) -> (r: &[u8])
        ensures
            r@ == self@,
    {
        match self {
            Storage::Inline(a) => a.as_slice(),
            Storage::External(v) => v.as_slice(),
        }
    }

    /// Sets the byte at `i`.
    pub fn set_byte(&mut self, i: usize, b: u8)
        requires
            old(self).wf(),
            i < old(self)@.len(),
        ensures
            final(self)@ == old(self)@.update(i as int, b),
            final(self).is_inline() == old(self).is_inline(),
            final(self).wf(),
    {
        match self {
            Storage::Inline(a) => {
                a[i] = b;
            },
            Storage::External(v) => {
                v.set(i, b);
            },
        }
    }
}

} // verus!

//! Little-endian fixed-width integers at byte offsets.

use vstd::prelude::*;

use crate::storage::Storage;

verus! {

/// The little-endian 16-bit value of the two bytes at `o`.
pub open spec fn u16_at(s: Seq<u8>, o: int) -> int {
    s[o] as int + 256 * (s[o + 1] as int)
}

/// The little-endian 32-bit value of the four bytes at `o`.
pub open spec fn u32_at(s: Seq<u8>, o: int) -> int {
    u16_at(s, o) + 65536 * u16_at(s, o + 2)
}

/// The little-endian 64-bit value of the eight bytes at `o`.
pub open spec fn u64_at(s: Seq<u8>, o: int) -> int {
    u32_at(s, o) + 4294967296 * u32_at(s, o + 4)
}

/// `t` equals `s` outside the bytes `[lo, hi)`.
pub open spec fn same_outside(s: Seq<u8>, t: Seq<u8>, lo: int, hi: int) -> bool {
    &&& s.len() == t.len()
    &&& forall|j: int| 0 <= j < s.len() && !(lo <= j < hi) ==> t[j] == s[j]
}

pub fn read_u16(s: &[u8], o: usize) -> (r: u16)
    requires
        o + 2 <= s.len(),
    ensures
        r as int == u16_at(s@, o as int),
{
    s[o] as u16 + 256 * (s[o + 1] as u16)
}

pub fn read_u32(s: &[u8], o: usize) -> (r: u32)
    requires
        o + 4 <= s.len(),
    ensures
        r as int == u32_at(s@, o as int),
{
    let lo = read_u16(s, o);
    let hi = read_u16(s, o + 2);
    lo as u32 + 65536 * (hi as u32)
}

pub fn read_u64(s: &[u8], o: usize) -> (r: u64)
    requires
        o + 8 <= s.len(),
    ensures
        r as int == u64_at(s@, o as int),
{
    let lo = read_u32(s, o);
    let hi = read_u32(s, o + 4);
    lo as u64 + 4294967296 * (hi as u64)
}

pub fn write_u16(st: &mut Storage, o: usize, v: u16)
    requires
        old(st).wf(),
        o + 2 <= old(st)@.len(),
    ensures
        u16_at(final(st)@, o as int) == v as int,
        same_outside(old(st)@, final(st)@, o as int, o + 2),
        final(st).is_inline() == old(st).is_inline(),
        final(st).wf(),
{
    st.set_byte(o, (v % 256) as u8);
    st.set_byte(o + 1, (v / 256) as u8);
}

pub fn write_u32(st: &mut Storage, o: usize, v: u32)
    requires
        old(st).wf(),
        o + 4 <= old(st)@.len(),
    ensures
        u32_at(final(st)@, o as int) == v as int,
        same_outside(old(st)@, final(st)@, o as int, o + 4),
        final(st).is_inline() == old(st).is_inline(),
        final(st).wf(),
{
    write_u16(st, o, (v % 65536) as u16);
    write_u16(st, o + 2, (v / 65536) as u16);
}

pub fn write_u64(st: &mut Storage, o: usize, v: u64)
    requires
        old(st).wf(),
        o + 8 <= old(st)@.len(),
    ensures
        u64_at(final(st)@, o as int) == v as int,
        same_outside(old(st)@, final(st)@, o as int, o + 8),
        final(st).is_inline() == old(st).is_inline(),
        final(st).wf(),
{
    write_u32(st, o, (v % 4294967296) as u32);
    write_u32(st, o + 4, (v / 4294967296) as u32);
}

/// Copies `data` into the storage at `o`.
pub fn write_bytes(st: &mut Storage, o: usize, data: &[u8])
    requires
        old(st).wf(),
        o + data@.len() <= old(st)@.len(),
    ensures
        final(st)@.subrange(o as int, o + data@.len()) == data@,
        same_outside(old(st)@, final(st)@, o as int, o + data@.len()),
        final(st).is_inline() == old(st).is_inline(),
        final(st).wf(),
{
    let mut i: usize = 0;
    while i < data.len()
        invariant
            i <= data@.len(),
            o + data@.len() <= st@.len(),
            st@.subrange(o as int, o + i) == data@.subrange(0, i as int),
            same_outside(old(st)@, st@, o as int, o + data@.len()),
            st.is_inline() == old(st).is_inline(),
            st.wf(),
        decreases data@.len() - i,
    {
        st.set_byte(o + i, data[i]);
        i = i + 1;
        proof {
            assert(st@.subrange(o as int, o + i) =~= data@.subrange(0, i as int));
        }
    }
    proof {
        assert(data@.subrange(0, data@.len() as int) =~= data@);
    }
}

/// Copies the words of `data`, four little-endian bytes each, into the
/// storage at `o`.
pub fn write_words(st: &mut Storage, o: usize, data: &[u32])
    requires
        old(st).wf(),
        o + 4 * data@.len() <= old(st)@.len(),
    ensures
        forall|k: int| 0 <= k < data@.len() ==> #[trigger] u32_at(final(st)@, o + 4 * k) == data@[k] as int,
        same_outside(old(st)@, final(st)@, o as int, o + 4 * data@.len()),
        final(st).is_inline() == old(st).is_inline(),
        final(st).wf(),
{
    let mut i: usize = 0;
    while i < data.len()
        invariant
            i <= data@.len(),
            o + 4 * data@.len() <= st@.len(),
            forall|k: int| 0 <= k < i ==> #[trigger] u32_at(st@, o + 4 * k) == data@[k] as int,
            same_outside(old(st)@, st@, o as int, o + 4 * data@.len()),
            st.is_inline() == old(st).is_inline(),
            st.wf(),
        decreases data@.len() - i,
    {
        let ghost before = st@;
        write_u32(st, o + 4 * i, data[i]);
        proof {
            assert forall|k: int| 0 <= k < i + 1 implies #[trigger] u32_at(st@, o + 4 * k)
                == data@[k] as int by {
                if k < i {
                    assert(u32_at(st@, o + 4 * k) == u32_at(before, o + 4 * k));
                }
            }
        }
        i = i + 1;
    }
}

} // verus!

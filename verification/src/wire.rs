//! Little-endian byte codec: a bounds-checked reader and appending writers.

use vstd::prelude::*;
use vstd::bytes::*;
use vstd::slice::*;

verus! {

/// The `u16` stored little-endian at `p` in `b`.
pub open spec fn u16_at(b: Seq<u8>, p: int) -> u16 {
    spec_u16_from_le_bytes(b.subrange(p, p + 2))
}

/// The `u32` stored little-endian at `p` in `b`.
pub open spec fn u32_at(b: Seq<u8>, p: int) -> u32 {
    spec_u32_from_le_bytes(b.subrange(p, p + 4))
}

/// The `u64` stored little-endian at `p` in `b`.
pub open spec fn u64_at(b: Seq<u8>, p: int) -> u64 {
    spec_u64_from_le_bytes(b.subrange(p, p + 8))
}

/// The two's-complement `i64` stored little-endian at `p` in `b`.
pub open spec fn i64_at(b: Seq<u8>, p: int) -> i64 {
    u64_at(b, p) as i64
}

/// Little-endian bytes of an `i64` (its two's-complement bit pattern).
pub open spec fn i64_le(x: i64) -> Seq<u8> {
    spec_u64_to_le_bytes(x as u64)
}

/// Reading back what was written: each fixed-width encoding decodes to its value.
pub proof fn lemma_le_roundtrip()
    ensures
        forall|x: u16| #![trigger spec_u16_to_le_bytes(x)]
            spec_u16_to_le_bytes(x).len() == 2 && spec_u16_from_le_bytes(spec_u16_to_le_bytes(x)) == x,
        forall|x: u32| #![trigger spec_u32_to_le_bytes(x)]
            spec_u32_to_le_bytes(x).len() == 4 && spec_u32_from_le_bytes(spec_u32_to_le_bytes(x)) == x,
        forall|x: u64| #![trigger spec_u64_to_le_bytes(x)]
            spec_u64_to_le_bytes(x).len() == 8 && spec_u64_from_le_bytes(spec_u64_to_le_bytes(x)) == x,
        forall|x: i64| #![trigger i64_le(x)]
            i64_le(x).len() == 8 && (spec_u64_from_le_bytes(i64_le(x)) as i64) == x,
{
    lemma_auto_spec_u16_to_from_le_bytes();
    lemma_auto_spec_u32_to_from_le_bytes();
    lemma_auto_spec_u64_to_from_le_bytes();
    assert forall|x: i64| #![trigger i64_le(x)]
        i64_le(x).len() == 8 && (spec_u64_from_le_bytes(i64_le(x)) as i64) == x by {
        let u = x as u64;
        assert(spec_u64_from_le_bytes(spec_u64_to_le_bytes(u)) == u);
        assert((u as i64) == x) by (bit_vector)
            requires u == x as u64;
    }
}

/// Append the little-endian bytes of `x`.
pub fn push_u16(out: &mut Vec<u8>, x: u16)
    ensures
        final(out)@ == old(out)@ + spec_u16_to_le_bytes(x),
{
    let mut b = u16_to_le_bytes(x);
    out.append(&mut b);
}

/// Append the little-endian bytes of `x`.
pub fn push_u32(out: &mut Vec<u8>, x: u32)
    ensures
        final(out)@ == old(out)@ + spec_u32_to_le_bytes(x),
{
    let mut b = u32_to_le_bytes(x);
    out.append(&mut b);
}

/// Append the little-endian bytes of `x`.
pub fn push_u64(out: &mut Vec<u8>, x: u64)
    ensures
        final(out)@ == old(out)@ + spec_u64_to_le_bytes(x),
{
    let mut b = u64_to_le_bytes(x);
    out.append(&mut b);
}

/// Append the little-endian two's-complement bytes of `x`.
pub fn push_i64(out: &mut Vec<u8>, x: i64)
    ensures
        final(out)@ == old(out)@ + i64_le(x),
{
    push_u64(out, x as u64);
}

/// Append all of `src`.
pub fn push_slice(out: &mut Vec<u8>, src: &[u8])
    ensures
        final(out)@ == old(out)@ + src@,
{
    let mut v = slice_to_vec(src);
    out.append(&mut v);
}

/// A little-endian byte reader with bounds checks: every read past the end
/// yields `None` and leaves the position where it was.
pub struct Reader<'a> {
    pub b: &'a [u8],
    pub pos: usize,
}

impl<'a> Reader<'a> {
    /// The reader's position never passes the end of its input.
    pub open spec fn wf(&self) -> bool {
        self.pos <= self.b@.len()
    }

    /// A reader at the start of `b`.
    pub fn new(b: &'a [u8]) -> (r: Self)
        ensures
            r.b@ == b@,
            r.pos == 0,
            r.wf(),
    {
        Reader { b, pos: 0 }
    }

    /// Read `n` bytes.
    pub fn bytes(&mut self, n: usize) -> (r: Option<&'a [u8]>)
        requires
            old(self).wf(),
        ensures
            final(self).wf(),
            final(self).b@ == old(self).b@,
            old(self).pos + n <= old(self).b@.len() ==> {
                &&& r is Some
                &&& r.unwrap()@ == old(self).b@.subrange(old(self).pos as int, old(self).pos + n)
                &&& final(self).pos == old(self).pos + n
            },
            old(self).pos + n > old(self).b@.len() ==> r is None && final(self).pos == old(self).pos,
    {
        let len = self.b.len();
        let end = match self.pos.checked_add(n) {
            Some(e) => e,
            None => return None,
        };
        if end > len {
            return None;
        }
        let s = slice_subrange(self.b, self.pos, end);
        self.pos = end;
        Some(s)
    }

    /// Read one byte.
    pub fn u8(&mut self) -> (r: Option<u8>)
        requires
            old(self).wf(),
        ensures
            final(self).wf(),
            final(self).b@ == old(self).b@,
            old(self).pos + 1 <= old(self).b@.len() ==> r == Some(old(self).b@[old(self).pos as int])
                && final(self).pos == old(self).pos + 1,
            old(self).pos + 1 > old(self).b@.len() ==> r is None && final(self).pos == old(self).pos,
    {
        if self.pos < self.b.len() {
            let v = self.b[self.pos];
            self.pos = self.pos + 1;
            Some(v)
        } else {
            None
        }
    }

    /// Read a little-endian `u16`.
    pub fn u16(&mut self) -> (r: Option<u16>)
        requires
            old(self).wf(),
        ensures
            final(self).wf(),
            final(self).b@ == old(self).b@,
            old(self).pos + 2 <= old(self).b@.len() ==> r == Some(u16_at(old(self).b@, old(self).pos as int))
                && final(self).pos == old(self).pos + 2,
            old(self).pos + 2 > old(self).b@.len() ==> r is None && final(self).pos == old(self).pos,
    {
        match self.bytes(2) {
            Some(s) => Some(u16_from_le_bytes(s)),
            None => None,
        }
    }

    /// Read a little-endian `u32`.
    pub fn u32(&mut self) -> (r: Option<u32>)
        requires
            old(self).wf(),
        ensures
            final(self).wf(),
            final(self).b@ == old(self).b@,
            old(self).pos + 4 <= old(self).b@.len() ==> r == Some(u32_at(old(self).b@, old(self).pos as int))
                && final(self).pos == old(self).pos + 4,
            old(self).pos + 4 > old(self).b@.len() ==> r is None && final(self).pos == old(self).pos,
    {
        match self.bytes(4) {
            Some(s) => Some(u32_from_le_bytes(s)),
            None => None,
        }
    }

    /// Read a little-endian `u64`.
    pub fn u64(&mut self) -> (r: Option<u64>)
        requires
            old(self).wf(),
        ensures
            final(self).wf(),
            final(self).b@ == old(self).b@,
            old(self).pos + 8 <= old(self).b@.len() ==> r == Some(u64_at(old(self).b@, old(self).pos as int))
                && final(self).pos == old(self).pos + 8,
            old(self).pos + 8 > old(self).b@.len() ==> r is None && final(self).pos == old(self).pos,
    {
        match self.bytes(8) {
            Some(s) => Some(u64_from_le_bytes(s)),
            None => None,
        }
    }

    /// Read a little-endian two's-complement `i64`.
    pub fn i64(&mut self) -> (r: Option<i64>)
        requires
            old(self).wf(),
        ensures
            final(self).wf(),
            final(self).b@ == old(self).b@,
            old(self).pos + 8 <= old(self).b@.len() ==> r == Some(i64_at(old(self).b@, old(self).pos as int))
                && final(self).pos == old(self).pos + 8,
            old(self).pos + 8 > old(self).b@.len() ==> r is None && final(self).pos == old(self).pos,
    {
        match self.u64() {
            Some(x) => Some(x as i64),
            None => None,
        }
    }
}

} // verus!

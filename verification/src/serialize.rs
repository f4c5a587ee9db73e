//! The binary encoding of values stored in the state trie.
//!
//! A value encodes to bytes and decodes back; decoding what was encoded gives
//! the value again.

use vstd::prelude::*;

use crate::bytes::StdByteArray;

verus! {

/// A value with a binary encoding that decodes back to the value.
pub trait PillarSerialize: Sized {
    /// The bytes that the value encodes to.
    spec fn pillar_bytes(&self) -> Seq<u8>;

    /// The value that `data` decodes to, if it decodes.
    spec fn from_pillar_bytes(data: Seq<u8>) -> Option<Self>;

    /// Decoding the encoding of a value gives the value back.
    proof fn lemma_pillar_roundtrip(v: Self)
        ensures
            Self::from_pillar_bytes(v.pillar_bytes()) == Some(v),
    ;

    /// Encodes the value.
    fn serialize_pillar(&self) -> (r: Vec<u8>)
        ensures
            r@ == self.pillar_bytes(),
    ;

    /// Decodes a value from `data`.
    fn deserialize_pillar(data: &[u8]) -> (r: Option<Self>)
        ensures
            r == Self::from_pillar_bytes(data@),
    ;
}

/// A 32-byte array encodes as its 32 bytes; exactly 32 bytes decode.
impl PillarSerialize for StdByteArray {
    open spec fn pillar_bytes(&self) -> Seq<u8> {
        self@
    }

    open spec fn from_pillar_bytes(data: Seq<u8>) -> Option<Self> {
        if data.len() == 32 {
            Some(choose|a: [u8; 32]| a@ == data)
        } else {
            None
        }
    }

    proof fn lemma_pillar_roundtrip(v: Self) {
        let w = choose|w: [u8; 32]| w@ == v@;
        assert(w@ == v@);
        assert(w == v);
    }

    fn serialize_pillar(&self) -> (r: Vec<u8>) {
        let mut out: Vec<u8> = Vec::new();
        crate::bytes::extend_bytes(&mut out, self.as_slice());
        out
    }

    fn deserialize_pillar(data: &[u8]) -> (r: Option<Self>) {
        if data.len() != 32 {
            return None;
        }
        let mut a: [u8; 32] = [0u8; 32];
        let mut i: usize = 0;
        while i < 32
            invariant
                0 <= i <= 32,
                data@.len() == 32,
                forall|j: int| 0 <= j < i ==> a@[j] == data@[j],
            decreases 32 - i,
        {
            a[i] = data[i];
            i = i + 1;
        }
        proof {
            assert(a@ =~= data@);
            let w = choose|w: [u8; 32]| w@ == data@;
            assert(w@ == a@);
            assert(w == a);
        }
        Some(a)
    }
}

/// The 8 little-endian bytes of a `u64`.
pub open spec fn le_bytes_u64(x: u64) -> Seq<u8> {
    seq![
        (x & 0xff) as u8,
        ((x >> 8u64) & 0xff) as u8,
        ((x >> 16u64) & 0xff) as u8,
        ((x >> 24u64) & 0xff) as u8,
        ((x >> 32u64) & 0xff) as u8,
        ((x >> 40u64) & 0xff) as u8,
        ((x >> 48u64) & 0xff) as u8,
        ((x >> 56u64) & 0xff) as u8,
    ]
}

/// The `u64` whose little-endian bytes are the first 8 of `b`.
pub open spec fn le_value_u64(b: Seq<u8>) -> u64 {
    (b[0] as u64) | ((b[1] as u64) << 8u64) | ((b[2] as u64) << 16u64) | ((b[3] as u64) << 24u64) | ((
    b[4] as u64) << 32u64) | ((b[5] as u64) << 40u64) | ((b[6] as u64) << 48u64) | ((b[7] as u64)
        << 56u64)
}

pub(crate) proof fn lemma_le_u64_roundtrip(x: u64)
    ensures
        le_value_u64(le_bytes_u64(x)) == x,
{
    let b = le_bytes_u64(x);
    let b0 = (x & 0xff) as u8;
    let b1 = ((x >> 8u64) & 0xff) as u8;
    let b2 = ((x >> 16u64) & 0xff) as u8;
    let b3 = ((x >> 24u64) & 0xff) as u8;
    let b4 = ((x >> 32u64) & 0xff) as u8;
    let b5 = ((x >> 40u64) & 0xff) as u8;
    let b6 = ((x >> 48u64) & 0xff) as u8;
    let b7 = ((x >> 56u64) & 0xff) as u8;
    assert(b[0] == b0 && b[1] == b1 && b[2] == b2 && b[3] == b3);
    assert(b[4] == b4 && b[5] == b5 && b[6] == b6 && b[7] == b7);
    assert((b0 as u64) | ((b1 as u64) << 8u64) | ((b2 as u64) << 16u64) | ((b3 as u64) << 24u64) | ((
    b4 as u64) << 32u64) | ((b5 as u64) << 40u64) | ((b6 as u64) << 48u64) | ((b7 as u64) << 56u64)
        == x) by (bit_vector)
        requires
            b0 == (x & 0xff) as u8,
            b1 == ((x >> 8u64) & 0xff) as u8,
            b2 == ((x >> 16u64) & 0xff) as u8,
            b3 == ((x >> 24u64) & 0xff) as u8,
            b4 == ((x >> 32u64) & 0xff) as u8,
            b5 == ((x >> 40u64) & 0xff) as u8,
            b6 == ((x >> 48u64) & 0xff) as u8,
            b7 == ((x >> 56u64) & 0xff) as u8,
    ;
}

/// Appends the 8 little-endian bytes of `x` to `out`.
pub(crate) fn push_le_u64(out: &mut Vec<u8>, x: u64)
    ensures
        final(out)@ == old(out)@ + le_bytes_u64(x),
{
    out.push((x & 0xff) as u8);
    out.push(((x >> 8u64) & 0xff) as u8);
    out.push(((x >> 16u64) & 0xff) as u8);
    out.push(((x >> 24u64) & 0xff) as u8);
    out.push(((x >> 32u64) & 0xff) as u8);
    out.push(((x >> 40u64) & 0xff) as u8);
    out.push(((x >> 48u64) & 0xff) as u8);
    out.push(((x >> 56u64) & 0xff) as u8);
    assert(final(out)@ =~= old(out)@ + le_bytes_u64(x));
}

/// Reads the `u64` whose little-endian bytes start at `at`.
pub(crate) fn read_le_u64(data: &[u8], at: usize) -> (r: u64)
    requires
        at + 8 <= data@.len(),
    ensures
        r == le_value_u64(data@.subrange(at as int, at + 8)),
{
    let ghost b = data@.subrange(at as int, at + 8);
    assert(b[0] == data[at as int] && b[1] == data[at + 1] && b[2] == data[at + 2] && b[3] == data[at + 3]);
    assert(b[4] == data[at + 4] && b[5] == data[at + 5] && b[6] == data[at + 6] && b[7] == data[at + 7]);
    (data[at] as u64) | ((data[at + 1] as u64) << 8u64) | ((data[at + 2] as u64) << 16u64) | ((data[at
        + 3] as u64) << 24u64) | ((data[at + 4] as u64) << 32u64) | ((data[at + 5] as u64) << 40u64) | ((
    data[at + 6] as u64) << 48u64) | ((data[at + 7] as u64) << 56u64)
}

/// A `u64` encodes as its 8 little-endian bytes; exactly 8 bytes decode.
impl PillarSerialize for u64 {
    open spec fn pillar_bytes(&self) -> Seq<u8> {
        le_bytes_u64(*self)
    }

    open spec fn from_pillar_bytes(data: Seq<u8>) -> Option<Self> {
        if data.len() == 8 {
            Some(le_value_u64(data))
        } else {
            None
        }
    }

    proof fn lemma_pillar_roundtrip(v: Self) {
        lemma_le_u64_roundtrip(v);
    }

    fn serialize_pillar(&self) -> (r: Vec<u8>) {
        let mut out: Vec<u8> = Vec::new();
        push_le_u64(&mut out, *self);
        assert(out@ =~= le_bytes_u64(*self));
        out
    }

    fn deserialize_pillar(data: &[u8]) -> (r: Option<Self>) {
        if data.len() != 8 {
            return None;
        }
        assert(data@.subrange(0, 8) =~= data@);
        Some(read_le_u64(data, 0))
    }
}

/// A pair of `u64`s encodes as the little-endian bytes of the first, then of
/// the second; exactly 16 bytes decode.
impl PillarSerialize for (u64, u64) {
    open spec fn pillar_bytes(&self) -> Seq<u8> {
        le_bytes_u64(self.0) + le_bytes_u64(self.1)
    }

    open spec fn from_pillar_bytes(data: Seq<u8>) -> Option<Self> {
        if data.len() == 16 {
            Some((le_value_u64(data.subrange(0, 8)), le_value_u64(data.subrange(8, 16))))
        } else {
            None
        }
    }

    proof fn lemma_pillar_roundtrip(v: Self) {
        let b = le_bytes_u64(v.0) + le_bytes_u64(v.1);
        assert(b.subrange(0, 8) =~= le_bytes_u64(v.0));
        assert(b.subrange(8, 16) =~= le_bytes_u64(v.1));
        lemma_le_u64_roundtrip(v.0);
        lemma_le_u64_roundtrip(v.1);
    }

    fn serialize_pillar(&self) -> (r: Vec<u8>) {
        let mut out: Vec<u8> = Vec::new();
        push_le_u64(&mut out, self.0);
        push_le_u64(&mut out, self.1);
        assert(out@ =~= le_bytes_u64(self.0) + le_bytes_u64(self.1));
        out
    }

    fn deserialize_pillar(data: &[u8]) -> (r: Option<Self>) {
        if data.len() != 16 {
            return None;
        }
        Some((read_le_u64(data, 0), read_le_u64(data, 8)))
    }
}

} // verus!

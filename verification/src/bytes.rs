//! Fixed-size byte arrays and small helpers over them.

use vstd::prelude::*;

verus! {

/// Length of the standard byte array used for hashes and keys.
pub const STANDARD_ARRAY_LENGTH: usize = 32;

/// A 32-byte array: hashes, public keys and addresses.
pub type StdByteArray = [u8; 32];

/// A 64-byte ed25519 signature.
pub type SignatureBytes = [u8; 64];

/// The all-zero 32-byte array.
pub open spec fn zero32() -> Seq<u8> {
    Seq::new(32, |i: int| 0u8)
}

/// The all-zero 64-byte array.
pub open spec fn zero64() -> Seq<u8> {
    Seq::new(64, |i: int| 0u8)
}

/// Compares two 32-byte arrays element by element.
pub fn eq32(a: &[u8; 32], b: &[u8; 32]) -> (r: bool)
    ensures
        r == (a@ == b@),
{
    let mut i: usize = 0;
    while i < 32
        invariant
            0 <= i <= 32,
            a@.len() == 32,
            b@.len() == 32,
            forall|j: int| 0 <= j < i ==> a@[j] == b@[j],
        decreases 32 - i,
    {
        if a[i] != b[i] {
            return false;
        }
        i = i + 1;
    }
    assert(a@ =~= b@);
    true
}

/// Compares two 64-byte arrays element by element.
pub fn eq64(a: &[u8; 64], b: &[u8; 64]) -> (r: bool)
    ensures
        r == (a@ == b@),
{
    let mut i: usize = 0;
    while i < 64
        invariant
            0 <= i <= 64,
            a@.len() == 64,
            b@.len() == 64,
            forall|j: int| 0 <= j < i ==> a@[j] == b@[j],
        decreases 64 - i,
    {
        if a[i] != b[i] {
            return false;
        }
        i = i + 1;
    }
    assert(a@ =~= b@);
    true
}

/// Whether every byte of a 32-byte array is zero.
pub fn is_zero32(a: &[u8; 32]) -> (r: bool)
    ensures
        r == (a@ == zero32()),
{
    let z: [u8; 32] = [0u8; 32];
    assert(z@ =~= zero32());
    eq32(a, &z)
}

/// Whether every byte of a 64-byte array is zero.
pub fn is_zero64(a: &[u8; 64]) -> (r: bool)
    ensures
        r == (a@ == zero64()),
{
    let z: [u8; 64] = [0u8; 64];
    assert(z@ =~= zero64());
    eq64(a, &z)
}

/// Appends all bytes of `src` to `dst`.
pub fn extend_bytes(dst: &mut Vec<u8>, src: &[u8])
    ensures
        final(dst)@ == old(dst)@ + src@,
{
    let ghost start = dst@;
    let mut i: usize = 0;
    while i < src.len()
        invariant
            0 <= i <= src@.len(),
            dst@ == start + src@.subrange(0, i as int),
        decreases src@.len() - i,
    {
        dst.push(src[i]);
        i = i + 1;
        assert(dst@ =~= start + src@.subrange(0, i as int));
    }
    assert(src@.subrange(0, src@.len() as int) =~= src@);
}

} // verus!

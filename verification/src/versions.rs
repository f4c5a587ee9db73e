//! Protocol versions and their wire encoding.

use vstd::prelude::*;

verus! {

/// A protocol version. On the wire `V1V4` is 1 and `V1V6` is 2.
#[derive(Clone, Copy, Debug, PartialEq, Eq)]
pub enum Versions {
    V1V4,
    V1V6,
}

/// The version this implementation speaks.
pub open spec fn protocol_version() -> Versions {
    Versions::V1V4
}

/// The number of a version on the wire.
pub open spec fn version_number(v: Versions) -> u16 {
    match v {
        Versions::V1V4 => 1,
        Versions::V1V6 => 2,
    }
}

/// The little-endian bytes of a 16-bit number.
pub open spec fn u16_le(x: u16) -> Seq<u8> {
    seq![(x % 256) as u8, (x / 256) as u8]
}

/// The big-endian bytes of a 16-bit number.
pub open spec fn u16_be(x: u16) -> Seq<u8> {
    seq![(x / 256) as u8, (x % 256) as u8]
}

/// Calls `u16::to_ne_bytes`; the byte order is the machine's, so the contract
/// claims only that it is the little-endian or the big-endian encoding.
#[verifier::external_body]
fn u16_native_bytes(x: u16) -> (r: [u8; 2])
    ensures
        r@ == u16_le(x) || r@ == u16_be(x),
{
    x.to_ne_bytes()
}

/// The version this implementation speaks.
pub fn protocol_version_exec() -> (r: Versions)
    ensures
        r == protocol_version(),
{
    Versions::V1V4
}

impl Default for Versions {
    fn default() -> (r: Self)
        ensures
            r == protocol_version(),
    {
        protocol_version_exec()
    }
}

impl Versions {
    /// The version numbered `value` on the wire, if any.
    pub fn from_u16(value: u16) -> (r: Option<Self>)
        ensures
            value == 1 ==> r == Some(Versions::V1V4),
            value == 2 ==> r == Some(Versions::V1V6),
            value != 1 && value != 2 ==> r is None,
    {
        match value {
            1 => Some(Versions::V1V4),
            2 => Some(Versions::V1V6),
            _ => None,
        }
    }

    /// The number of the version on the wire.
    pub fn to_u16(&self) -> (r: u16)
        ensures
            r == version_number(*self),
    {
        match self {
            Versions::V1V4 => 1,
            Versions::V1V6 => 2,
        }
    }

    /// The little-endian bytes of the version number.
    pub fn to_le_bytes(&self) -> (r: [u8; 2])
        ensures
            r@ == u16_le(version_number(*self)),
    {
        let r: [u8; 2] = match self {
            Versions::V1V4 => [1u8, 0u8],
            Versions::V1V6 => [2u8, 0u8],
        };
        assert(r@ =~= u16_le(version_number(*self)));
        r
    }

    /// The native-endian bytes of the version number.
    pub fn to_ne_bytes(&self) -> (r: [u8; 2])
        ensures
            r@ == u16_le(version_number(*self)) || r@ == u16_be(version_number(*self)),
    {
        u16_native_bytes(self.to_u16())
    }
}

/// Reading a version back from its number gives the version.
pub proof fn lemma_version_number_roundtrip(v: Versions)
    ensures
        version_number(v) == 1 || version_number(v) == 2,
        version_number(v) == 1 ==> v == Versions::V1V4,
        version_number(v) == 2 ==> v == Versions::V1V6,
{
}

} // verus!

//! Peers of the network: their public key, address and port.

use vstd::prelude::*;

use crate::bytes::StdByteArray;

verus! {

/// An IP address in 16 bytes: an IPv6 address as it is, an IPv4 address as
/// twelve zero bytes followed by its four octets.
#[derive(Debug, Clone, Copy, PartialEq, Eq, Hash)]
pub struct PillarIPAddr(pub [u8; 16]);

/// The bytes of an IPv4 address: twelve zero bytes, then the octets.
pub open spec fn ipv4_bytes(octets: Seq<u8>) -> Seq<u8> {
    Seq::new(12, |i: int| 0u8) + octets
}

/// Whether the first twelve bytes are zero, which marks an IPv4 address.
pub open spec fn is_ipv4_bytes(b: Seq<u8>) -> bool {
    forall|i: int| 0 <= i < 12 ==> b[i] == 0
}

impl PillarIPAddr {
    /// The address of the IPv4 octets.
    pub fn from_ipv4(octets: [u8; 4]) -> (r: Self)
        ensures
            r.0@ == ipv4_bytes(octets@),
    {
        let mut bytes = [0u8; 16];
        let mut i: usize = 0;
        while i < 4
            invariant
                0 <= i <= 4,
                bytes@.len() == 16,
                forall|j: int| 0 <= j < 12 ==> bytes@[j] == 0,
                forall|j: int| 0 <= j < i ==> bytes@[12 + j] == octets@[j],
            decreases 4 - i,
        {
            bytes.set(12 + i, octets[i]);
            i = i + 1;
        }
        assert(bytes@ =~= ipv4_bytes(octets@));
        PillarIPAddr(bytes)
    }

    /// The address of the IPv6 octets.
    pub fn from_ipv6(octets: [u8; 16]) -> (r: Self)
        ensures
            r.0 == octets,
    {
        PillarIPAddr(octets)
    }

    /// The IPv4 octets when the first twelve bytes are zero; otherwise the
    /// address is IPv6 and `None` is returned.
    pub fn ipv4_octets(&self) -> (r: Option<[u8; 4]>)
        ensures
            r is Some <==> is_ipv4_bytes(self.0@),
            r matches Some(o) ==> o@ == self.0@.subrange(12, 16),
    {
        let mut i: usize = 0;
        while i < 12
            invariant
                0 <= i <= 12,
                self.0@.len() == 16,
                forall|j: int| 0 <= j < i ==> self.0@[j] == 0,
            decreases 12 - i,
        {
            if self.0[i] != 0 {
                return None;
            }
            i = i + 1;
        }
        let o: [u8; 4] = [self.0[12], self.0[13], self.0[14], self.0[15]];
        assert(o@ =~= self.0@.subrange(12, 16));
        Some(o)
    }

    /// The 16 bytes of the address.
    pub fn octets(&self) -> (r: [u8; 16])
        ensures
            r == self.0,
    {
        self.0
    }
}

/// An IPv4 address reads back as the same octets.
pub proof fn lemma_ipv4_roundtrip(octets: Seq<u8>)
    requires
        octets.len() == 4,
    ensures
        is_ipv4_bytes(ipv4_bytes(octets)),
        ipv4_bytes(octets).subrange(12, 16) == octets,
{
    assert(ipv4_bytes(octets).subrange(12, 16) =~= octets);
}

/// A peer: its public key, IP address and port.
#[derive(Debug, Clone, Copy, PartialEq, Eq, Hash)]
pub struct Peer {
    /// The public key of the peer.
    pub public_key: StdByteArray,
    /// The IP address of the peer.
    pub ip_address: PillarIPAddr,
    /// The port of the peer.
    pub port: u16,
}

impl Peer {
    /// A peer with the given key, address and port.
    pub fn new(public_key: StdByteArray, ip_address: PillarIPAddr, port: u16) -> (r: Self)
        ensures
            r.public_key == public_key,
            r.ip_address == ip_address,
            r.port == port,
    {
        Peer { public_key, ip_address, port }
    }
}

} // verus!

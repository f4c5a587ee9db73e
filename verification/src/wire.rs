//! The binary wire format of fixed-size values.
//!
//! Integers are little-endian. A fixed-size value is the concatenation of its
//! fields in declaration order with no padding added: a block header is 1160
//! bytes, a peer 50, a transaction stub 64. An `Option` is a marker byte (0
//! for `None`, 1 for `Some`) followed by the value when present. A list of
//! fixed-size values is their concatenation, with no length. A message on a
//! stream is prefixed with its length as a 4-byte little-endian number.

use vstd::prelude::*;
use vstd::bytes::{
    spec_u16_from_le_bytes, spec_u16_to_le_bytes, spec_u32_to_le_bytes, spec_u64_from_le_bytes,
    spec_u64_to_le_bytes, u16_from_le_bytes, u16_to_le_bytes, u32_to_le_bytes, u64_from_le_bytes,
    u64_to_le_bytes,
};

use crate::account::TransactionStub;
use crate::block::{blank_stamps, BlockHeader, BlockTail, HeaderCompletion, HeaderCompletionInner, Stamp};
use crate::bytes::{extend_bytes, zero32, StdByteArray};
use crate::header::stamps_bytes;
use crate::peer::{Peer, PillarIPAddr};
use crate::transaction::TransactionFilter;
use crate::N_TRANSMISSION_SIGNATURES;

verus! {

/// The length of a block header on the wire.
pub const HEADER_WIRE_LENGTH: usize = 1160;

/// The length of a peer on the wire.
pub const PEER_WIRE_LENGTH: usize = 50;

/// The length of a transaction stub on the wire.
pub const STUB_WIRE_LENGTH: usize = 64;

/// The length of a transaction filter whose fields are all present.
pub const FILTER_WIRE_LENGTH: usize = 75;

/// Why bytes could not be read as a value.
#[derive(Debug, Clone, Copy, PartialEq, Eq)]
pub enum WireError {
    /// There are fewer bytes than the value needs.
    InsufficientData,
    /// A message code that no message has.
    UnknownCode,
    /// Bytes that are not what the message code announces.
    Malformed,
}

/// The wire bytes of a block header.
pub open spec fn header_wire(h: BlockHeader) -> Seq<u8> {
    let c = h.completion.fields();
    h.previous_hash@ + h.merkle_root@ + spec_u64_to_le_bytes(h.nonce) + spec_u64_to_le_bytes(h.timestamp)
        + spec_u64_to_le_bytes(h.depth) + h.version@ + h._pad@ + stamps_bytes(h.tail.stamps@) + c.hash@
        + c.miner_address@ + c.state_root@ + spec_u64_to_le_bytes(c.difficulty_target)
}

/// The wire bytes of a peer.
pub open spec fn peer_wire(p: Peer) -> Seq<u8> {
    p.public_key@ + p.ip_address.0@ + spec_u16_to_le_bytes(p.port)
}

/// The wire bytes of a transaction stub.
pub open spec fn stub_wire(s: TransactionStub) -> Seq<u8> {
    s.block_hash@ + s.transaction_hash@
}

/// The wire bytes of an optional 32-byte array: a tag byte (1 present, 0
/// absent) and 32 bytes, zero when absent.
pub open spec fn option_array_wire(o: Option<StdByteArray>) -> Seq<u8> {
    match o {
        Some(a) => seq![1u8] + a@,
        None => seq![0u8] + zero32(),
    }
}

/// The eight zero bytes that pad an absent number.
pub open spec fn zero8() -> Seq<u8> {
    Seq::new(8, |i: int| 0u8)
}

/// The wire bytes of an optional number: a tag byte (1 present, 0 absent)
/// and its 8 little-endian bytes, zero when absent.
pub open spec fn option_u64_wire(o: Option<u64>) -> Seq<u8> {
    match o {
        Some(x) => seq![1u8] + spec_u64_to_le_bytes(x),
        None => seq![0u8] + zero8(),
    }
}

/// The wire bytes of a transaction filter: its three optional fields.
pub open spec fn filter_wire(f: TransactionFilter) -> Seq<u8> {
    option_array_wire(f.sender) + option_array_wire(f.receiver) + option_u64_wire(f.amount)
}

/// The bytes of an optional 32-byte array.
pub open spec fn option_view(o: Option<StdByteArray>) -> Option<Seq<u8>> {
    match o {
        Some(a) => Some(a@),
        None => None,
    }
}

/// The optional 32-byte array that `marker` and `bytes` read back as: absent
/// for marker 0, present for any other marker.
pub open spec fn read_option_array(marker: u8, bytes: Seq<u8>) -> Option<Seq<u8>> {
    if marker == 0 {
        None
    } else {
        Some(bytes)
    }
}

/// The wire bytes of a list of 32-byte arrays.
pub open spec fn arrays_wire(v: Seq<StdByteArray>) -> Seq<u8>
    decreases v.len(),
{
    if v.len() == 0 {
        Seq::empty()
    } else {
        arrays_wire(v.drop_last()) + v.last()@
    }
}

/// The wire bytes of a list of peers.
pub open spec fn peers_wire(v: Seq<Peer>) -> Seq<u8>
    decreases v.len(),
{
    if v.len() == 0 {
        Seq::empty()
    } else {
        peers_wire(v.drop_last()) + peer_wire(v.last())
    }
}

/// A message framed for a stream: its length, then its bytes.
pub open spec fn framed(payload: Seq<u8>) -> Seq<u8> {
    spec_u32_to_le_bytes(payload.len() as u32) + payload
}

/// Copies `n` bytes of `data` from `start`.
fn read_bytes(data: &[u8], start: usize, n: usize) -> (r: Vec<u8>)
    requires
        start + n <= data@.len(),
    ensures
        r@ == data@.subrange(start as int, start + n),
{
    let mut out: Vec<u8> = Vec::new();
    let mut i: usize = 0;
    while i < n
        invariant
            0 <= i <= n,
            start + n <= data.len(),
            out@ == data@.subrange(start as int, start + i),
        decreases n - i,
    {
        out.push(data[start + i]);
        i = i + 1;
        assert(out@ =~= data@.subrange(start as int, start + i));
    }
    out
}

/// Copies 32 bytes of `data` from `start`.
pub(crate) fn read_array32(data: &[u8], start: usize) -> (r: [u8; 32])
    requires
        start + 32 <= data@.len(),
    ensures
        r@ == data@.subrange(start as int, start + 32),
{
    let mut out = [0u8; 32];
    let mut i: usize = 0;
    while i < 32
        invariant
            0 <= i <= 32,
            start + 32 <= data.len(),
            out@.len() == 32,
            forall|j: int| 0 <= j < i ==> out@[j] == data@[start + j],
        decreases 32 - i,
    {
        out.set(i, data[start + i]);
        i = i + 1;
    }
    assert(out@ =~= data@.subrange(start as int, start + 32));
    out
}

/// Copies 64 bytes of `data` from `start`.
fn read_array64(data: &[u8], start: usize) -> (r: [u8; 64])
    requires
        start + 64 <= data@.len(),
    ensures
        r@ == data@.subrange(start as int, start + 64),
{
    let mut out = [0u8; 64];
    let mut i: usize = 0;
    while i < 64
        invariant
            0 <= i <= 64,
            start + 64 <= data.len(),
            out@.len() == 64,
            forall|j: int| 0 <= j < i ==> out@[j] == data@[start + j],
        decreases 64 - i,
    {
        out.set(i, data[start + i]);
        i = i + 1;
    }
    assert(out@ =~= data@.subrange(start as int, start + 64));
    out
}

/// Reads a little-endian number from 8 bytes of `data` at `start`.
fn read_u64(data: &[u8], start: usize) -> (r: u64)
    requires
        start + 8 <= data@.len(),
    ensures
        r == spec_u64_from_le_bytes(data@.subrange(start as int, start + 8)),
{
    let b = read_bytes(data, start, 8);
    u64_from_le_bytes(b.as_slice())
}

/// The layout of the stamp bytes: 96 bytes per stamp, signature first.
proof fn lemma_stamps_layout(s: Seq<Stamp>)
    ensures
        stamps_bytes(s).len() == 96 * s.len(),
        forall|i: int|
            0 <= i < s.len() ==> stamps_bytes(s).subrange(96 * i, 96 * i + 64) == (#[trigger] s[i]).signature@
                && stamps_bytes(s).subrange(96 * i + 64, 96 * i + 96) == s[i].address@,
    decreases s.len(),
{
    if s.len() > 0 {
        let p = s.drop_last();
        lemma_stamps_layout(p);
        let b = stamps_bytes(s);
        assert(b == stamps_bytes(p) + s.last().signature@ + s.last().address@);
        assert forall|i: int| 0 <= i < s.len() implies b.subrange(96 * i, 96 * i + 64) == (#[trigger] s[i]).signature@
            && b.subrange(96 * i + 64, 96 * i + 96) == s[i].address@ by {
            if i < s.len() - 1 {
                assert(s[i] == p[i]);
                assert(b.subrange(96 * i, 96 * i + 64) =~= stamps_bytes(p).subrange(96 * i, 96 * i + 64));
                assert(b.subrange(96 * i + 64, 96 * i + 96) =~= stamps_bytes(p).subrange(96 * i + 64, 96 * i + 96));
            } else {
                assert(b.subrange(96 * i, 96 * i + 64) =~= s.last().signature@);
                assert(b.subrange(96 * i + 64, 96 * i + 96) =~= s.last().address@);
            }
        }
    }
}

/// Stamps whose signatures and addresses have the same bytes are equal.
proof fn lemma_stamp_ext(a: Stamp, b: Stamp)
    requires
        a.signature@ == b.signature@,
        a.address@ == b.address@,
    ensures
        a == b,
{
    broadcast use vstd::array::axiom_array_ext_equal;
    assert(a.signature =~= b.signature);
    assert(a.address =~= b.address);
}

/// Headers with the same wire bytes are equal.
pub proof fn lemma_header_wire_injective(h1: BlockHeader, h2: BlockHeader)
    requires
        header_wire(h1) == header_wire(h2),
    ensures
        h1 == h2,
{
    broadcast use vstd::array::axiom_array_ext_equal;
    vstd::bytes::lemma_auto_spec_u64_to_from_le_bytes();
    let w1 = header_wire(h1);
    let w2 = header_wire(h2);
    let c1 = h1.completion.fields();
    let c2 = h2.completion.fields();
    lemma_stamps_layout(h1.tail.stamps@);
    lemma_stamps_layout(h2.tail.stamps@);
    assert(w1.subrange(0, 32) =~= h1.previous_hash@);
    assert(w2.subrange(0, 32) =~= h2.previous_hash@);
    assert(w1.subrange(32, 64) =~= h1.merkle_root@);
    assert(w2.subrange(32, 64) =~= h2.merkle_root@);
    assert(w1.subrange(64, 72) =~= spec_u64_to_le_bytes(h1.nonce));
    assert(w2.subrange(64, 72) =~= spec_u64_to_le_bytes(h2.nonce));
    assert(w1.subrange(72, 80) =~= spec_u64_to_le_bytes(h1.timestamp));
    assert(w2.subrange(72, 80) =~= spec_u64_to_le_bytes(h2.timestamp));
    assert(w1.subrange(80, 88) =~= spec_u64_to_le_bytes(h1.depth));
    assert(w2.subrange(80, 88) =~= spec_u64_to_le_bytes(h2.depth));
    assert(w1.subrange(88, 90) =~= h1.version@);
    assert(w2.subrange(88, 90) =~= h2.version@);
    assert(w1.subrange(90, 96) =~= h1._pad@);
    assert(w2.subrange(90, 96) =~= h2._pad@);
    assert(w1.subrange(96, 1056) =~= stamps_bytes(h1.tail.stamps@));
    assert(w2.subrange(96, 1056) =~= stamps_bytes(h2.tail.stamps@));
    assert(w1.subrange(1056, 1088) =~= c1.hash@);
    assert(w2.subrange(1056, 1088) =~= c2.hash@);
    assert(w1.subrange(1088, 1120) =~= c1.miner_address@);
    assert(w2.subrange(1088, 1120) =~= c2.miner_address@);
    assert(w1.subrange(1120, 1152) =~= c1.state_root@);
    assert(w2.subrange(1120, 1152) =~= c2.state_root@);
    assert(w1.subrange(1152, 1160) =~= spec_u64_to_le_bytes(c1.difficulty_target));
    assert(w2.subrange(1152, 1160) =~= spec_u64_to_le_bytes(c2.difficulty_target));
    assert(h1.nonce == h2.nonce);
    assert(h1.timestamp == h2.timestamp);
    assert(h1.depth == h2.depth);
    assert(c1.difficulty_target == c2.difficulty_target);
    let sb1 = stamps_bytes(h1.tail.stamps@);
    let sb2 = stamps_bytes(h2.tail.stamps@);
    assert forall|i: int| 0 <= i < N_TRANSMISSION_SIGNATURES implies h1.tail.stamps@[i] == h2.tail.stamps@[i] by {
        assert(sb1.subrange(96 * i, 96 * i + 64) == h1.tail.stamps@[i].signature@);
        assert(sb2.subrange(96 * i, 96 * i + 64) == h2.tail.stamps@[i].signature@);
        assert(sb1.subrange(96 * i + 64, 96 * i + 96) == h1.tail.stamps@[i].address@);
        assert(sb2.subrange(96 * i + 64, 96 * i + 96) == h2.tail.stamps@[i].address@);
        lemma_stamp_ext(h1.tail.stamps@[i], h2.tail.stamps@[i]);
    }
    assert(h1.tail.stamps =~= h2.tail.stamps);
    assert(h1.previous_hash =~= h2.previous_hash);
    assert(h1.merkle_root =~= h2.merkle_root);
    assert(h1.version =~= h2.version);
    assert(h1._pad =~= h2._pad);
    assert(c1.hash =~= c2.hash);
    assert(c1.miner_address =~= c2.miner_address);
    assert(c1.state_root =~= c2.state_root);
    crate::block::lemma_completion_ext(h1.completion, h2.completion);
}

impl BlockHeader {
    /// The header's wire bytes.
    pub fn serialize_pillar(&self) -> (r: Result<Vec<u8>, WireError>)
        ensures
            r matches Ok(v) && v@ == header_wire(*self),
    {
        let c = self.completion.inner_fields();
        let mut out: Vec<u8> = Vec::new();
        extend_bytes(&mut out, self.previous_hash.as_slice());
        extend_bytes(&mut out, self.merkle_root.as_slice());
        extend_bytes(&mut out, u64_to_le_bytes(self.nonce).as_slice());
        extend_bytes(&mut out, u64_to_le_bytes(self.timestamp).as_slice());
        extend_bytes(&mut out, u64_to_le_bytes(self.depth).as_slice());
        extend_bytes(&mut out, self.version.as_slice());
        extend_bytes(&mut out, self._pad.as_slice());
        let ghost before_stamps = out@;
        let mut i: usize = 0;
        while i < N_TRANSMISSION_SIGNATURES
            invariant
                0 <= i <= N_TRANSMISSION_SIGNATURES,
                self.tail.stamps@.len() == N_TRANSMISSION_SIGNATURES,
                out@ == before_stamps + stamps_bytes(self.tail.stamps@.subrange(0, i as int)),
            decreases N_TRANSMISSION_SIGNATURES - i,
        {
            assert(self.tail.stamps@.subrange(0, i + 1).drop_last() =~= self.tail.stamps@.subrange(0, i as int));
            extend_bytes(&mut out, self.tail.stamps[i].signature.as_slice());
            extend_bytes(&mut out, self.tail.stamps[i].address.as_slice());
            i = i + 1;
            assert(out@ =~= before_stamps + stamps_bytes(self.tail.stamps@.subrange(0, i as int)));
        }
        assert(self.tail.stamps@.subrange(0, N_TRANSMISSION_SIGNATURES as int) =~= self.tail.stamps@);
        extend_bytes(&mut out, c.hash.as_slice());
        extend_bytes(&mut out, c.miner_address.as_slice());
        extend_bytes(&mut out, c.state_root.as_slice());
        extend_bytes(&mut out, u64_to_le_bytes(c.difficulty_target).as_slice());
        assert(out@ =~= header_wire(*self));
        Ok(out)
    }

    /// Reads a header from exactly its wire bytes; fails when there are fewer.
    pub fn deserialize_pillar(data: &[u8]) -> (r: Result<BlockHeader, WireError>)
        requires
            data@.len() <= HEADER_WIRE_LENGTH,
        ensures
            r is Err <==> data@.len() < HEADER_WIRE_LENGTH,
            r matches Err(e) ==> e is InsufficientData,
            r matches Ok(h) ==> header_wire(h) == data@,
    {
        if data.len() < HEADER_WIRE_LENGTH {
            return Err(WireError::InsufficientData);
        }
        proof {
            vstd::bytes::lemma_auto_spec_u64_to_from_le_bytes();
        }
        let previous_hash = read_array32(data, 0);
        let merkle_root = read_array32(data, 32);
        let nonce = read_u64(data, 64);
        let timestamp = read_u64(data, 72);
        let depth = read_u64(data, 80);
        let version: [u8; 2] = [data[88], data[89]];
        let pad: [u8; 6] = [data[90], data[91], data[92], data[93], data[94], data[95]];
        let mut stamps = blank_stamps();
        let mut i: usize = 0;
        while i < N_TRANSMISSION_SIGNATURES
            invariant
                0 <= i <= N_TRANSMISSION_SIGNATURES,
                data@.len() == HEADER_WIRE_LENGTH,
                stamps@.len() == N_TRANSMISSION_SIGNATURES,
                stamps_bytes(stamps@.subrange(0, i as int)) == data@.subrange(96, 96 + 96 * i),
            decreases N_TRANSMISSION_SIGNATURES - i,
        {
            let signature = read_array64(data, 96 + 96 * i);
            let address = read_array32(data, 96 + 96 * i + 64);
            let ghost before = stamps@;
            stamps.set(i, Stamp { signature, address });
            proof {
                assert(stamps@.subrange(0, i as int) =~= before.subrange(0, i as int));
                assert(stamps@.subrange(0, i + 1).drop_last() =~= stamps@.subrange(0, i as int));
                assert(stamps@.subrange(0, i + 1).last() == stamps@[i as int]);
                assert(data@.subrange(96, 96 + 96 * (i + 1)) =~= data@.subrange(96, 96 + 96 * i)
                    + data@.subrange(96 + 96 * i, 96 + 96 * i + 64) + data@.subrange(
                    96 + 96 * i + 64,
                    96 + 96 * (i + 1),
                ));
            }
            i = i + 1;
        }
        assert(stamps@.subrange(0, N_TRANSMISSION_SIGNATURES as int) =~= stamps@);
        let hash = read_array32(data, 1056);
        let miner_address = read_array32(data, 1088);
        let state_root = read_array32(data, 1120);
        let difficulty_target = read_u64(data, 1152);
        let completion = HeaderCompletion::from_fields(
            HeaderCompletionInner { hash, miner_address, state_root, difficulty_target },
        );
        let h = BlockHeader {
            previous_hash,
            merkle_root,
            nonce,
            timestamp,
            depth,
            version,
            _pad: pad,
            tail: BlockTail { stamps },
            completion,
        };
        proof {
            assert(version@ =~= data@.subrange(88, 90));
            assert(pad@ =~= data@.subrange(90, 96));
            assert(spec_u64_to_le_bytes(nonce) == data@.subrange(64, 72));
            assert(spec_u64_to_le_bytes(timestamp) == data@.subrange(72, 80));
            assert(spec_u64_to_le_bytes(depth) == data@.subrange(80, 88));
            assert(spec_u64_to_le_bytes(difficulty_target) == data@.subrange(1152, 1160));
            assert(data@ =~= data@.subrange(0, 32) + data@.subrange(32, 64) + data@.subrange(64, 72)
                + data@.subrange(72, 80) + data@.subrange(80, 88) + data@.subrange(88, 90) + data@.subrange(
                90,
                96,
            ) + data@.subrange(96, 1056) + data@.subrange(1056, 1088) + data@.subrange(1088, 1120)
                + data@.subrange(1120, 1152) + data@.subrange(1152, 1160));
        }
        Ok(h)
    }
}

impl Peer {
    /// The peer's wire bytes.
    pub fn serialize_pillar(&self) -> (r: Result<Vec<u8>, WireError>)
        ensures
            r matches Ok(v) && v@ == peer_wire(*self),
    {
        let mut out: Vec<u8> = Vec::new();
        extend_bytes(&mut out, self.public_key.as_slice());
        extend_bytes(&mut out, self.ip_address.0.as_slice());
        extend_bytes(&mut out, u16_to_le_bytes(self.port).as_slice());
        Ok(out)
    }

    /// Reads a peer from exactly its wire bytes; fails when there are fewer.
    pub fn deserialize_pillar(data: &[u8]) -> (r: Result<Peer, WireError>)
        requires
            data@.len() <= PEER_WIRE_LENGTH,
        ensures
            r is Err <==> data@.len() < PEER_WIRE_LENGTH,
            r matches Err(e) ==> e is InsufficientData,
            r matches Ok(p) ==> peer_wire(p) == data@,
    {
        if data.len() < PEER_WIRE_LENGTH {
            return Err(WireError::InsufficientData);
        }
        proof {
            vstd::bytes::lemma_auto_spec_u16_to_from_le_bytes();
        }
        let public_key = read_array32(data, 0);
        let ip: [u8; 16] = [
            data[32],
            data[33],
            data[34],
            data[35],
            data[36],
            data[37],
            data[38],
            data[39],
            data[40],
            data[41],
            data[42],
            data[43],
            data[44],
            data[45],
            data[46],
            data[47],
        ];
        let port_bytes = read_bytes(data, 48, 2);
        let port = u16_from_le_bytes(port_bytes.as_slice());
        proof {
            assert(ip@ =~= data@.subrange(32, 48));
            assert(data@ =~= data@.subrange(0, 32) + data@.subrange(32, 48) + data@.subrange(48, 50));
        }
        Ok(Peer { public_key, ip_address: PillarIPAddr(ip), port })
    }
}

/// Peers with the same wire bytes are equal.
pub proof fn lemma_peer_wire_injective(p1: Peer, p2: Peer)
    requires
        peer_wire(p1) == peer_wire(p2),
    ensures
        p1 == p2,
        peer_wire(p1).len() == PEER_WIRE_LENGTH,
{
    broadcast use vstd::array::axiom_array_ext_equal;
    vstd::bytes::lemma_auto_spec_u16_to_from_le_bytes();
    let w1 = peer_wire(p1);
    let w2 = peer_wire(p2);
    assert(w1.subrange(0, 32) =~= p1.public_key@);
    assert(w2.subrange(0, 32) =~= p2.public_key@);
    assert(w1.subrange(32, 48) =~= p1.ip_address.0@);
    assert(w2.subrange(32, 48) =~= p2.ip_address.0@);
    assert(w1.subrange(48, 50) =~= spec_u16_to_le_bytes(p1.port));
    assert(w2.subrange(48, 50) =~= spec_u16_to_le_bytes(p2.port));
    assert(p1.public_key =~= p2.public_key);
    assert(p1.ip_address.0 =~= p2.ip_address.0);
}

impl TransactionStub {
    /// The stub's wire bytes.
    pub fn serialize_pillar(&self) -> (r: Result<Vec<u8>, WireError>)
        ensures
            r matches Ok(v) && v@ == stub_wire(*self),
    {
        let mut out: Vec<u8> = Vec::new();
        extend_bytes(&mut out, self.block_hash.as_slice());
        extend_bytes(&mut out, self.transaction_hash.as_slice());
        Ok(out)
    }

    /// Reads a stub from exactly its wire bytes; fails when there are fewer.
    pub fn deserialize_pillar(data: &[u8]) -> (r: Result<TransactionStub, WireError>)
        requires
            data@.len() <= STUB_WIRE_LENGTH,
        ensures
            r is Err <==> data@.len() < STUB_WIRE_LENGTH,
            r matches Err(e) ==> e is InsufficientData,
            r matches Ok(s) ==> stub_wire(s) == data@,
    {
        if data.len() < STUB_WIRE_LENGTH {
            return Err(WireError::InsufficientData);
        }
        let block_hash = read_array32(data, 0);
        let transaction_hash = read_array32(data, 32);
        assert(data@ =~= data@.subrange(0, 32) + data@.subrange(32, 64));
        Ok(TransactionStub { block_hash, transaction_hash })
    }
}

/// Stubs with the same wire bytes are equal.
pub proof fn lemma_stub_wire_injective(s1: TransactionStub, s2: TransactionStub)
    requires
        stub_wire(s1) == stub_wire(s2),
    ensures
        s1 == s2,
        stub_wire(s1).len() == STUB_WIRE_LENGTH,
{
    broadcast use vstd::array::axiom_array_ext_equal;
    assert(stub_wire(s1).subrange(0, 32) =~= s1.block_hash@);
    assert(stub_wire(s2).subrange(0, 32) =~= s2.block_hash@);
    assert(stub_wire(s1).subrange(32, 64) =~= s1.transaction_hash@);
    assert(stub_wire(s2).subrange(32, 64) =~= s2.transaction_hash@);
    assert(s1.block_hash =~= s2.block_hash);
    assert(s1.transaction_hash =~= s2.transaction_hash);
}

impl TransactionFilter {
    /// The filter's wire bytes, 75 of them: each field as an option at a
    /// fixed width (33, 33 and 9 bytes), a missing field being its zero tag
    /// followed by zero padding.
    pub fn serialize_pillar(&self) -> (r: Result<Vec<u8>, WireError>)
        ensures
            r matches Ok(v) && v@ == filter_wire(*self),
    {
        let mut out: Vec<u8> = Vec::new();
        let zero: [u8; 1] = [0u8];
        let one: [u8; 1] = [1u8];
        let pad32: [u8; 32] = [0u8; 32];
        let pad8: [u8; 8] = [0u8; 8];
        assert(zero@ =~= seq![0u8]);
        assert(one@ =~= seq![1u8]);
        assert(pad32@ =~= zero32());
        assert(pad8@ =~= zero8());
        match &self.sender {
            Some(a) => {
                extend_bytes(&mut out, one.as_slice());
                extend_bytes(&mut out, a.as_slice());
            },
            None => {
                extend_bytes(&mut out, zero.as_slice());
                extend_bytes(&mut out, pad32.as_slice());
            },
        }
        let ghost after_sender = out@;
        match &self.receiver {
            Some(a) => {
                extend_bytes(&mut out, one.as_slice());
                extend_bytes(&mut out, a.as_slice());
            },
            None => {
                extend_bytes(&mut out, zero.as_slice());
                extend_bytes(&mut out, pad32.as_slice());
            },
        }
        let ghost after_receiver = out@;
        match self.amount {
            Some(x) => {
                extend_bytes(&mut out, one.as_slice());
                extend_bytes(&mut out, u64_to_le_bytes(x).as_slice());
            },
            None => {
                extend_bytes(&mut out, zero.as_slice());
                extend_bytes(&mut out, pad8.as_slice());
            },
        }
        assert(after_sender =~= option_array_wire(self.sender));
        assert(after_receiver =~= option_array_wire(self.sender) + option_array_wire(self.receiver));
        assert(out@ =~= filter_wire(*self));
        Ok(out)
    }

    /// Reads a filter from its fixed-length wire bytes: three options at
    /// offsets 0, 33 and 66, each absent when its marker byte is 0. Bytes
    /// after the third option are ignored.
    pub fn deserialize_pillar(data: &[u8]) -> (r: Result<TransactionFilter, WireError>)
        requires
            data@.len() >= FILTER_WIRE_LENGTH,
        ensures
            r matches Ok(f) && {
                &&& option_view(f.sender) == read_option_array(data@[0], data@.subrange(1, 33))
                &&& option_view(f.receiver) == read_option_array(data@[33], data@.subrange(34, 66))
                &&& f.amount == if data@[66] == 0 {
                    None
                } else {
                    Some(spec_u64_from_le_bytes(data@.subrange(67, 75)))
                }
            },
    {
        let sender = if data[0] == 0 {
            None
        } else {
            Some(read_array32(data, 1))
        };
        let receiver = if data[33] == 0 {
            None
        } else {
            Some(read_array32(data, 34))
        };
        let amount = if data[66] == 0 {
            None
        } else {
            Some(read_u64(data, 67))
        };
        Ok(TransactionFilter { sender, receiver, amount })
    }
}

/// Every filter reads back from its wire bytes: what `deserialize_pillar`
/// reads from `filter_wire(f)` is `f`.
pub proof fn lemma_filter_roundtrip(f: TransactionFilter, g: TransactionFilter)
    requires
        option_view(g.sender) == read_option_array(filter_wire(f)[0], filter_wire(f).subrange(1, 33)),
        option_view(g.receiver) == read_option_array(filter_wire(f)[33], filter_wire(f).subrange(34, 66)),
        g.amount == if filter_wire(f)[66] == 0 {
            None
        } else {
            Some(spec_u64_from_le_bytes(filter_wire(f).subrange(67, 75)))
        },
    ensures
        g == f,
{
    broadcast use vstd::array::axiom_array_ext_equal;
    vstd::bytes::lemma_auto_spec_u64_to_from_le_bytes();
    let w = filter_wire(f);
    let a = option_array_wire(f.sender);
    let b = option_array_wire(f.receiver);
    let c = option_u64_wire(f.amount);
    assert(a.len() == 33 && b.len() == 33 && c.len() == 9);
    assert(w.subrange(0, 33) =~= a);
    assert(w.subrange(33, 66) =~= b);
    assert(w.subrange(66, 75) =~= c);
    assert(w[0] == a[0] && w[33] == b[0] && w[66] == c[0]);
    assert(w.subrange(1, 33) =~= a.subrange(1, 33));
    assert(w.subrange(34, 66) =~= b.subrange(1, 33));
    assert(w.subrange(67, 75) =~= c.subrange(1, 9));
    match f.sender {
        Some(x) => {
            assert(a.subrange(1, 33) =~= x@);
            assert(g.sender->0 =~= x);
        },
        None => {},
    }
    match f.receiver {
        Some(x) => {
            assert(b.subrange(1, 33) =~= x@);
            assert(g.receiver->0 =~= x);
        },
        None => {},
    }
    match f.amount {
        Some(x) => {
            assert(c.subrange(1, 9) =~= spec_u64_to_le_bytes(x));
        },
        None => {},
    }
}

/// Every filter has the fixed wire length of 75 bytes.
pub proof fn lemma_filter_wire_length(f: TransactionFilter)
    ensures
        filter_wire(f).len() == FILTER_WIRE_LENGTH,
{
    vstd::bytes::lemma_auto_spec_u64_to_from_le_bytes();
}

/// The wire bytes of a list of 32-byte arrays.
pub fn serialize_arrays(v: &Vec<StdByteArray>) -> (r: Vec<u8>)
    ensures
        r@ == arrays_wire(v@),
{
    let mut out: Vec<u8> = Vec::new();
    let mut i: usize = 0;
    while i < v.len()
        invariant
            0 <= i <= v@.len(),
            out@ == arrays_wire(v@.subrange(0, i as int)),
        decreases v@.len() - i,
    {
        assert(v@.subrange(0, i + 1).drop_last() =~= v@.subrange(0, i as int));
        extend_bytes(&mut out, v[i].as_slice());
        i = i + 1;
    }
    assert(v@.subrange(0, v@.len() as int) =~= v@);
    out
}

/// Reads a list of 32-byte arrays from their concatenation.
pub fn deserialize_arrays(data: &[u8]) -> (r: Vec<StdByteArray>)
    requires
        data@.len() % 32 == 0,
    ensures
        arrays_wire(r@) == data@,
{
    let n = data.len() / 32;
    let mut out: Vec<StdByteArray> = Vec::new();
    let mut i: usize = 0;
    while i < n
        invariant
            0 <= i <= n,
            n * 32 == data@.len(),
            n == data.len() / 32,
            arrays_wire(out@) == data@.subrange(0, 32 * i),
            out@.len() == i,
        decreases n - i,
    {
        let a = read_array32(data, 32 * i);
        let ghost before = out@;
        out.push(a);
        proof {
            assert(out@.drop_last() =~= before);
            assert(data@.subrange(0, 32 * (i + 1)) =~= data@.subrange(0, 32 * i) + data@.subrange(
                32 * i,
                32 * i + 32,
            ));
        }
        i = i + 1;
    }
    assert(data@.subrange(0, 32 * n) =~= data@);
    out
}

/// Lists of 32-byte arrays with the same wire bytes are equal, and the wire
/// length is 32 bytes per array.
pub proof fn lemma_arrays_wire_injective(v1: Seq<StdByteArray>, v2: Seq<StdByteArray>)
    requires
        arrays_wire(v1) == arrays_wire(v2),
    ensures
        v1 == v2,
        arrays_wire(v1).len() == 32 * v1.len(),
    decreases v1.len(),
{
    lemma_arrays_wire_len(v1);
    lemma_arrays_wire_len(v2);
    if v1.len() > 0 {
        let w = arrays_wire(v1);
        let n = w.len() - 32;
        assert(w.subrange(0, n) =~= arrays_wire(v1.drop_last()));
        assert(w.subrange(0, n) =~= arrays_wire(v2.drop_last()));
        assert(w.subrange(n, w.len() as int) =~= v1.last()@);
        assert(w.subrange(n, w.len() as int) =~= v2.last()@);
        lemma_arrays_wire_injective(v1.drop_last(), v2.drop_last());
        broadcast use vstd::array::axiom_array_ext_equal;
        assert(v1.last() =~= v2.last());
        assert(v1 =~= v2.drop_last().push(v2.last()));
        assert(v2 =~= v2.drop_last().push(v2.last()));
    }
}

proof fn lemma_arrays_wire_len(v: Seq<StdByteArray>)
    ensures
        arrays_wire(v).len() == 32 * v.len(),
    decreases v.len(),
{
    if v.len() > 0 {
        lemma_arrays_wire_len(v.drop_last());
    }
}

/// Frames a message for a stream: its length as a 4-byte little-endian
/// number (the low 32 bits of it), then its bytes.
pub fn package_standard_message(payload: &[u8]) -> (r: Vec<u8>)
    ensures
        r@ == framed(payload@),
{
    let mut out: Vec<u8> = Vec::new();
    let len = payload.len() as u32;
    extend_bytes(&mut out, u32_to_le_bytes(len).as_slice());
    extend_bytes(&mut out, payload);
    out
}

/// Reading back the wire bytes of a header gives the header.
pub proof fn lemma_header_roundtrip(h: BlockHeader, r: BlockHeader)
    requires
        header_wire(r) == header_wire(h),
    ensures
        r == h,
        header_wire(h).len() == HEADER_WIRE_LENGTH,
{
    lemma_header_wire_injective(r, h);
    lemma_stamps_layout(h.tail.stamps@);
    vstd::bytes::lemma_auto_spec_u64_to_from_le_bytes();
}

} // verus!

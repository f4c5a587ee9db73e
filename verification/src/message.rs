//! The messages that nodes send each other, and their wire bytes.
//!
//! A message is a code byte followed by what it carries. Fixed-size values
//! travel as their wire bytes; lists of fixed-size values as the wire bytes
//! of their items, one after the other; a transaction filter with the
//! value that follows it is preceded by the filter's length as a 4-byte
//! little-endian number. A chain, a block, a shard, a transaction, a proof
//! of inclusion or an error text is carried as its bytes, for the caller to
//! decode.

use vstd::prelude::*;
use vstd::bytes::{
    lemma_auto_spec_u32_to_from_le_bytes, spec_u32_from_le_bytes, spec_u32_to_le_bytes, u32_from_le_bytes,
    u32_to_le_bytes,
};
use vstd::slice::slice_subrange;
use vstd::string::StringExecFns;

use crate::account::TransactionStub;
use crate::block::BlockHeader;
use crate::bytes::{extend_bytes, StdByteArray};
use crate::peer::Peer;
use crate::transaction::TransactionFilter;
use crate::wire::{
    arrays_wire, deserialize_arrays, filter_wire, header_wire, lemma_arrays_wire_injective, lemma_filter_roundtrip,
    lemma_filter_wire_length, lemma_header_roundtrip, lemma_peer_wire_injective, lemma_stub_wire_injective,
    option_view, peer_wire, peers_wire, read_array32, read_option_array, serialize_arrays, stub_wire, WireError,
    FILTER_WIRE_LENGTH, HEADER_WIRE_LENGTH, PEER_WIRE_LENGTH, STUB_WIRE_LENGTH,
};

verus! {

/// A message between nodes.
#[derive(Debug, Clone, PartialEq, Eq)]
pub enum Message {
    /// A ping.
    Ping,
    /// A request for the whole chain.
    ChainRequest,
    /// A request for the peers a node knows.
    PeerRequest,
    /// The peers a node knows.
    PeerResponse(Vec<Peer>),
    /// Who the sender is.
    Declaration(Peer),
    /// A transaction was received.
    TransactionAck,
    /// A block was received.
    BlockAck,
    /// A request for the block with this hash.
    BlockRequest(StdByteArray),
    /// A request for the block headers.
    ChainShardRequest,
    /// A request for a proof that a transaction is in a block.
    TransactionProofRequest(TransactionStub),
    /// A filter to register, and the peer to tell of matches.
    TransactionFilterRequest(TransactionFilter, Peer),
    /// A filter was registered.
    TransactionFilterAck,
    /// A filter matched a transaction of the block with this header.
    TransactionFilterResponse(TransactionFilter, BlockHeader),
    /// The leaves of the sender's chain, to be told what follows them.
    ChainSyncRequest(Vec<StdByteArray>),
    /// A request for the peers between two reputation percentiles, each as
    /// the bits of a 32-bit float.
    PercentileFilteredPeerRequest(u32, u32),
    /// The peers between the requested percentiles.
    PercentileFilteredPeerResponse(Vec<Peer>),
    /// A request for the receiver's own peer.
    DiscoveryRequest,
    /// The sender's own peer.
    DiscoveryResponse(Peer),
    /// A message with this code whose content is carried as its bytes.
    Carried(u8, Vec<u8>),
}

/// The codes of the messages whose content is carried as bytes: a chain, a
/// transaction, a block, an optional block, a shard, a proof of inclusion, a
/// list of chains, an error text.
pub open spec fn is_carried_code(c: u8) -> bool {
    c == 2 || c == 6 || c == 8 || c == 11 || c == 13 || c == 15 || c == 20 || c == 23
}

/// The code of a message.
pub open spec fn message_code(m: Message) -> u8 {
    match m {
        Message::Ping => 0,
        Message::ChainRequest => 1,
        Message::PeerRequest => 3,
        Message::PeerResponse(_) => 4,
        Message::Declaration(_) => 5,
        Message::TransactionAck => 7,
        Message::BlockAck => 9,
        Message::BlockRequest(_) => 10,
        Message::ChainShardRequest => 12,
        Message::TransactionProofRequest(_) => 14,
        Message::TransactionFilterRequest(_, _) => 16,
        Message::TransactionFilterAck => 17,
        Message::TransactionFilterResponse(_, _) => 18,
        Message::ChainSyncRequest(_) => 19,
        Message::PercentileFilteredPeerRequest(_, _) => 21,
        Message::PercentileFilteredPeerResponse(_) => 22,
        Message::DiscoveryRequest => 24,
        Message::DiscoveryResponse(_) => 25,
        Message::Carried(c, _) => c,
    }
}

/// A message that carries nothing after its code.
pub open spec fn is_bare(m: Message) -> bool {
    ||| m is Ping
    ||| m is ChainRequest
    ||| m is PeerRequest
    ||| m is TransactionAck
    ||| m is BlockAck
    ||| m is ChainShardRequest
    ||| m is TransactionFilterAck
    ||| m is DiscoveryRequest
}

/// A message that can be sent: one carried as bytes has the code of such a
/// message.
pub open spec fn is_sendable(m: Message) -> bool {
    m matches Message::Carried(c, _) ==> is_carried_code(c)
}

/// The wire bytes of what a message carries.
pub open spec fn payload_wire(m: Message) -> Seq<u8> {
    match m {
        Message::PeerResponse(v) => peers_wire(v@),
        Message::Declaration(p) => peer_wire(p),
        Message::BlockRequest(a) => a@,
        Message::TransactionProofRequest(s) => stub_wire(s),
        Message::TransactionFilterRequest(f, p) => spec_u32_to_le_bytes(FILTER_WIRE_LENGTH as u32) + filter_wire(f)
            + peer_wire(p),
        Message::TransactionFilterResponse(f, h) => spec_u32_to_le_bytes(FILTER_WIRE_LENGTH as u32) + filter_wire(f)
            + header_wire(h),
        Message::ChainSyncRequest(v) => arrays_wire(v@),
        Message::PercentileFilteredPeerRequest(lo, hi) => spec_u32_to_le_bytes(lo) + spec_u32_to_le_bytes(hi),
        Message::PercentileFilteredPeerResponse(v) => peers_wire(v@),
        Message::DiscoveryResponse(p) => peer_wire(p),
        Message::Carried(_, b) => b@,
        _ => Seq::empty(),
    }
}

/// The wire bytes of a message: its code, then what it carries.
pub open spec fn message_wire(m: Message) -> Seq<u8> {
    seq![message_code(m)] + payload_wire(m)
}

/// The filter that the 75 bytes `b` read as: a field is absent where its tag
/// byte is zero.
pub open spec fn reads_filter(b: Seq<u8>, f: TransactionFilter) -> bool {
    &&& option_view(f.sender) == read_option_array(b[0], b.subrange(1, 33))
    &&& option_view(f.receiver) == read_option_array(b[33], b.subrange(34, 66))
    &&& f.amount == if b[66] == 0 {
        None
    } else {
        Some(vstd::bytes::spec_u64_from_le_bytes(b.subrange(67, 75)))
    }
}

/// `data` reads as the message `m`: its first byte is the code of `m` and
/// the rest is what `m` carries. After the code of a message that carries
/// nothing, and after the two numbers of a percentile request, what follows
/// is ignored.
pub open spec fn reads_as(data: Seq<u8>, m: Message) -> bool {
    &&& data.len() >= 1
    &&& data[0] == message_code(m)
    &&& is_sendable(m)
    &&& if is_bare(m) {
        true
    } else {
        match m {
            Message::TransactionFilterRequest(f, p) => {
                &&& data.len() == 1 + 4 + FILTER_WIRE_LENGTH + PEER_WIRE_LENGTH
                &&& spec_u32_from_le_bytes(data.subrange(1, 5)) == FILTER_WIRE_LENGTH
                &&& reads_filter(data.subrange(5, 80), f)
                &&& peer_wire(p) == data.subrange(80, data.len() as int)
            },
            Message::TransactionFilterResponse(f, h) => {
                &&& data.len() == 1 + 4 + FILTER_WIRE_LENGTH + HEADER_WIRE_LENGTH
                &&& spec_u32_from_le_bytes(data.subrange(1, 5)) == FILTER_WIRE_LENGTH
                &&& reads_filter(data.subrange(5, 80), f)
                &&& header_wire(h) == data.subrange(80, data.len() as int)
            },
            Message::PercentileFilteredPeerRequest(lo, hi) => {
                &&& data.len() >= 9
                &&& lo == spec_u32_from_le_bytes(data.subrange(1, 5))
                &&& hi == spec_u32_from_le_bytes(data.subrange(5, 9))
            },
            _ => payload_wire(m) == data.subrange(1, data.len() as int),
        }
    }
}

/// Two messages are the same: the same variant with the same content, lists
/// and bytes compared by what they hold.
pub open spec fn same_message(a: Message, b: Message) -> bool {
    match (a, b) {
        (Message::PeerResponse(x), Message::PeerResponse(y)) => x@ == y@,
        (Message::PercentileFilteredPeerResponse(x), Message::PercentileFilteredPeerResponse(y)) => x@ == y@,
        (Message::ChainSyncRequest(x), Message::ChainSyncRequest(y)) => x@ == y@,
        (Message::Carried(c, x), Message::Carried(d, y)) => c == d && x@ == y@,
        _ => a == b,
    }
}

proof fn lemma_peers_wire_len(v: Seq<Peer>)
    ensures
        peers_wire(v).len() == PEER_WIRE_LENGTH * v.len(),
    decreases v.len(),
{
    if v.len() > 0 {
        lemma_peers_wire_len(v.drop_last());
        lemma_peer_wire_injective(v.last(), v.last());
    }
}

/// Lists of peers with the same wire bytes are equal.
proof fn lemma_peers_wire_injective(v1: Seq<Peer>, v2: Seq<Peer>)
    requires
        peers_wire(v1) == peers_wire(v2),
    ensures
        v1 == v2,
    decreases v1.len(),
{
    lemma_peers_wire_len(v1);
    lemma_peers_wire_len(v2);
    if v1.len() > 0 {
        let w = peers_wire(v1);
        let n = w.len() - PEER_WIRE_LENGTH;
        lemma_peers_wire_len(v1.drop_last());
        lemma_peers_wire_len(v2.drop_last());
        lemma_peer_wire_injective(v1.last(), v1.last());
        lemma_peer_wire_injective(v2.last(), v2.last());
        assert(w.subrange(0, n) =~= peers_wire(v1.drop_last()));
        assert(w.subrange(0, n) =~= peers_wire(v2.drop_last()));
        assert(w.subrange(n, w.len() as int) =~= peer_wire(v1.last()));
        assert(w.subrange(n, w.len() as int) =~= peer_wire(v2.last()));
        lemma_peers_wire_injective(v1.drop_last(), v2.drop_last());
        lemma_peer_wire_injective(v1.last(), v2.last());
        assert(v1 =~= v2.drop_last().push(v2.last()));
        assert(v2 =~= v2.drop_last().push(v2.last()));
    }
}

/// The wire bytes of a list of peers.
fn serialize_peers(v: &Vec<Peer>) -> (r: Vec<u8>)
    ensures
        r@ == peers_wire(v@),
{
    let mut out: Vec<u8> = Vec::new();
    let mut i: usize = 0;
    while i < v.len()
        invariant
            0 <= i <= v@.len(),
            out@ == peers_wire(v@.subrange(0, i as int)),
        decreases v@.len() - i,
    {
        assert(v@.subrange(0, i + 1).drop_last() =~= v@.subrange(0, i as int));
        match v[i].serialize_pillar() {
            Ok(b) => {
                extend_bytes(&mut out, b.as_slice());
            },
            Err(_) => {},
        }
        i = i + 1;
    }
    assert(v@.subrange(0, v@.len() as int) =~= v@);
    out
}

/// Reads a list of peers from their wire bytes, one after the other.
fn deserialize_peers(data: &[u8]) -> (r: Vec<Peer>)
    requires
        data@.len() % (PEER_WIRE_LENGTH as nat) == 0,
    ensures
        peers_wire(r@) == data@,
{
    let n = data.len() / 50;
    let mut out: Vec<Peer> = Vec::new();
    let mut i: usize = 0;
    while i < n
        invariant
            0 <= i <= n,
            n * 50 == data@.len(),
            n == data.len() / 50,
            PEER_WIRE_LENGTH == 50,
            peers_wire(out@) == data@.subrange(0, 50 * i),
        decreases n - i,
    {
        let chunk = slice_subrange(data, 50 * i, 50 * i + 50);
        match Peer::deserialize_pillar(chunk) {
            Ok(p) => {
                let ghost before = out@;
                out.push(p);
                proof {
                    assert(out@.drop_last() =~= before);
                    assert(data@.subrange(0, 50 * (i + 1)) =~= data@.subrange(0, 50 * i) + data@.subrange(
                        50 * i,
                        50 * i + 50,
                    ));
                }
            },
            Err(_) => {
                assert(false);
            },
        }
        i = i + 1;
    }
    assert(data@.subrange(0, 50 * n) =~= data@);
    out
}

/// The wire bytes of a message that can be sent.
pub fn serialize_message(m: &Message) -> (r: Vec<u8>)
    ensures
        r@ == message_wire(*m),
{
    let mut out: Vec<u8> = Vec::new();
    let code = m.code();
    out.push(code);
    let ghost head = out@;
    match m {
        Message::PeerResponse(v) | Message::PercentileFilteredPeerResponse(v) => {
            let b = serialize_peers(v);
            extend_bytes(&mut out, b.as_slice());
        },
        Message::Declaration(p) | Message::DiscoveryResponse(p) => {
            match p.serialize_pillar() {
                Ok(b) => extend_bytes(&mut out, b.as_slice()),
                Err(_) => {},
            }
        },
        Message::BlockRequest(a) => {
            extend_bytes(&mut out, a.as_slice());
        },
        Message::TransactionProofRequest(s) => {
            match s.serialize_pillar() {
                Ok(b) => extend_bytes(&mut out, b.as_slice()),
                Err(_) => {},
            }
        },
        Message::TransactionFilterRequest(f, p) => {
            let len = u32_to_le_bytes(FILTER_WIRE_LENGTH as u32);
            extend_bytes(&mut out, len.as_slice());
            match f.serialize_pillar() {
                Ok(b) => extend_bytes(&mut out, b.as_slice()),
                Err(_) => {},
            }
            match p.serialize_pillar() {
                Ok(b) => extend_bytes(&mut out, b.as_slice()),
                Err(_) => {},
            }
        },
        Message::TransactionFilterResponse(f, h) => {
            let len = u32_to_le_bytes(FILTER_WIRE_LENGTH as u32);
            extend_bytes(&mut out, len.as_slice());
            match f.serialize_pillar() {
                Ok(b) => extend_bytes(&mut out, b.as_slice()),
                Err(_) => {},
            }
            match h.serialize_pillar() {
                Ok(b) => extend_bytes(&mut out, b.as_slice()),
                Err(_) => {},
            }
        },
        Message::ChainSyncRequest(v) => {
            let b = serialize_arrays(v);
            extend_bytes(&mut out, b.as_slice());
        },
        Message::PercentileFilteredPeerRequest(lo, hi) => {
            let a = u32_to_le_bytes(*lo);
            let b = u32_to_le_bytes(*hi);
            extend_bytes(&mut out, a.as_slice());
            extend_bytes(&mut out, b.as_slice());
        },
        Message::Carried(_, b) => {
            extend_bytes(&mut out, b.as_slice());
        },
        _ => {},
    }
    assert(out@ =~= message_wire(*m));
    out
}

/// The wire bytes of a filter read as the filter.
proof fn lemma_reads_filter_wire(f: TransactionFilter)
    ensures
        reads_filter(filter_wire(f), f),
{
    vstd::bytes::lemma_auto_spec_u64_to_from_le_bytes();
    lemma_filter_wire_length(f);
    let w = filter_wire(f);
    let a = crate::wire::option_array_wire(f.sender);
    let b = crate::wire::option_array_wire(f.receiver);
    let c = crate::wire::option_u64_wire(f.amount);
    assert(a.len() == 33 && b.len() == 33 && c.len() == 9);
    assert(w.subrange(0, 33) =~= a);
    assert(w.subrange(33, 66) =~= b);
    assert(w.subrange(66, 75) =~= c);
    assert(w[0] == a[0] && w[33] == b[0] && w[66] == c[0]);
    assert(w.subrange(1, 33) =~= a.subrange(1, 33));
    assert(w.subrange(34, 66) =~= b.subrange(1, 33));
    assert(w.subrange(67, 75) =~= c.subrange(1, 9));
    match f.sender {
        Some(x) => {
            assert(a.subrange(1, 33) =~= x@);
        },
        None => {},
    }
    match f.receiver {
        Some(x) => {
            assert(b.subrange(1, 33) =~= x@);
        },
        None => {},
    }
    match f.amount {
        Some(x) => {
            assert(c.subrange(1, 9) =~= vstd::bytes::spec_u64_to_le_bytes(x));
        },
        None => {},
    }
}

/// What bytes that read as some message look like, by their code.
proof fn lemma_reads_as_shape(data: Seq<u8>, m: Message)
    requires
        reads_as(data, m),
    ensures
        data[0] <= 25,
        data[0] == 4 || data[0] == 22 ==> (data.len() - 1) % 50 == 0,
        data[0] == 5 || data[0] == 25 ==> data.len() == 1 + PEER_WIRE_LENGTH,
        data[0] == 10 ==> data.len() == 33,
        data[0] == 14 ==> data.len() == 1 + STUB_WIRE_LENGTH,
        data[0] == 16 ==> data.len() == 1 + 4 + FILTER_WIRE_LENGTH + PEER_WIRE_LENGTH && spec_u32_from_le_bytes(
            data.subrange(1, 5),
        ) == FILTER_WIRE_LENGTH,
        data[0] == 18 ==> data.len() == 1 + 4 + FILTER_WIRE_LENGTH + HEADER_WIRE_LENGTH && spec_u32_from_le_bytes(
            data.subrange(1, 5),
        ) == FILTER_WIRE_LENGTH,
        data[0] == 19 ==> (data.len() - 1) % 32 == 0,
        data[0] == 21 ==> data.len() >= 9,
{
    match m {
        Message::PeerResponse(v) => {
            lemma_peers_wire_len(v@);
            let k = v@.len();
            assert((50 * k) % 50 == 0) by (nonlinear_arith);
        },
        Message::PercentileFilteredPeerResponse(v) => {
            lemma_peers_wire_len(v@);
            let k = v@.len();
            assert((50 * k) % 50 == 0) by (nonlinear_arith);
        },
        Message::Declaration(p) => {
            lemma_peer_wire_injective(p, p);
        },
        Message::DiscoveryResponse(p) => {
            lemma_peer_wire_injective(p, p);
        },
        Message::BlockRequest(a) => {
            assert(a@.len() == 32);
        },
        Message::TransactionProofRequest(s) => {
            lemma_stub_wire_injective(s, s);
        },
        Message::ChainSyncRequest(v) => {
            lemma_arrays_wire_injective(v@, v@);
            let k = v@.len();
            assert((32 * k) % 32 == 0) by (nonlinear_arith);
        },
        _ => {},
    }
}

/// Decoding the wire bytes of a message that can be sent gives the message
/// back: the bytes read as the message, and as no other.
pub proof fn lemma_message_roundtrip(m: Message, d: Message)
    requires
        is_sendable(m),
    ensures
        reads_as(message_wire(m), m),
        reads_as(message_wire(m), d) ==> same_message(m, d),
{
    broadcast use vstd::array::axiom_array_ext_equal;
    lemma_auto_spec_u32_to_from_le_bytes();
    let w = message_wire(m);
    assert(w[0] == message_code(m));
    assert(w.subrange(1, w.len() as int) =~= payload_wire(m));
    match m {
        Message::TransactionFilterRequest(f, p) => {
            lemma_filter_wire_length(f);
            lemma_peer_wire_injective(p, p);
            lemma_reads_filter_wire(f);
            let l = spec_u32_to_le_bytes(FILTER_WIRE_LENGTH as u32);
            assert(w.subrange(1, 5) =~= l);
            assert(w.subrange(5, 80) =~= filter_wire(f));
            assert(w.subrange(80, w.len() as int) =~= peer_wire(p));
            if reads_as(w, d) {
                if let Message::TransactionFilterRequest(g, q) = d {
                    lemma_filter_roundtrip(f, g);
                    lemma_peer_wire_injective(p, q);
                }
            }
        },
        Message::TransactionFilterResponse(f, h) => {
            lemma_filter_wire_length(f);
            lemma_header_roundtrip(h, h);
            lemma_reads_filter_wire(f);
            let l = spec_u32_to_le_bytes(FILTER_WIRE_LENGTH as u32);
            assert(w.subrange(1, 5) =~= l);
            assert(w.subrange(5, 80) =~= filter_wire(f));
            assert(w.subrange(80, w.len() as int) =~= header_wire(h));
            if reads_as(w, d) {
                if let Message::TransactionFilterResponse(g, r) = d {
                    lemma_filter_roundtrip(f, g);
                    lemma_header_roundtrip(h, r);
                }
            }
        },
        Message::PercentileFilteredPeerRequest(lo, hi) => {
            assert(w.subrange(1, 5) =~= spec_u32_to_le_bytes(lo));
            assert(w.subrange(5, 9) =~= spec_u32_to_le_bytes(hi));
        },
        Message::PeerResponse(v) => {
            if reads_as(w, d) {
                if let Message::PeerResponse(x) = d {
                    lemma_peers_wire_injective(v@, x@);
                }
            }
        },
        Message::PercentileFilteredPeerResponse(v) => {
            if reads_as(w, d) {
                if let Message::PercentileFilteredPeerResponse(x) = d {
                    lemma_peers_wire_injective(v@, x@);
                }
            }
        },
        Message::ChainSyncRequest(v) => {
            if reads_as(w, d) {
                if let Message::ChainSyncRequest(x) = d {
                    lemma_arrays_wire_injective(v@, x@);
                }
            }
        },
        Message::Declaration(p) => {
            if reads_as(w, d) {
                if let Message::Declaration(q) = d {
                    lemma_peer_wire_injective(p, q);
                }
            }
        },
        Message::DiscoveryResponse(p) => {
            if reads_as(w, d) {
                if let Message::DiscoveryResponse(q) = d {
                    lemma_peer_wire_injective(p, q);
                }
            }
        },
        Message::TransactionProofRequest(s) => {
            if reads_as(w, d) {
                if let Message::TransactionProofRequest(t) = d {
                    lemma_stub_wire_injective(s, t);
                }
            }
        },
        Message::BlockRequest(a) => {
            if reads_as(w, d) {
                if let Message::BlockRequest(b) = d {
                    assert(a =~= b);
                }
            }
        },
        _ => {},
    }
}

/// The name of a message: its variant's name; for one carried as bytes, the
/// name of the message with its code.
pub open spec fn message_name(m: Message) -> Seq<char> {
    match m {
        Message::Ping => "Ping"@,
        Message::ChainRequest => "ChainRequest"@,
        Message::PeerRequest => "PeerRequest"@,
        Message::PeerResponse(_) => "PeerResponse"@,
        Message::Declaration(_) => "Declaration"@,
        Message::TransactionAck => "TransactionAck"@,
        Message::BlockAck => "BlockAck"@,
        Message::BlockRequest(_) => "BlockRequest"@,
        Message::ChainShardRequest => "ChainShardRequest"@,
        Message::TransactionProofRequest(_) => "TransactionProofRequest"@,
        Message::TransactionFilterRequest(_, _) => "TransactionFilterRequest"@,
        Message::TransactionFilterAck => "TransactionFilterAck"@,
        Message::TransactionFilterResponse(_, _) => "TransactionFilterResponse"@,
        Message::ChainSyncRequest(_) => "ChainSyncRequest"@,
        Message::PercentileFilteredPeerRequest(_, _) => "PercentileFilteredPeerRequest"@,
        Message::PercentileFilteredPeerResponse(_) => "PercentileFilteredPeerResponse"@,
        Message::DiscoveryRequest => "DiscoveryRequest"@,
        Message::DiscoveryResponse(_) => "DiscoveryResponse"@,
        Message::Carried(c, _) => match c {
            2 => "ChainResponse"@,
            6 => "TransactionBroadcast"@,
            8 => "BlockTransmission"@,
            11 => "BlockResponse"@,
            13 => "ChainShardResponse"@,
            15 => "TransactionProofResponse"@,
            20 => "ChainSyncResponse"@,
            23 => "Error"@,
            _ => "Carried"@,
        },
    }
}

impl Message {
    /// The code of the message.
    pub fn code(&self) -> (r: u8)
        ensures
            r == message_code(*self),
    {
        match self {
            Message::Ping => 0,
            Message::ChainRequest => 1,
            Message::PeerRequest => 3,
            Message::PeerResponse(_) => 4,
            Message::Declaration(_) => 5,
            Message::TransactionAck => 7,
            Message::BlockAck => 9,
            Message::BlockRequest(_) => 10,
            Message::ChainShardRequest => 12,
            Message::TransactionProofRequest(_) => 14,
            Message::TransactionFilterRequest(_, _) => 16,
            Message::TransactionFilterAck => 17,
            Message::TransactionFilterResponse(_, _) => 18,
            Message::ChainSyncRequest(_) => 19,
            Message::PercentileFilteredPeerRequest(_, _) => 21,
            Message::PercentileFilteredPeerResponse(_) => 22,
            Message::DiscoveryRequest => 24,
            Message::DiscoveryResponse(_) => 25,
            Message::Carried(c, _) => *c,
        }
    }

    /// The name of the message.
    pub fn name(&self) -> (r: String)
        ensures
            r@ == message_name(*self),
    {
        match self {
            Message::Ping => String::from_str("Ping"),
            Message::ChainRequest => String::from_str("ChainRequest"),
            Message::PeerRequest => String::from_str("PeerRequest"),
            Message::PeerResponse(_) => String::from_str("PeerResponse"),
            Message::Declaration(_) => String::from_str("Declaration"),
            Message::TransactionAck => String::from_str("TransactionAck"),
            Message::BlockAck => String::from_str("BlockAck"),
            Message::BlockRequest(_) => String::from_str("BlockRequest"),
            Message::ChainShardRequest => String::from_str("ChainShardRequest"),
            Message::TransactionProofRequest(_) => String::from_str("TransactionProofRequest"),
            Message::TransactionFilterRequest(_, _) => String::from_str("TransactionFilterRequest"),
            Message::TransactionFilterAck => String::from_str("TransactionFilterAck"),
            Message::TransactionFilterResponse(_, _) => String::from_str("TransactionFilterResponse"),
            Message::ChainSyncRequest(_) => String::from_str("ChainSyncRequest"),
            Message::PercentileFilteredPeerRequest(_, _) => String::from_str("PercentileFilteredPeerRequest"),
            Message::PercentileFilteredPeerResponse(_) => String::from_str("PercentileFilteredPeerResponse"),
            Message::DiscoveryRequest => String::from_str("DiscoveryRequest"),
            Message::DiscoveryResponse(_) => String::from_str("DiscoveryResponse"),
            Message::Carried(c, _) => match *c {
                2 => String::from_str("ChainResponse"),
                6 => String::from_str("TransactionBroadcast"),
                8 => String::from_str("BlockTransmission"),
                11 => String::from_str("BlockResponse"),
                13 => String::from_str("ChainShardResponse"),
                15 => String::from_str("TransactionProofResponse"),
                20 => String::from_str("ChainSyncResponse"),
                23 => String::from_str("Error"),
                _ => String::from_str("Carried"),
            },
        }
    }

    /// Whether a node should support encryption for the message: only for a
    /// ping.
    pub fn encryption_supported(&self) -> (r: bool)
        ensures
            r == (*self is Ping),
    {
        match self {
            Message::Ping => true,
            _ => false,
        }
    }
}

/// Copies a slice of bytes.
fn copy_bytes(data: &[u8]) -> (r: Vec<u8>)
    ensures
        r@ == data@,
{
    let mut out: Vec<u8> = Vec::new();
    extend_bytes(&mut out, data);
    assert(out@ =~= data@);
    out
}

/// Reads a message: `Ok` exactly when the bytes read as some message, and
/// then they read as the message returned. Empty bytes are too short, a code
/// above 25 is unknown, and other bytes are malformed.
pub fn deserialize_message(data: &[u8]) -> (r: Result<Message, WireError>)
    ensures
        r is Ok <==> exists|m: Message| reads_as(data@, m),
        r matches Ok(m) ==> reads_as(data@, m),
        r matches Err(e) ==> (e is InsufficientData <==> data@.len() == 0),
        r matches Err(e) ==> (e is UnknownCode <==> data@.len() > 0 && data@[0] > 25),
{
    if data.len() == 0 {
        return Err(WireError::InsufficientData);
    }
    let code = data[0];
    let rest = slice_subrange(data, 1, data.len());
    let len = rest.len();
    assert(rest@ =~= data@.subrange(1, data@.len() as int));
    let r: Result<Message, WireError> = match code {
        0 => Ok(Message::Ping),
        1 => Ok(Message::ChainRequest),
        3 => Ok(Message::PeerRequest),
        7 => Ok(Message::TransactionAck),
        9 => Ok(Message::BlockAck),
        12 => Ok(Message::ChainShardRequest),
        17 => Ok(Message::TransactionFilterAck),
        24 => Ok(Message::DiscoveryRequest),
        2 | 6 | 8 | 11 | 13 | 15 | 20 | 23 => Ok(Message::Carried(code, copy_bytes(rest))),
        4 | 22 => {
            if len % 50 != 0 {
                Err(WireError::Malformed)
            } else {
                let v = deserialize_peers(rest);
                if code == 4 {
                    Ok(Message::PeerResponse(v))
                } else {
                    Ok(Message::PercentileFilteredPeerResponse(v))
                }
            }
        },
        5 | 25 => {
            if len != PEER_WIRE_LENGTH {
                Err(WireError::Malformed)
            } else {
                match Peer::deserialize_pillar(rest) {
                    Ok(p) => {
                        if code == 5 {
                            Ok(Message::Declaration(p))
                        } else {
                            Ok(Message::DiscoveryResponse(p))
                        }
                    },
                    Err(e) => Err(WireError::Malformed),
                }
            }
        },
        10 => {
            if len != 32 {
                Err(WireError::Malformed)
            } else {
                assert(rest@.subrange(0, 32) =~= rest@);
                Ok(Message::BlockRequest(read_array32(rest, 0)))
            }
        },
        14 => {
            if len != STUB_WIRE_LENGTH {
                Err(WireError::Malformed)
            } else {
                match TransactionStub::deserialize_pillar(rest) {
                    Ok(s) => Ok(Message::TransactionProofRequest(s)),
                    Err(e) => Err(WireError::Malformed),
                }
            }
        },
        16 | 18 => {
            let tail_len: usize = if code == 16 {
                PEER_WIRE_LENGTH
            } else {
                HEADER_WIRE_LENGTH
            };
            if len != 4 + FILTER_WIRE_LENGTH + tail_len {
                Err(WireError::Malformed)
            } else {
                let filter_len = u32_from_le_bytes(slice_subrange(rest, 0, 4));
                if filter_len != FILTER_WIRE_LENGTH as u32 {
                    Err(WireError::Malformed)
                } else {
                    let fbytes = slice_subrange(rest, 4, 4 + FILTER_WIRE_LENGTH);
                    let tbytes = slice_subrange(rest, 4 + FILTER_WIRE_LENGTH, len);
                    match TransactionFilter::deserialize_pillar(fbytes) {
                        Ok(f) => {
                            if code == 16 {
                                match Peer::deserialize_pillar(tbytes) {
                                    Ok(p) => Ok(Message::TransactionFilterRequest(f, p)),
                                    Err(e) => Err(WireError::Malformed),
                                }
                            } else {
                                match BlockHeader::deserialize_pillar(tbytes) {
                                    Ok(h) => Ok(Message::TransactionFilterResponse(f, h)),
                                    Err(e) => Err(WireError::Malformed),
                                }
                            }
                        },
                        Err(e) => Err(WireError::Malformed),
                    }
                }
            }
        },
        19 => {
            if len % 32 != 0 {
                Err(WireError::Malformed)
            } else {
                Ok(Message::ChainSyncRequest(deserialize_arrays(rest)))
            }
        },
        21 => {
            if len < 8 {
                Err(WireError::Malformed)
            } else {
                let lo = u32_from_le_bytes(slice_subrange(rest, 0, 4));
                let hi = u32_from_le_bytes(slice_subrange(rest, 4, 8));
                Ok(Message::PercentileFilteredPeerRequest(lo, hi))
            }
        },
        _ => Err(WireError::UnknownCode),
    };
    proof {
        if len >= 8 {
            assert(data@.subrange(1, 5) =~= rest@.subrange(0, 4));
            assert(data@.subrange(5, 9) =~= rest@.subrange(4, 8));
        }
        if len >= 79 {
            assert(data@.subrange(5, 80) =~= rest@.subrange(4, 79));
            assert(data@.subrange(80, data@.len() as int) =~= rest@.subrange(79, len as int));
        }
        if r is Err {
            if exists|m: Message| reads_as(data@, m) {
                let m = choose|m: Message| reads_as(data@, m);
                lemma_reads_as_shape(data@, m);
            }
        }
        assert(r matches Ok(m) ==> reads_as(data@, m));
    }
    r
}

} // verus!

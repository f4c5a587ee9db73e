//! How a node answers a request from a peer: which reply it sends and what
//! it does besides (pool, broadcast, settle, stamp), given its operational
//! state. The node around it looks up what the reply carries (peers, the
//! chain, a block, a proof) and performs the actions.

use vstd::prelude::*;

use crate::node_state::NodeState;
use crate::N_TRANSMISSION_SIGNATURES;

verus! {

/// A request from a peer, with what the decision needs to know of its
/// payload.
#[derive(Debug, Clone, Copy, PartialEq, Eq)]
pub enum Request {
    /// Asks for the node's peers.
    Peers,
    /// Asks for the whole chain.
    Chain,
    /// Hands over a transaction.
    TransactionBroadcast,
    /// Hands over a block: whether it is mined, and how many stamps it holds.
    BlockTransmission { mined: bool, n_stamps: usize },
    /// Asks for one block.
    Block,
    /// Asks for the chain's headers.
    ChainShard,
    /// Asks for the proof of a transaction; whether the node has the block
    /// the request names.
    TransactionProof { block_known: bool },
    /// Registers a transaction filter; whether the node already holds the
    /// same filter for the same peer.
    TransactionFilter { already_registered: bool },
    /// Reports a hit on a filter that this node registered.
    TransactionFilterResponse,
    /// Asks for the peers between two reputation percentiles.
    PercentileFilteredPeers,
    /// Asks for the blocks after the given leaves.
    ChainSync,
    /// Asks who the node is.
    Discovery,
    /// A message that is not a request.
    Other,
}

/// The reply to a request.
#[derive(Debug, Clone, Copy, PartialEq, Eq)]
pub enum Reply {
    /// The node's peers.
    Peers,
    /// The chain.
    Chain,
    /// The error "Chain not downloaded for peer".
    ChainNotDownloaded,
    TransactionAck,
    BlockAck,
    /// The block asked for (or none, if the chain lacks it).
    Block,
    /// The chain's headers.
    ChainShard,
    /// The proof of the transaction asked for.
    TransactionProof,
    /// The error "Block does not exist".
    BlockDoesNotExist,
    TransactionFilterAck,
    /// The peers between the two percentiles.
    PercentileFilteredPeers,
    /// No peers: the node's information is not up to date.
    NoPercentileFilteredPeers,
    /// The blocks after the given leaves.
    ChainSync,
    /// No blocks: the node has no chain to sync from.
    NoChainSync,
    /// The node itself as a peer.
    Discovery,
    /// The error "Expected a request".
    NotARequest,
}

/// What the node does besides replying.
#[derive(Debug, Clone, Copy, PartialEq, Eq)]
pub enum Action {
    /// Add the transaction to the miner's pool.
    AddToMinerPool,
    /// Broadcast the message on to the peers.
    Broadcast,
    /// Settle an unmined block: stamp it and, when ready, hand it to the miner.
    SettleUnmined,
    /// Queue a mined block for settling into the chain.
    LateSettle,
    /// Match the block against the registered transaction filters.
    HandleCallbacks,
    /// Stamp the block before forwarding it.
    StampBlock,
    /// Keep the filter, to answer it when a block matches.
    RegisterFilter,
    /// Hand the reported header to the callback that waits for it.
    DeliverFilterResponse,
}

/// The reply to `req` from a node in state `state`.
pub open spec fn reply_for(state: NodeState, req: Request) -> Reply {
    let consume = state is Serving;
    match req {
        Request::Peers => Reply::Peers,
        Request::Chain => if consume {
            Reply::Chain
        } else {
            Reply::ChainNotDownloaded
        },
        Request::TransactionBroadcast => Reply::TransactionAck,
        Request::BlockTransmission { .. } => Reply::BlockAck,
        Request::Block => if consume {
            Reply::Block
        } else {
            Reply::ChainNotDownloaded
        },
        Request::ChainShard => if consume {
            Reply::ChainShard
        } else {
            Reply::ChainNotDownloaded
        },
        Request::TransactionProof { block_known } => if !consume {
            Reply::ChainNotDownloaded
        } else if block_known {
            Reply::TransactionProof
        } else {
            Reply::BlockDoesNotExist
        },
        Request::TransactionFilter { .. } => Reply::TransactionFilterAck,
        Request::TransactionFilterResponse => Reply::TransactionFilterAck,
        Request::PercentileFilteredPeers => if consume {
            Reply::PercentileFilteredPeers
        } else {
            Reply::NoPercentileFilteredPeers
        },
        Request::ChainSync => if consume {
            Reply::ChainSync
        } else {
            Reply::NoChainSync
        },
        Request::Discovery => Reply::Discovery,
        Request::Other => Reply::NotARequest,
    }
}

/// The action `a` when `cond` holds, nothing otherwise.
pub open spec fn when(cond: bool, a: Action) -> Seq<Action> {
    if cond {
        seq![a]
    } else {
        Seq::empty()
    }
}

/// What a node in state `state`, with a miner's pool or not, does on `req`,
/// in order.
///
/// - A transaction goes to the pool when the node mines and consumes data,
///   and is broadcast on when the node forwards.
/// - An unmined block is settled by a consuming node; a mined one is queued
///   for settling (and matched against the filters) by a node that tracks or
///   consumes; a forwarding node passes the block on, stamping it first when
///   it is unmined, has room for a stamp and the node does not consume.
/// - A filter that is not yet registered is registered and broadcast on.
/// - A filter hit is delivered by a tracking node.
pub open spec fn actions_for(state: NodeState, has_miner_pool: bool, req: Request) -> Seq<Action> {
    let consume = state is Serving;
    let track = !(state is Serving);
    match req {
        Request::TransactionBroadcast => when(has_miner_pool && consume, Action::AddToMinerPool) + seq![
            Action::Broadcast,
        ],
        Request::BlockTransmission { mined, n_stamps } => when(consume && !mined, Action::SettleUnmined) + (if (
        track || consume) && mined {
            seq![Action::LateSettle, Action::HandleCallbacks]
        } else {
            Seq::empty()
        }) + when(n_stamps < N_TRANSMISSION_SIGNATURES && !consume && !mined, Action::StampBlock) + seq![
            Action::Broadcast,
        ],
        Request::TransactionFilter { already_registered } => if already_registered {
            Seq::empty()
        } else {
            seq![Action::Broadcast, Action::RegisterFilter]
        },
        Request::TransactionFilterResponse => when(track, Action::DeliverFilterResponse),
        _ => Seq::empty(),
    }
}

/// Decides how a node in state `state` answers `req`: the reply, and the
/// actions to perform, in order. A node without the chain answers the
/// requests for the chain, a block, the headers and a proof with the error
/// that the chain is not downloaded.
pub fn serve_step(state: NodeState, has_miner_pool: bool, req: &Request) -> (r: (Reply, Vec<Action>))
    ensures
        r.0 == reply_for(state, *req),
        r.1@ == actions_for(state, has_miner_pool, *req),
{
    let consume = state.is_consume();
    let track = state.is_track();
    let forward = state.is_forward();
    let mut actions: Vec<Action> = Vec::new();
    let reply = match *req {
        Request::Peers => Reply::Peers,
        Request::Chain => if consume {
            Reply::Chain
        } else {
            Reply::ChainNotDownloaded
        },
        Request::TransactionBroadcast => {
            if has_miner_pool && consume {
                actions.push(Action::AddToMinerPool);
            }
            if forward {
                actions.push(Action::Broadcast);
            }
            Reply::TransactionAck
        },
        Request::BlockTransmission { mined, n_stamps } => {
            if consume && !mined {
                actions.push(Action::SettleUnmined);
            }
            if (track || consume) && mined {
                actions.push(Action::LateSettle);
                actions.push(Action::HandleCallbacks);
            }
            if forward {
                if n_stamps < N_TRANSMISSION_SIGNATURES && !consume && !mined {
                    actions.push(Action::StampBlock);
                }
                actions.push(Action::Broadcast);
            }
            Reply::BlockAck
        },
        Request::Block => if consume {
            Reply::Block
        } else {
            Reply::ChainNotDownloaded
        },
        Request::ChainShard => if consume {
            Reply::ChainShard
        } else {
            Reply::ChainNotDownloaded
        },
        Request::TransactionProof { block_known } => if !consume {
            Reply::ChainNotDownloaded
        } else if block_known {
            Reply::TransactionProof
        } else {
            Reply::BlockDoesNotExist
        },
        Request::TransactionFilter { already_registered } => {
            if !already_registered {
                actions.push(Action::Broadcast);
                actions.push(Action::RegisterFilter);
            }
            Reply::TransactionFilterAck
        },
        Request::TransactionFilterResponse => {
            if track {
                actions.push(Action::DeliverFilterResponse);
            }
            Reply::TransactionFilterAck
        },
        Request::PercentileFilteredPeers => if consume {
            Reply::PercentileFilteredPeers
        } else {
            Reply::NoPercentileFilteredPeers
        },
        Request::ChainSync => if consume {
            Reply::ChainSync
        } else {
            Reply::NoChainSync
        },
        Request::Discovery => Reply::Discovery,
        Request::Other => Reply::NotARequest,
    };
    proof {
        assert(actions@ =~= actions_for(state, has_miner_pool, *req));
    }
    (reply, actions)
}

/// Every node acknowledges a block, and a mined block is queued for
/// settling, then matched against the filters' callbacks, then passed on: a
/// node that consumes data and one that only tracks it alike. A mined block
/// is neither settled as unmined nor stamped.
pub proof fn lemma_mined_block_settled(state: NodeState, has_miner_pool: bool, n_stamps: usize)
    ensures
        reply_for(state, Request::BlockTransmission { mined: true, n_stamps }) == Reply::BlockAck,
        actions_for(state, has_miner_pool, Request::BlockTransmission { mined: true, n_stamps }) == seq![
            Action::LateSettle,
            Action::HandleCallbacks,
            Action::Broadcast,
        ],
{
    assert(actions_for(state, has_miner_pool, Request::BlockTransmission { mined: true, n_stamps }) =~= seq![
        Action::LateSettle,
        Action::HandleCallbacks,
        Action::Broadcast,
    ]);
}

/// An unmined block is settled at once by a serving node and passed on; a
/// node that is not serving stamps it first when its tail has room, and
/// otherwise passes it on as it is. It is never queued for late settling.
pub proof fn lemma_unmined_block(state: NodeState, has_miner_pool: bool, n_stamps: usize)
    ensures
        reply_for(state, Request::BlockTransmission { mined: false, n_stamps }) == Reply::BlockAck,
        state is Serving ==> actions_for(state, has_miner_pool, Request::BlockTransmission { mined: false, n_stamps })
            == seq![Action::SettleUnmined, Action::Broadcast],
        !(state is Serving) && n_stamps < N_TRANSMISSION_SIGNATURES ==> actions_for(
            state,
            has_miner_pool,
            Request::BlockTransmission { mined: false, n_stamps },
        ) == seq![Action::StampBlock, Action::Broadcast],
        !(state is Serving) && n_stamps >= N_TRANSMISSION_SIGNATURES ==> actions_for(
            state,
            has_miner_pool,
            Request::BlockTransmission { mined: false, n_stamps },
        ) == seq![Action::Broadcast],
{
    let a = actions_for(state, has_miner_pool, Request::BlockTransmission { mined: false, n_stamps });
    if state is Serving {
        assert(a =~= seq![Action::SettleUnmined, Action::Broadcast]);
    } else if n_stamps < N_TRANSMISSION_SIGNATURES {
        assert(a =~= seq![Action::StampBlock, Action::Broadcast]);
    } else {
        assert(a =~= seq![Action::Broadcast]);
    }
}

/// A transaction is acknowledged and passed on, and goes to the miner's pool
/// exactly when the node has one and is serving.
pub proof fn lemma_transaction_broadcast(state: NodeState, has_miner_pool: bool)
    ensures
        reply_for(state, Request::TransactionBroadcast) == Reply::TransactionAck,
        has_miner_pool && state is Serving ==> actions_for(state, has_miner_pool, Request::TransactionBroadcast)
            == seq![Action::AddToMinerPool, Action::Broadcast],
        !(has_miner_pool && state is Serving) ==> actions_for(state, has_miner_pool, Request::TransactionBroadcast)
            == seq![Action::Broadcast],
{
    let a = actions_for(state, has_miner_pool, Request::TransactionBroadcast);
    if has_miner_pool && state is Serving {
        assert(a =~= seq![Action::AddToMinerPool, Action::Broadcast]);
    } else {
        assert(a =~= seq![Action::Broadcast]);
    }
}

/// A filter is acknowledged, and registered and passed on only when it is
/// not registered yet; a filter hit is acknowledged and delivered by a node
/// that is not serving.
pub proof fn lemma_filters(state: NodeState, has_miner_pool: bool, already_registered: bool)
    ensures
        reply_for(state, Request::TransactionFilter { already_registered }) == Reply::TransactionFilterAck,
        already_registered ==> actions_for(state, has_miner_pool, Request::TransactionFilter { already_registered })
            == Seq::<Action>::empty(),
        !already_registered ==> actions_for(state, has_miner_pool, Request::TransactionFilter { already_registered })
            == seq![Action::Broadcast, Action::RegisterFilter],
        reply_for(state, Request::TransactionFilterResponse) == Reply::TransactionFilterAck,
        actions_for(state, has_miner_pool, Request::TransactionFilterResponse) == if state is Serving {
            Seq::<Action>::empty()
        } else {
            seq![Action::DeliverFilterResponse]
        },
{
    let a = actions_for(state, has_miner_pool, Request::TransactionFilterResponse);
    if state is Serving {
        assert(a =~= Seq::<Action>::empty());
    } else {
        assert(a =~= seq![Action::DeliverFilterResponse]);
    }
}

/// A node that is not serving has no chain to give: it answers every request
/// for the chain, a block, the headers or a proof with that error, and has
/// no peers by reputation and nothing to sync. A serving node answers them.
/// None of these requests, nor peers, discovery or anything else, leads to
/// an action.
pub proof fn lemma_chain_requests(state: NodeState, has_miner_pool: bool, block_known: bool)
    ensures
        !(state is Serving) ==> {
            &&& reply_for(state, Request::Chain) == Reply::ChainNotDownloaded
            &&& reply_for(state, Request::Block) == Reply::ChainNotDownloaded
            &&& reply_for(state, Request::ChainShard) == Reply::ChainNotDownloaded
            &&& reply_for(state, Request::TransactionProof { block_known }) == Reply::ChainNotDownloaded
            &&& reply_for(state, Request::PercentileFilteredPeers) == Reply::NoPercentileFilteredPeers
            &&& reply_for(state, Request::ChainSync) == Reply::NoChainSync
        },
        state is Serving ==> {
            &&& reply_for(state, Request::Chain) == Reply::Chain
            &&& reply_for(state, Request::Block) == Reply::Block
            &&& reply_for(state, Request::ChainShard) == Reply::ChainShard
            &&& reply_for(state, Request::TransactionProof { block_known }) == if block_known {
                Reply::TransactionProof
            } else {
                Reply::BlockDoesNotExist
            }
            &&& reply_for(state, Request::PercentileFilteredPeers) == Reply::PercentileFilteredPeers
            &&& reply_for(state, Request::ChainSync) == Reply::ChainSync
        },
        reply_for(state, Request::Peers) == Reply::Peers,
        reply_for(state, Request::Discovery) == Reply::Discovery,
        reply_for(state, Request::Other) == Reply::NotARequest,
        actions_for(state, has_miner_pool, Request::Chain) == Seq::<Action>::empty(),
        actions_for(state, has_miner_pool, Request::Block) == Seq::<Action>::empty(),
        actions_for(state, has_miner_pool, Request::ChainShard) == Seq::<Action>::empty(),
        actions_for(state, has_miner_pool, Request::TransactionProof { block_known }) == Seq::<Action>::empty(),
        actions_for(state, has_miner_pool, Request::PercentileFilteredPeers) == Seq::<Action>::empty(),
        actions_for(state, has_miner_pool, Request::ChainSync) == Seq::<Action>::empty(),
        actions_for(state, has_miner_pool, Request::Peers) == Seq::<Action>::empty(),
        actions_for(state, has_miner_pool, Request::Discovery) == Seq::<Action>::empty(),
        actions_for(state, has_miner_pool, Request::Other) == Seq::<Action>::empty(),
{
}

} // verus!

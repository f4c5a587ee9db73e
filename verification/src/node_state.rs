//! The operational state of a node, which decides how it treats incoming
//! blocks and transactions.

use vstd::prelude::*;

verus! {

/// Operational state of a node.
#[derive(Debug, Clone, Copy, PartialEq, Eq, Hash)]
pub enum NodeState {
    /// Initial chain discovery.
    ICD,
    /// The chain is known to be behind.
    ChainOutdated,
    /// The chain is being loaded.
    ChainLoading,
    /// The chain is being synced with peers.
    ChainSyncing,
    /// The node serves requests and consumes data.
    Serving,
}

impl NodeState {
    /// Whether the node tracks incoming blocks and transactions: they are
    /// queued and applied once the chain is ready. True in every state but
    /// `Serving`.
    pub fn is_track(&self) -> (r: bool)
        ensures
            r == !(*self is Serving),
    {
        match self {
            NodeState::ICD | NodeState::ChainSyncing | NodeState::ChainLoading | NodeState::ChainOutdated => true,
            NodeState::Serving => false,
        }
    }

    /// Whether the node forwards incoming blocks and transactions: true in
    /// every state.
    pub fn is_forward(&self) -> (r: bool)
        ensures
            r,
    {
        match self {
            NodeState::ICD | NodeState::ChainOutdated | NodeState::ChainLoading | NodeState::ChainSyncing
            | NodeState::Serving => true,
        }
    }

    /// Whether the node consumes data immediately and updates its state,
    /// draining any pending queue: only when `Serving`.
    pub fn is_consume(&self) -> (r: bool)
        ensures
            r == (*self is Serving),
    {
        match self {
            NodeState::Serving => true,
            _ => false,
        }
    }
}

} // verus!

use pillar_core::node_state::NodeState;
use pillar_core::pow::abort_requested;
use pillar_core::serve::{serve_step, Action, Reply, Request};

#[test]
fn node_without_chain_refuses_chain_requests() {
    for req in [Request::Chain, Request::Block, Request::ChainShard, Request::TransactionProof { block_known: true }] {
        let (reply, actions) = serve_step(NodeState::ICD, false, &req);
        assert_eq!(reply, Reply::ChainNotDownloaded);
        assert!(actions.is_empty());
    }
    assert_eq!(serve_step(NodeState::ChainSyncing, false, &Request::ChainSync).0, Reply::NoChainSync);
    assert_eq!(serve_step(NodeState::ChainLoading, false, &Request::PercentileFilteredPeers).0, Reply::NoPercentileFilteredPeers);
}

#[test]
fn serving_node_answers_chain_requests() {
    assert_eq!(serve_step(NodeState::Serving, false, &Request::Chain).0, Reply::Chain);
    assert_eq!(serve_step(NodeState::Serving, false, &Request::TransactionProof { block_known: false }).0, Reply::BlockDoesNotExist);
    assert_eq!(serve_step(NodeState::Serving, false, &Request::TransactionProof { block_known: true }).0, Reply::TransactionProof);
    assert_eq!(serve_step(NodeState::Serving, false, &Request::Other).0, Reply::NotARequest);
}

#[test]
fn transactions_and_blocks_are_pooled_settled_and_forwarded() {
    let (reply, actions) = serve_step(NodeState::Serving, true, &Request::TransactionBroadcast);
    assert_eq!(reply, Reply::TransactionAck);
    assert_eq!(actions, vec![Action::AddToMinerPool, Action::Broadcast]);
    let (_, actions) = serve_step(NodeState::ICD, true, &Request::TransactionBroadcast);
    assert_eq!(actions, vec![Action::Broadcast]);
    let (reply, actions) = serve_step(NodeState::Serving, false, &Request::BlockTransmission { mined: false, n_stamps: 2 });
    assert_eq!(reply, Reply::BlockAck);
    assert_eq!(actions, vec![Action::SettleUnmined, Action::Broadcast]);
    let (_, actions) = serve_step(NodeState::ICD, false, &Request::BlockTransmission { mined: false, n_stamps: 2 });
    assert_eq!(actions, vec![Action::StampBlock, Action::Broadcast]);
    let (_, actions) = serve_step(NodeState::ICD, false, &Request::BlockTransmission { mined: true, n_stamps: 2 });
    assert_eq!(actions, vec![Action::LateSettle, Action::HandleCallbacks, Action::Broadcast]);
}

#[test]
fn filters_are_registered_once() {
    let (reply, actions) = serve_step(NodeState::Serving, false, &Request::TransactionFilter { already_registered: false });
    assert_eq!(reply, Reply::TransactionFilterAck);
    assert_eq!(actions, vec![Action::Broadcast, Action::RegisterFilter]);
    assert!(serve_step(NodeState::Serving, false, &Request::TransactionFilter { already_registered: true }).1.is_empty());
    assert_eq!(serve_step(NodeState::ICD, false, &Request::TransactionFilterResponse).1, vec![Action::DeliverFilterResponse]);
    assert!(serve_step(NodeState::Serving, false, &Request::TransactionFilterResponse).1.is_empty());
}

#[test]
fn mining_aborts_only_on_its_own_depth() {
    assert!(abort_requested(Some(7), 7));
    assert!(!abort_requested(Some(6), 7));
    assert!(!abort_requested(None, 7));
}

use cargosos_node::block::Block;
use cargosos_node::block_chain::{BlockChain, ErrorBlockChain};
use cargosos_node::block_header::BlockHeader;
use cargosos_node::block_version::BlockVersion;
use cargosos_node::compact256::Compact256;
use cargosos_node::compact_size::CompactSize;
use cargosos_node::message_manager::{Account, CoordinatorAction, MessageBroadcasting, MessageManager};
use cargosos_node::message_to_peer::{MessageBroadcast, Work};
use cargosos_node::command_name::CommandName;
use cargosos_node::peer_manager::{peer_action, peer_event, PeerAction};
use cargosos_node::serialization::SerializableInternalOrder;
use cargosos_node::shutdown::{ErrorProcess, Shutdown, ShutdownStep, StepOutcome};
use cargosos_node::transaction::{Transaction, TransactionInput, TransactionOutput};
use cargosos_node::utxo_set::{UTXOSet, Utxo};

fn run_plan(k: usize) -> Vec<ShutdownStep> {
    let mut plan = Shutdown::new(k);
    let mut steps = vec![plan.step];
    while plan.step != ShutdownStep::Done {
        plan = plan.next(StepOutcome::Succeeded).ok().expect("step");
        steps.push(plan.step);
    }
    steps
}

#[test]
fn shutdown_order_for_zero_one_and_three_peers() {
    assert_eq!(
        run_plan(0),
        vec![ShutdownStep::SendExitToCoordinator, ShutdownStep::JoinCoordinator, ShutdownStep::Done]
    );
    assert_eq!(
        run_plan(1),
        vec![
            ShutdownStep::SendExitToPeer(0),
            ShutdownStep::JoinPeer(0),
            ShutdownStep::SendExitToCoordinator,
            ShutdownStep::JoinCoordinator,
            ShutdownStep::Done
        ]
    );
    let three = run_plan(3);
    assert_eq!(three.len(), 9);
    for i in 0..3 {
        assert_eq!(three.iter().filter(|s| **s == ShutdownStep::SendExitToPeer(i)).count(), 1);
        assert_eq!(three[i], ShutdownStep::SendExitToPeer(i));
        assert_eq!(three[3 + i], ShutdownStep::JoinPeer(i));
    }
    assert_eq!(three[6], ShutdownStep::SendExitToCoordinator);
}

#[test]
fn shutdown_failures_surface() {
    let plan = Shutdown::new(2);
    assert_eq!(plan.next(StepOutcome::ChannelClosed), Err(ErrorProcess::CannotSendExit));
    assert_eq!(plan.next(StepOutcome::ThreadFailed), Err(ErrorProcess::ThreadPanicked));
    assert_eq!(plan.next(StepOutcome::StreamFailed), Err(ErrorProcess::StreamError));
    let done = Shutdown { peer_count: 0, step: ShutdownStep::Done };
    assert_eq!(done.next(StepOutcome::Succeeded), Err(ErrorProcess::StepAfterDone));
}

fn coinbase(seed: u8) -> Transaction {
    Transaction {
        version: 1,
        inputs: vec![],
        outputs: vec![
            TransactionOutput { value: 50, pk_script: vec![seed] },
            TransactionOutput { value: 25, pk_script: vec![seed, seed] },
        ],
        time_lock: 0,
    }
}

fn encode<T: SerializableInternalOrder>(v: &T) -> Vec<u8> {
    let mut out = Vec::new();
    v.io_serialize(&mut out);
    out
}

#[test]
fn utxo_set_spends_and_creates() {
    let mut set = UTXOSet::new();
    let first = coinbase(1);
    set.update_with_transaction(&first);
    assert_eq!(set.utxos.len(), 2);
    let mut id = first.get_tx_id();
    id.reverse();
    assert_eq!(set.utxos[0].tx_id, id);
    assert_eq!(set.utxos[1].index, 1);
    assert_eq!(set.utxos[1].value, 25);

    let spend = Transaction {
        version: 1,
        inputs: vec![TransactionInput { previous_hash: id, previous_index: 0, signature_script: vec![], sequence: 0 }],
        outputs: vec![TransactionOutput { value: 49, pk_script: vec![9] }],
        time_lock: 0,
    };
    set.update_with_transaction(&spend);
    let left: Vec<(u32, i64)> = set.utxos.iter().map(|u: &Utxo| (u.index, u.value)).collect();
    assert_eq!(left, vec![(1, 25), (0, 49)]);
}

fn chain() -> BlockChain {
    BlockChain::new(Block::new(BlockHeader::generate_genesis_block_header()))
}

#[test]
fn block_chain_refuses_unlinked_and_invalid_blocks() {
    let mut c = chain();
    assert!(c.is_linked());
    assert_eq!(c.best_height(), 0);
    let unlinked = Block::new(BlockHeader::new(
        BlockVersion::version(1),
        [1u8; 32],
        [0u8; 32],
        0,
        Compact256::from_bits(0x1d00ffff),
        0,
        CompactSize::new(0),
    ));
    assert_eq!(c.append_block(unlinked), Err(ErrorBlockChain::NotLinkedToTip));
    let tip = c.latest().header.get_hash256d().ok().expect("hash");
    let linked = Block::new(BlockHeader::new(
        BlockVersion::version(1),
        tip,
        [0u8; 32],
        0,
        Compact256::from_bits(0x1d00ffff),
        0,
        CompactSize::new(0),
    ));
    // With an arbitrary nonce the hash is far above this target.
    assert_eq!(c.append_block(linked), Err(ErrorBlockChain::InvalidProofOfWork));
    let easy = Block::new(BlockHeader::new(
        BlockVersion::version(1),
        tip,
        [0u8; 32],
        0,
        Compact256::from_bits(0x2200ffff),
        0,
        CompactSize::new(0),
    ));
    // Any hash is below this target, but no tree can be built over no transactions.
    assert_eq!(c.append_block(easy), Err(ErrorBlockChain::InvalidProofOfInclusion));
    assert_eq!(c.blocks.len(), 1);
}

#[test]
fn block_chain_accepts_valid_block() {
    let mut c = chain();
    let tip = c.latest().header.get_hash256d().ok().expect("hash");
    let tx = coinbase(7);
    let root = tx.get_tx_id();
    let mut block = Block::new(BlockHeader::new(
        BlockVersion::version(1),
        tip,
        root,
        0,
        Compact256::from_bits(0x2200ffff),
        0,
        CompactSize::new(1),
    ));
    assert!(block.append_transaccion(tx).is_ok());
    assert_eq!(c.append_block(block), Ok(()));
    assert_eq!(c.best_height(), 1);
    assert!(c.is_linked());
}

#[test]
fn coordinator_handles_events() {
    let account = Account { public_key: vec![1], address: vec![2] };
    let mut manager = MessageManager::new(account, chain(), UTXOSet::new());
    let next = Account { public_key: vec![3], address: vec![4] };
    assert_eq!(manager.handle(MessageBroadcasting::ChangeAccount(next)), CoordinatorAction::Continue);
    assert_eq!(manager.account.public_key, vec![3]);
    assert_eq!(manager.handle(MessageBroadcasting::Transaction(coinbase(1))), CoordinatorAction::Continue);
    assert_eq!(manager.pending_transactions.len(), 1);

    let tip = manager.block_chain.latest().header.get_hash256d().ok().expect("hash");
    let tx = coinbase(8);
    let mut block = Block::new(BlockHeader::new(
        BlockVersion::version(1),
        tip,
        tx.get_tx_id(),
        0,
        Compact256::from_bits(0x2200ffff),
        0,
        CompactSize::new(1),
    ));
    assert!(block.append_transaccion(tx).is_ok());
    assert_eq!(manager.handle(MessageBroadcasting::Block(block)), CoordinatorAction::Continue);
    assert_eq!(manager.block_chain.blocks.len(), 2);
    assert_eq!(manager.utxo_set.utxos.len(), 2);
    assert_eq!(manager.handle(MessageBroadcasting::Exit), CoordinatorAction::Stop);
}

#[test]
fn peer_writes_requests_and_stops() {
    let tx = coinbase(2);
    match peer_action(&Work::Information(MessageBroadcast::Transaction(tx.clone(), None))) {
        PeerAction::Write(bytes) => assert_eq!(bytes, encode(&tx)),
        PeerAction::Stop => panic!("expected a write"),
    }
    assert!(matches!(peer_action(&Work::Stop), PeerAction::Stop));
}

#[test]
fn peer_payloads_become_events() {
    let tx = coinbase(4);
    let bytes = encode(&tx);
    match peer_event(CommandName::Transaction, &bytes) {
        Some(MessageBroadcasting::Transaction(t)) => assert_eq!(encode(&t), bytes),
        _ => panic!("expected a transaction event"),
    }
    let mut longer = bytes.clone();
    longer.push(0);
    assert!(peer_event(CommandName::Transaction, &longer).is_none());
    assert!(peer_event(CommandName::Transaction, &bytes[..bytes.len() - 1]).is_none());

    let mut block = Block::new(BlockHeader::generate_genesis_block_header());
    assert!(block.append_transaccion(tx).is_ok());
    let mut block_bytes = Vec::new();
    block.serialize(&mut block_bytes);
    match peer_event(CommandName::Block, &block_bytes) {
        Some(MessageBroadcasting::Block(b)) => {
            assert_eq!(b.transactions.len(), 1);
            assert_eq!(b.header.transaction_count.value, 0);
        }
        _ => panic!("expected a block event"),
    }
    block_bytes.push(7);
    assert!(peer_event(CommandName::Block, &block_bytes).is_none());
    assert!(peer_event(CommandName::Inventory, &[0]).is_none());
}

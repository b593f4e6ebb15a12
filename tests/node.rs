use ledger_node::block::Block;
use ledger_node::chain::BlockChain;
use ledger_node::crypto::address;
use ledger_node::miner::mine_block;
use ledger_node::network::Packet;
use ledger_node::page::{DataUnit, Page};
use ledger_node::node::{timestamp_acceptable, Node, NodePacketHandler, Outgoing};
use ledger_node::transaction::{Transaction, TransactionHeader};
use ledger_node::wallet::WalletValidationResult;

fn key(seed: u8) -> [u8; 256] {
    [seed; 256]
}

fn transfer(id: u32, from: u8, amount: i64) -> Transaction {
    let header = TransactionHeader { id, from: key(from), to: [4u8; 32], amount, transaction_fee: 0 };
    Transaction::new(header, [0u8; 256], [1, 0, 1])
}

#[test]
fn blocks_from_peers_are_added_and_passed_on() {
    let mut node = Node::new(BlockChain::new(Vec::new()));
    let b0 = mine_block(Block::new(&node.chain, [1u8; 32]).unwrap()).unwrap();
    let from = "10.0.0.1:5000".to_string();
    match node.handle_block(&from, b0.clone(), &Vec::new()) {
        Some(Outgoing::Forward(origin, Packet::Block(b))) => {
            assert_eq!(origin, from);
            assert_eq!(b.hash().unwrap(), b0.hash().unwrap());
        },
        _ => panic!("the block should go on"),
    }
    assert!(node.handle_block(&from, b0.clone(), &Vec::new()).is_none());
    match node.handle_block_request(&from, 0) {
        Some(Outgoing::Reply(to, Packet::Block(b))) => {
            assert_eq!(to, from);
            assert_eq!(b.block_id, 0);
        },
        _ => panic!("block 0 is there"),
    }
    assert!(node.handle_block_request(&from, 1).is_none());
    assert!(matches!(node.handle_connected(&from), Some(Outgoing::Reply(_, Packet::Block(_)))));
}

#[test]
fn transfers_join_the_pool_and_stale_ones_leave_it() {
    let sender = address(&key(3));
    let mut node = Node::new(BlockChain::new(Vec::new()));
    let from = "peer".to_string();
    assert!(node.handle_transfer(&from, transfer(1, 3, 5), WalletValidationResult::Valid).is_some());
    assert!(node.handle_transfer(&from, transfer(2, 3, -5), WalletValidationResult::Valid).is_none());
    assert!(node.handle_transfer(&from, transfer(3, 3, 5), WalletValidationResult::BadKey).is_none());
    assert_eq!(node.pending.len(), 1);

    let page = Page::new(2, sender, vec![[1u8; 32]], 10, 0);
    let data = DataUnit { hashes: vec![[1u8; 32]], length: 10 };
    assert!(node.handle_page(&from, page, data).is_some());
    let candidate = node.candidate(sender).unwrap();
    assert_eq!(candidate.transactions.len(), 1);
    assert_eq!(candidate.pages.len(), 1);
    let mined = mine_block(candidate).unwrap();
    assert!(node.accept_mined(&mined, &vec![WalletValidationResult::Valid; mined.transactions.len()]).is_some());
    node.prune_pending();
    assert_eq!(node.pending.len(), 0);
}

#[test]
fn handler_routes_packets() {
    let mut handler = NodePacketHandler::new(Node::new(BlockChain::new(Vec::new())));
    let from = "peer".to_string();
    assert!(handler.on_packet(&from, Packet::Ping, WalletValidationResult::Valid, &Vec::new()).is_none());
    assert!(handler.on_packet(&from, Packet::OnConnected(8001), WalletValidationResult::Valid, &Vec::new()).is_none());
    assert_eq!(handler.node().pending.len(), 0);
    assert!(handler.prune().is_empty());
}

#[test]
fn future_timestamps_are_limited() {
    assert!(timestamp_acceptable(1000, 1000));
    assert!(timestamp_acceptable(121000, 1000));
    assert!(!timestamp_acceptable(121001, 1000));
    assert!(timestamp_acceptable(5, 1000));
}

use ledger_node::decode::{decode_block, decode_transaction, encode_block, encode_transaction};
use ledger_node::block::{merkle_root, merkle_root_for_transactions, Block};
use ledger_node::chain::{BlockChain, BlockChainBranch};
use ledger_node::config::{Hash256, COIN};
use ledger_node::crypto::address;
use ledger_node::error::Error;
use ledger_node::miner::{mine, mine_block, search_nonce, should_abandon};
use ledger_node::page::{DataUnit, Input, Page};
use ledger_node::target::{calculate_target, genesis_target};
use ledger_node::transaction::{Transaction, TransactionHeader, TransactionValidationResult};
use ledger_node::validate::validate_on;
use ledger_node::wallet::{WalletStatus, WalletValidationResult};
use sha2::Digest;

fn key(seed: u8) -> [u8; 256] {
    let mut k = [0u8; 256];
    for (i, b) in k.iter_mut().enumerate() {
        *b = seed.wrapping_mul(31).wrapping_add(i as u8);
    }
    k
}

fn transfer(id: u32, from: u8, to: Hash256, amount: i64, fee: i64) -> Transaction {
    let header = TransactionHeader { id, from: key(from), to, amount, transaction_fee: fee };
    Transaction::new(header, [7u8; 256], [1, 0, 1])
}

fn signed(b: &Block) -> Vec<WalletValidationResult> {
    vec![WalletValidationResult::Valid; b.transactions.len()]
}

fn fresh_chain() -> BlockChain {
    BlockChain::new(Vec::new())
}

fn mined_on(chain: &BlockChain, reward_to: Hash256) -> Block {
    mine_block(Block::new(chain, reward_to).expect("candidate")).expect("nonce")
}

#[test]
fn test_transaction() {
    let other = address(&key(2));
    let t = transfer(0, 1, other, 2_400_000, 200_000);
    let h = t.header.hash();
    assert_eq!(h.len(), 32);
    assert_eq!(t.validate_content(WalletValidationResult::Valid), TransactionValidationResult::Valid);

    let t = transfer(1, 1, other, -1_600_000, 0);
    assert_ne!(t.validate_content(WalletValidationResult::Valid), TransactionValidationResult::Valid);

    let t = transfer(2, 1, other, 0, -100);
    assert_ne!(t.validate_content(WalletValidationResult::Valid), TransactionValidationResult::Valid);
}

#[test]
fn test_block_verify() {
    let wallet = address(&key(1));
    let other = address(&key(2));
    let chain = fresh_chain();
    let mut block = Block::new(&chain, wallet).expect("Can create block");
    block.add_transaction(transfer(1, 1, other, 4 * COIN, COIN));

    let expected = calculate_target(&genesis_target(), None, None);
    assert_eq!(block.target, expected);

    block = mine_block(block).expect("nonce");
    assert_eq!(block.is_pow_valid(), true);
    assert_eq!(validate_on(&Vec::new(), 0, &block, &signed(&block)), Ok(()));

    let st = block.update_wallet_status(&wallet, WalletStatus::new()).unwrap();
    assert_eq!(st.balance, block.calculate_reward() - 4 * COIN);
    assert_eq!(st.max_id, 1);

    let st = block.update_wallet_status(&other, WalletStatus::new()).unwrap();
    assert_eq!(st.balance, 4 * COIN);
    assert_eq!(st.max_id, 0);

    let used = block.get_addresses_used();
    assert_eq!(used.len(), 2);
    assert!(used.contains(&wallet));
    assert!(used.contains(&other));
}

#[test]
fn unmined_block_is_refused_for_pow_or_accepted_when_lucky() {
    let chain = fresh_chain();
    let mut block = Block::new(&chain, [3u8; 32]).unwrap();
    block.target = [0u8; 32];
    assert_eq!(block.validate_pow(), Err(Error::BadPoW));
    block.target = [0xffu8; 32];
    assert_eq!(block.validate_pow(), Ok(()));
}

#[test]
fn mine_three_blocks_solo() {
    let winner = address(&key(9));
    let mut chain = fresh_chain();
    assert_eq!(mine(&mut chain, winner, 3), 3);
    assert_eq!(mine(&mut chain, winner, -2), 0);
    assert_eq!(chain.top_id(), 2);
    assert_eq!(chain.top().unwrap().block_id, 2);
    let st = chain.wallet_status(&winner).unwrap();
    assert_eq!(st.balance, 3 * 10 * COIN);
}

#[test]
fn transfer_in_mined_block_moves_balances() {
    let w = address(&key(1));
    let o = address(&key(2));
    let mut chain = fresh_chain();
    let mut b = Block::new(&chain, w).unwrap();
    b.add_transaction(transfer(1, 1, o, 4 * COIN, COIN));
    let b = mine_block(b).unwrap();
    assert_eq!(chain.add(&b, &signed(&b)), Ok(()));
    assert_eq!(chain.wallet_status(&w).unwrap().balance, 6 * COIN);
    assert_eq!(chain.wallet_status(&o).unwrap().balance, 4 * COIN);
    let used = b.get_addresses_used();
    assert_eq!(used.len(), 2);
    assert!(used.contains(&w) && used.contains(&o));
}

#[test]
fn negative_amount_is_reported() {
    let t = transfer(0, 1, [0u8; 32], -1_600_000, 0);
    assert_eq!(t.validate_content(WalletValidationResult::Valid), TransactionValidationResult::Negative);
    let t = transfer(0, 1, [0u8; 32], 5, 1);
    assert_eq!(
        t.validate_content(WalletValidationResult::BadSignature),
        TransactionValidationResult::Wallet(WalletValidationResult::BadSignature)
    );
}

#[test]
fn replayed_id_is_rejected() {
    let w = address(&key(1));
    let mut chain = fresh_chain();
    let mut b0 = Block::new(&chain, w).unwrap();
    b0.add_transaction(transfer(1, 1, [5u8; 32], COIN, 0));
    let b0 = mine_block(b0).unwrap();
    assert_eq!(chain.add(&b0, &signed(&b0)), Ok(()));
    let mut b1 = Block::new(&chain, w).unwrap();
    b1.add_transaction(transfer(1, 1, [5u8; 32], COIN, 0));
    let b1 = mine_block(b1).unwrap();
    assert_eq!(chain.add(&b1, &signed(&b1)), Err(Error::NoValidBranches));
    let branch = chain.longest_branch();
    assert_eq!(validate_on(&branch.blocks, 1, &b1, &signed(&b1)), Err(Error::ReplayedId));
}

#[test]
fn forks_make_branches_and_prune_drops_the_short_one() {
    let a = address(&key(1));
    let b = address(&key(2));
    let mut chain = fresh_chain();
    mine(&mut chain, a, 1);
    let block_a = mined_on(&chain, a);
    let block_b = mined_on(&chain, b);
    assert_eq!(chain.add(&block_a, &signed(&block_a)), Ok(()));
    assert_eq!(chain.add(&block_b, &signed(&block_b)), Ok(()));
    assert_eq!(chain.branches.len(), 2);
    assert_eq!(chain.add(&block_a, &signed(&block_a)), Err(Error::DuplicateBlock));

    mine(&mut chain, a, 1);
    assert_eq!(chain.top_id(), 2);
    assert_eq!(chain.longest_index(), 0);
    let removed = chain.prune_branches();
    assert!(removed.is_empty());
    assert_eq!(chain.branches.len(), 2);

    mine(&mut chain, a, 10);
    assert_eq!(chain.top_id(), 12);
    let gone_name = chain.branches[1].name.clone();
    let removed = chain.prune_branches();
    assert_eq!(removed, vec![gone_name]);
    assert_eq!(chain.branches.len(), 1);
}

#[test]
fn longest_branch_prefers_the_first_of_equals() {
    let chain = BlockChain::new(vec![
        BlockChainBranch::new("first".to_string()),
        BlockChainBranch::new("second".to_string()),
    ]);
    assert_eq!(chain.longest_branch().name, "first");
    assert_eq!(chain.top_id(), 0);
    assert!(chain.top().is_none());
}

#[test]
fn wrong_links_are_rejected() {
    let chain = fresh_chain();
    let mut b = Block::new(&chain, [1u8; 32]).unwrap();
    b.block_id = 3;
    assert_eq!(validate_on(&Vec::new(), 0, &b, &signed(&b)), Err(Error::BadBlockId));
    let mut b = Block::new(&chain, [1u8; 32]).unwrap();
    b.prev_hash = [9u8; 32];
    assert_eq!(validate_on(&Vec::new(), 0, &b, &signed(&b)), Err(Error::BadPrevHash));
    let mut b = Block::new(&chain, [1u8; 32]).unwrap();
    b.target = [0xffu8; 32];
    assert_eq!(validate_on(&Vec::new(), 0, &b, &signed(&b)), Err(Error::BadTarget));
}

#[test]
fn target_is_genesis_until_the_window_is_full() {
    let g = genesis_target();
    assert_eq!(g[0], 0);
    assert_eq!(g[1], 0x3f);
    assert_eq!(g[2], 0xff);
    assert_eq!(calculate_target(&[5u8; 32], None, Some(3)), g);
}

#[test]
fn target_scales_and_clamps() {
    let mut prev = [0u8; 32];
    prev[31] = 100;
    // Twice the expected time: twice the target.
    let t = calculate_target(&prev, Some(1000), Some(201000));
    assert_eq!(t[31], 200);
    // Far too slow: clamped at four times.
    let t = calculate_target(&prev, Some(0), Some(10_000_000));
    assert_eq!(t[31], 144);
    assert_eq!(t[30], 1);
    // Far too fast: clamped at a quarter.
    let t = calculate_target(&prev, Some(5), Some(5));
    assert_eq!(t[31], 25);
    // Saturates at the largest value.
    let t = calculate_target(&[0xffu8; 32], Some(0), Some(400000));
    assert_eq!(t, [0xffu8; 32]);
}

#[test]
fn header_encoding_has_the_fixed_layout() {
    let t = transfer(0x01020304, 1, [2u8; 32], 5, 6);
    let bytes = t.header.as_bytes();
    assert_eq!(bytes.len(), 4 + 256 + 32 + 8 + 8);
    assert_eq!(&bytes[0..4], &[4, 3, 2, 1]);
    assert_eq!(bytes[292], 5);
    let digest = sha2::Sha256::digest(&bytes);
    assert_eq!(&t.header.hash()[..], digest.as_slice());
    assert_ne!(&t.header.hash()[..], &bytes[0..32]);
}

#[test]
fn block_hash_is_the_digest_of_its_encoding() {
    let b = Block::new_debug(4, [1u8; 32]);
    assert_eq!(b.target, genesis_target());
    let bytes = b.as_bytes().unwrap();
    assert_eq!(bytes.len(), 32 + 8 + 32 + 8 + 8 + 16 + 32 + 8);
    let digest = sha2::Sha256::digest(&bytes);
    assert_eq!(&b.hash().unwrap()[..], digest.as_slice());
    assert_eq!(b.hash().unwrap(), b.duplicate().hash().unwrap());
}

#[test]
fn merkle_root_pairs_and_duplicates() {
    assert_eq!(merkle_root(&Vec::new()), [0u8; 32]);
    assert_eq!(merkle_root(&vec![[4u8; 32]]), [4u8; 32]);
    let mut both = Vec::new();
    both.extend_from_slice(&[1u8; 32]);
    both.extend_from_slice(&[2u8; 32]);
    let pair: [u8; 32] = sha2::Sha256::digest(&both).into();
    assert_eq!(merkle_root(&vec![[1u8; 32], [2u8; 32]]), pair);
    let mut odd = Vec::new();
    odd.extend_from_slice(&[3u8; 32]);
    odd.extend_from_slice(&[3u8; 32]);
    let right: [u8; 32] = sha2::Sha256::digest(&odd).into();
    let mut top = Vec::new();
    top.extend_from_slice(&pair);
    top.extend_from_slice(&right);
    let root: [u8; 32] = sha2::Sha256::digest(&top).into();
    assert_eq!(merkle_root(&vec![[1u8; 32], [2u8; 32], [3u8; 32]]), root);
    let t = transfer(0, 1, [0u8; 32], 1, 1);
    assert_eq!(merkle_root_for_transactions(&vec![t], &Vec::new()), t.hash());
}

#[test]
fn page_cost_and_validation() {
    let site = [8u8; 32];
    let p = Page::new(1, site, vec![[1u8; 32]], 1048576, 10);
    assert_eq!(p.cost(), COIN);
    let ok = vec![Input { address: site, amount: COIN + 10 }];
    assert_eq!(p.validate(&ok), TransactionValidationResult::Valid);
    let short = vec![Input { address: site, amount: COIN }];
    assert_eq!(p.validate(&short), TransactionValidationResult::Unbalanced);
    let two = vec![Input { address: site, amount: 5 }, Input { address: site, amount: COIN + 5 }];
    assert_eq!(p.validate(&two), TransactionValidationResult::Unbalanced);
    let bad = Page::new(1, site, vec![], 1048576, 10);
    assert_eq!(bad.validate(&ok), TransactionValidationResult::WrongHashCount);
    let neg = Page::new(1, site, vec![[1u8; 32]], 1048576, -1);
    assert_eq!(neg.validate(&ok), TransactionValidationResult::Negative);
    let half = Page::new(2, site, vec![[1u8; 32]], 524288, 0);
    assert_eq!(half.cost(), COIN / 2);
    let data = DataUnit { hashes: vec![[1u8; 32]], length: 524288 };
    assert!(half.is_data_valid(&data));
    let other = DataUnit { hashes: vec![[2u8; 32]], length: 524288 };
    assert!(!half.is_data_valid(&other));
    let from_data = Page::new_from_data(3, site, &data, 1);
    assert_eq!(from_data.data_hashes, data.hashes);
}

#[test]
fn page_fold_charges_the_site() {
    let site = [8u8; 32];
    let p = Page::new(4, site, vec![[1u8; 32]], 1048576, 10);
    let st = p.update_wallet_status(&site, WalletStatus { balance: 100, max_id: 1 }, true).unwrap();
    assert_eq!(st.balance, 100 - COIN - 10 + 10);
    assert_eq!(st.max_id, 4);
    assert_eq!(p.update_wallet_status(&site, WalletStatus { balance: 0, max_id: 4 }, false), None);
}

#[test]
fn nonce_search_resumes() {
    let chain = fresh_chain();
    let mut b = Block::new(&chain, [1u8; 32]).unwrap();
    b.target = [0u8; 32];
    match search_nonce(b, 5) {
        Err(next) => assert_eq!(next.pow, 5),
        Ok(_) => panic!("a zero target cannot be met"),
    }
    assert!(should_abandon(3, 4, false));
    assert!(!should_abandon(3, 3, false));
    assert!(should_abandon(3, 0, true));
}

#[test]
fn branch_names_are_base62() {
    let chain = fresh_chain();
    let name = chain.generate_new_branch_name().expect("a free name");
    assert_ne!(name, chain.branches[0].name);
    assert!(!name.is_empty());
    assert!(name.chars().all(|c| c.is_ascii_alphanumeric()));
    assert_eq!(chain.branches.len(), 1);
}

#[test]
fn blocks_and_transfers_decode_to_themselves() {
    let site = [8u8; 32];
    let mut b = Block::empty(7, [1u8; 32], 123456789, genesis_target());
    b.add_transaction(transfer(3, 1, [2u8; 32], -5, 9));
    b.add_page(Page::new(2, site, vec![[1u8; 32], [2u8; 32]], 1048577, 4));
    let bytes = encode_block(&b);
    assert_eq!(bytes, b.as_bytes().unwrap());
    let back = decode_block(&bytes).expect("decodes");
    assert_eq!(encode_block(&back), bytes);
    assert_eq!(back.block_id, 7);
    assert_eq!(back.timestamp, 123456789);
    assert_eq!(back.transactions[0].header.amount, -5);
    assert_eq!(back.pages[0].data_hashes, vec![[1u8; 32], [2u8; 32]]);
    assert!(decode_block(&bytes[..bytes.len() - 1]).is_none());
    let mut longer = bytes.clone();
    longer.push(0);
    assert!(decode_block(&longer).is_none());

    let t = transfer(9, 4, [3u8; 32], 11, 2);
    let tb = encode_transaction(&t);
    let t2 = decode_transaction(&tb).unwrap();
    assert_eq!(t2.header.id, 9);
    assert_eq!(t2.header.from, t.header.from);
    assert_eq!(t2.signature, t.signature);
}

#[test]
fn mined_blocks_link_and_fold_in_parts() {
    let w = address(&key(5));
    let mut chain = fresh_chain();
    mine(&mut chain, w, 3);
    let blocks = &chain.longest_branch().blocks;
    assert_eq!(blocks.len(), 3);
    for i in 0..2 {
        assert_eq!(blocks[i + 1].prev_hash, blocks[i].hash().unwrap());
        assert_eq!(blocks[i + 1].block_id, blocks[i].block_id + 1);
    }
    let through_two = ledger_node::validate::wallet_status_through(blocks, 2, &w).unwrap();
    assert_eq!(through_two.balance, 20 * COIN);
    let last = blocks[2].update_wallet_status(&w, through_two).unwrap();
    assert_eq!(Some(last), chain.wallet_status(&w));
}

#[test]
fn a_fork_keeps_every_branch_and_tops_one_with_the_block() {
    let a = address(&key(1));
    let b = address(&key(2));
    let mut chain = fresh_chain();
    mine(&mut chain, a, 2);
    let first_name = chain.branches[0].name.clone();
    // A competing block at height 1, built on block 0.
    let base = BlockChain::new(vec![]);
    let mut side = base;
    let genesis = chain.block(0).unwrap();
    assert_eq!(side.add(&genesis, &signed(&genesis)), Ok(()));
    let competitor = mined_on(&side, b);
    assert_eq!(competitor.block_id, 1);
    assert_eq!(chain.add(&competitor, &signed(&competitor)), Ok(()));
    assert_eq!(chain.branches.len(), 2);
    assert_eq!(chain.branches[0].name, first_name);
    assert_eq!(chain.branches[0].blocks.len(), 2);
    let top = chain.branches[1].top().unwrap();
    assert_eq!(top.hash().unwrap(), competitor.hash().unwrap());
    assert_eq!(chain.branches[1].blocks.len(), 2);
}

#[test]
fn refused_signatures_refuse_the_block() {
    let w = address(&key(1));
    let mut chain = fresh_chain();
    let mut b = Block::new(&chain, w).unwrap();
    b.add_transaction(transfer(1, 1, [5u8; 32], COIN, 0));
    b.add_transaction(transfer(2, 1, [5u8; 32], COIN, 0));
    let b = mine_block(b).unwrap();
    assert_eq!(chain.add(&b, &vec![WalletValidationResult::Valid, WalletValidationResult::BadKey]), Err(Error::BadKey));
    assert_eq!(chain.add(&b, &vec![WalletValidationResult::BadSignature, WalletValidationResult::BadKey]), Err(Error::BadSignature));
    assert_eq!(chain.add(&b, &vec![WalletValidationResult::Valid]), Err(Error::BadSignature));
    assert_eq!(chain.top_id(), 0);
    assert!(chain.top().is_none());
    assert_eq!(chain.add(&b, &vec![WalletValidationResult::Valid, WalletValidationResult::Valid]), Ok(()));
}

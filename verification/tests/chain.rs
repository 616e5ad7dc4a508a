use std::collections::VecDeque;
use rusty_chain::blockchain::{Block, BlockHeader, Blockchain, HASH_DIFFICULTY, NB_TXN_PER_BLOCK};
use rusty_chain::engine::{can_apply_queue, create_block, process_transaction};
use rusty_chain::transaction::Transaction;

fn tx(from: &str, to: &str, amount: u8) -> Transaction {
    Transaction { from: from.to_string(), to: to.to_string(), amount }
}

fn balance(bc: &Blockchain, id: &str) -> Option<u128> {
    bc.accounts.iter().find(|e| e.0 == id).map(|e| e.1)
}

#[test]
fn new_chain_holds_genesis_only() {
    let bc = Blockchain::new();
    assert_eq!(bc.len(), 1);
    assert!(!bc.is_empty());
    let genesis = bc.get_last_block();
    assert_eq!(genesis.hash, "");
    assert_eq!(genesis.header.prev_hash, "");
    assert_eq!(genesis.header.nounce, 0);
    assert!(genesis.txn.is_empty());
}

#[test]
fn calculate_hash_steps_the_hash_chain() {
    let mut block = Block {
        hash: String::new(),
        time: 0,
        header: BlockHeader { prev_hash: String::new(), nounce: 0 },
        txn: Vec::new(),
    };
    block.calculate_hash();
    // The hex SHA-256 digest of the empty byte string.
    assert_eq!(
        block.hash,
        "e3b0c44298fc1c149afbf4c8996fb92427ae41e4649b934ca495991b7852b855"
    );
    block.calculate_hash();
    // The digest of the previous hash text's bytes, not of the block content.
    assert_eq!(
        block.hash,
        "cd372fb85148700fa88095e3492d3f9f5beb43e555e5ff26d95f5a6adc36f8e6"
    );
}

#[test]
fn valid_hash_checks_leading_zeros() {
    let mut block = Block {
        hash: "000abc".to_string(),
        time: 0,
        header: BlockHeader { prev_hash: String::new(), nounce: 0 },
        txn: Vec::new(),
    };
    assert!(block.valid_hash());
    block.hash = "00abc".to_string();
    assert!(!block.valid_hash());
    block.hash = "".to_string();
    assert!(!block.valid_hash());
}

#[test]
fn mint_finds_a_valid_hash_and_appends() {
    let mut bc = Blockchain::new();
    let mut block = Block {
        hash: String::new(),
        time: 0,
        header: BlockHeader { prev_hash: String::new(), nounce: 0 },
        txn: Vec::new(),
    };
    assert!(bc.mint(&mut block));
    assert_eq!(bc.len(), 2);
    let mined = bc.get_last_block();
    assert!(mined.hash.starts_with(&"0".repeat(HASH_DIFFICULTY)));
    assert!(mined.header.nounce > 0);
    // The mined hash is the first iterate of the hash chain from the empty
    // string that meets the target; the chain is deterministic, so the
    // value is fixed.
    assert_eq!(
        mined.hash,
        "000ef599aaef10b2cc0c62c4dd7a9632c434f1cc699673afb7d7bee129b8044e"
    );
    assert_eq!(mined.hash, block.hash);
    assert_eq!(mined.header.nounce, block.header.nounce);
}

#[test]
fn create_block_drains_mempool_in_order() {
    let mut bc = Blockchain::new();
    let mut mempool: VecDeque<Transaction> = VecDeque::new();
    mempool.push_back(tx("a", "b", 1));
    mempool.push_back(tx("a", "b", 2));
    mempool.push_back(tx("a", "b", 3));
    mempool.push_back(tx("a", "b", 4));
    assert!(create_block(&mut bc, &mut mempool));
    // Exactly the three oldest left the pool, in insertion order.
    assert_eq!(mempool.len(), 1);
    assert_eq!(mempool[0].amount, 4);
    let block = bc.get_last_block();
    assert_eq!(block.txn.len(), NB_TXN_PER_BLOCK);
    assert_eq!(block.txn[0].amount, 1);
    assert_eq!(block.txn[1].amount, 2);
    assert_eq!(block.txn[2].amount, 3);
}

#[test]
fn rejection_leaves_mempool_and_ledger_unchanged() {
    let mut bc = Blockchain::new();
    bc.accounts.push(("z".to_string(), 0));
    let mut mempool: VecDeque<Transaction> = VecDeque::new();
    let accepted = process_transaction(&mut bc, &mut mempool, tx("z", "b", 1));
    assert!(!accepted);
    assert_eq!(mempool.len(), 0);
    assert_eq!(balance(&bc, "z"), Some(0));
    assert_eq!(balance(&bc, "a"), Some(100));
    assert_eq!(balance(&bc, "b"), None);
    assert_eq!(bc.len(), 1);
}

#[test]
fn end_to_end_three_transactions_mint_a_block() {
    let mut bc = Blockchain::new();
    let mut mempool: VecDeque<Transaction> = VecDeque::new();
    assert!(process_transaction(&mut bc, &mut mempool, tx("a", "b", 1)));
    assert_eq!(bc.len(), 1);
    assert!(process_transaction(&mut bc, &mut mempool, tx("a", "b", 2)));
    assert_eq!(bc.len(), 1);
    assert!(process_transaction(&mut bc, &mut mempool, tx("a", "b", 3)));

    // The third acceptance filled the pool and minted a block.
    assert_eq!(bc.len(), 2);
    assert_eq!(mempool.len(), 0);
    let block = bc.get_last_block();
    assert_eq!(block.txn.len(), 3);
    assert_eq!(block.txn[0].amount, 1);
    assert_eq!(block.txn[1].amount, 2);
    assert_eq!(block.txn[2].amount, 3);
    assert!(block.txn.iter().all(|t| t.from == "a" && t.to == "b"));
    assert!(block.hash.starts_with(&"0".repeat(HASH_DIFFICULTY)));
    // The new block links to the genesis block's (empty) hash.
    assert_eq!(block.header.prev_hash, bc.blocks[0].hash);
    assert_eq!(balance(&bc, "a"), Some(94));
    assert_eq!(balance(&bc, "b"), Some(6));
}

#[test]
fn chain_linkage_over_two_minted_blocks() {
    let mut bc = Blockchain::new();
    let mut mempool: VecDeque<Transaction> = VecDeque::new();
    for round in 0..2 {
        for k in 1..=3u8 {
            assert!(process_transaction(&mut bc, &mut mempool, tx("a", "b", k)));
        }
        assert_eq!(bc.len(), 2 + round);
    }
    for i in 1..bc.blocks.len() {
        assert_eq!(bc.blocks[i].header.prev_hash, bc.blocks[i - 1].hash);
        assert!(bc.blocks[i].hash.starts_with(&"0".repeat(HASH_DIFFICULTY)));
    }
    // The nounce continues from the previous block's final value rather
    // than restarting at zero.
    assert!(bc.blocks[2].header.nounce > bc.blocks[1].header.nounce);
    assert_eq!(balance(&bc, "a"), Some(88));
    assert_eq!(balance(&bc, "b"), Some(12));
}

#[test]
fn can_apply_queue_spots_overspending() {
    let bc = Blockchain::new();
    let ok = vec![tx("a", "b", 50), tx("b", "c", 20)];
    assert!(can_apply_queue(&bc, &ok));
    // Each transfer alone is covered, yet in sequence the second overdraws.
    let overdrawn = vec![tx("a", "b", 80), tx("a", "c", 80)];
    assert!(!can_apply_queue(&bc, &overdrawn));
}

use rusty_chain::blockchain::Blockchain;
use rusty_chain::transaction::Transaction;

fn tx(from: &str, to: &str, amount: u8) -> Transaction {
    Transaction { from: from.to_string(), to: to.to_string(), amount }
}

fn balance(bc: &Blockchain, id: &str) -> Option<u128> {
    bc.accounts.iter().find(|e| e.0 == id).map(|e| e.1)
}

fn total(bc: &Blockchain) -> u128 {
    bc.accounts.iter().map(|e| e.1).sum()
}

#[test]
fn new_seeds_initial_balance() {
    let bc = Blockchain::new();
    assert_eq!(balance(&bc, "a"), Some(100));
    assert_eq!(bc.accounts.len(), 1);
}

#[test]
fn validate_unknown_sender_rejected() {
    let bc = Blockchain::new();
    assert!(!Blockchain::valid_transaction(&bc, &tx("nobody", "a", 1)));
}

#[test]
fn validate_insufficient_balance_rejected() {
    let bc = Blockchain::new();
    assert!(!Blockchain::valid_transaction(&bc, &tx("a", "b", 101)));
}

#[test]
fn validate_sufficient_balance_accepted() {
    let bc = Blockchain::new();
    assert!(Blockchain::valid_transaction(&bc, &tx("a", "b", 100)));
    assert!(Blockchain::valid_transaction(&bc, &tx("a", "b", 1)));
}

#[test]
fn apply_moves_balance() {
    let mut bc = Blockchain::new();
    bc.update_account(&tx("a", "b", 30));
    assert_eq!(balance(&bc, "a"), Some(70));
    assert_eq!(balance(&bc, "b"), Some(30));
}

#[test]
fn apply_to_self_keeps_balance() {
    let mut bc = Blockchain::new();
    bc.update_account(&tx("a", "a", 10));
    assert_eq!(balance(&bc, "a"), Some(100));
}

#[test]
fn apply_conserves_total() {
    let mut bc = Blockchain::new();
    let before = total(&bc);
    bc.update_account(&tx("a", "b", 25));
    bc.update_account(&tx("b", "c", 10));
    bc.update_account(&tx("c", "a", 5));
    assert_eq!(total(&bc), before);
    assert_eq!(balance(&bc, "a"), Some(80));
    assert_eq!(balance(&bc, "b"), Some(15));
    assert_eq!(balance(&bc, "c"), Some(5));
}

#[test]
fn default_matches_new() {
    let bc = Blockchain::default();
    assert_eq!(balance(&bc, "a"), Some(100));
    assert_eq!(bc.blocks.len(), 1);
}

//! The connection engine's decisions: validate an incoming transaction,
//! enqueue it into the pending pool, and mint a block once the pool holds
//! a block's worth.
//!
//! A caller runs these under one lock over the pool and the chain/ledger
//! pair, so a whole mint — including its proof-of-work search — is a single
//! blocking critical section.

use vstd::prelude::*;
use std::collections::VecDeque;
use crate::transaction::Transaction;
use crate::blockchain::{
    Block, BlockHeader, Blockchain, NB_TXN_PER_BLOCK, hash_meets_difficulty, mining_succeeds,
    nth_next_hash, get_time,
};
use crate::ledger::{
    ledger_wf, ledger_view, spec_total, spec_apply_all, can_apply, can_apply_all, spec_valid,
    find_account, lemma_can_apply_all_push, lemma_can_apply_all_index, lemma_apply_all_push,
};

verus! {

fn clone_accounts(accounts: &Vec<(String, u128)>) -> (r: Vec<(String, u128)>)
    ensures
        r@ == accounts@,
{
    let mut r: Vec<(String, u128)> = Vec::new();
    let mut k: usize = 0;
    while k < accounts.len()
        invariant
            0 <= k <= accounts@.len(),
            r@.len() == k,
            forall|i: int| 0 <= i < k ==> r@[i] == accounts@[i],
        decreases accounts@.len() - k,
    {
        r.push((accounts[k].0.clone(), accounts[k].1));
        k += 1;
    }
    proof {
        assert(r@ =~= accounts@);
    }
    r
}

/// Whether the given transactions can be applied to the ledger in order
/// without driving a sender's balance below zero or a receiver's above
/// `u128`; minting demands this of the transactions it drains.
pub fn can_apply_queue(blockchain: &Blockchain, txns: &Vec<Transaction>) -> (r: bool)
    requires
        ledger_wf(blockchain.accounts@),
    ensures
        r == can_apply_all(ledger_view(blockchain.accounts@), txns@),
{
    let ghost m0 = ledger_view(blockchain.accounts@);
    let mut scratch = Blockchain { blocks: Vec::new(), accounts: clone_accounts(
        &blockchain.accounts,
    ) };
    let n = txns.len();
    proof {
        assert(txns@.take(0) =~= Seq::<Transaction>::empty());
        assert(spec_apply_all(m0, txns@.take(0)) == m0);
        assert(can_apply_all(m0, txns@.take(0)));
    }
    let mut k: usize = 0;
    while k < n
        invariant
            n == txns@.len(),
            0 <= k <= n,
            m0 == ledger_view(blockchain.accounts@),
            ledger_wf(scratch.accounts@),
            ledger_view(scratch.accounts@) == spec_apply_all(m0, txns@.take(k as int)),
            can_apply_all(m0, txns@.take(k as int)),
        decreases n - k,
    {
        let ghost mv = ledger_view(scratch.accounts@);
        let tx = &txns[k];
        match find_account(&scratch.accounts, &tx.from) {
            Some(p) => {
                if scratch.accounts[p].1 < tx.amount as u128 {
                    proof {
                        assert(!can_apply(mv, txns@[k as int]));
                        if can_apply_all(m0, txns@) {
                            lemma_can_apply_all_index(m0, txns@, k as int);
                        }
                    }
                    return false;
                }
            },
            None => {},
        }
        if !(tx.from == tx.to) {
            match find_account(&scratch.accounts, &tx.to) {
                Some(q) => {
                    if scratch.accounts[q].1 > u128::MAX - tx.amount as u128 {
                        proof {
                            assert(!can_apply(mv, txns@[k as int]));
                            if can_apply_all(m0, txns@) {
                                lemma_can_apply_all_index(m0, txns@, k as int);
                            }
                        }
                        return false;
                    }
                },
                None => {},
            }
        }
        proof {
            assert(can_apply(mv, txns@[k as int]));
        }
        scratch.update_account(tx);
        proof {
            lemma_apply_all_push(m0, txns@.take(k as int), txns@[k as int]);
            lemma_can_apply_all_push(m0, txns@.take(k as int), txns@[k as int]);
            assert(txns@.take(k as int).push(txns@[k as int]) =~= txns@.take(k as int + 1));
        }
        k += 1;
    }
    proof {
        assert(txns@.take(n as int) =~= txns@);
    }
    true
}

/// Builds the next block from the oldest [`NB_TXN_PER_BLOCK`] pending
/// transactions, links it to the chain's last block, seeds its nounce from
/// the last block's, and mines it. On success the drained transactions —
/// exactly the oldest [`NB_TXN_PER_BLOCK`], in insertion order — leave the
/// pool; an exhausted mining search leaves both the pool and the chain
/// untouched.
pub fn create_block(blockchain: &mut Blockchain, mempool: &mut VecDeque<Transaction>) -> (mined:
    bool)
    requires
        old(blockchain).wf(),
        old(mempool)@.len() >= NB_TXN_PER_BLOCK,
        can_apply_all(
            ledger_view(old(blockchain).accounts@),
            old(mempool)@.take(NB_TXN_PER_BLOCK as int),
        ),
    ensures
        final(blockchain).wf(),
        !mined ==> final(blockchain).blocks@ == old(blockchain).blocks@ && final(blockchain).accounts@ == old(blockchain).accounts@ && final(mempool)@ == old(mempool)@,
        mined ==> final(mempool)@ == old(mempool)@.skip(NB_TXN_PER_BLOCK as int),
        mined ==> final(blockchain).blocks@.len() == old(blockchain).blocks@.len() + 1,
        mined ==> forall|i: int|
            0 <= i < old(blockchain).blocks@.len() ==> final(blockchain).blocks@[i] == old(blockchain).blocks@[i],
        mined ==> final(blockchain).blocks@.last().txn@ == old(mempool)@.take(
            NB_TXN_PER_BLOCK as int,
        ),
        mined ==> final(blockchain).blocks@.last().header.prev_hash@ == old(blockchain).blocks@.last().hash@,
        mined ==> hash_meets_difficulty(final(blockchain).blocks@.last().hash@),
        mined ==> ledger_view(final(blockchain).accounts@) == spec_apply_all(
            ledger_view(old(blockchain).accounts@),
            old(mempool)@.take(NB_TXN_PER_BLOCK as int),
        ),
        mined ==> ((forall|k: int|
            0 <= k < NB_TXN_PER_BLOCK ==> ledger_view(old(blockchain).accounts@).contains_key(
                old(mempool)@[k].from@,
            )) ==> spec_total(final(blockchain).accounts@) == spec_total(
            old(blockchain).accounts@,
        )),
        mined == mining_succeeds(Seq::<char>::empty()),
        mined ==> exists|k: int|
            1 <= k <= u64::MAX + 1 && final(blockchain).blocks@.last().hash@ == nth_next_hash(
                Seq::<char>::empty(),
                k as nat,
            ) && #[trigger] hash_meets_difficulty(nth_next_hash(Seq::<char>::empty(), k as nat))
                && (forall|j: int|
                1 <= j < k ==> !hash_meets_difficulty(
                    #[trigger] nth_next_hash(Seq::<char>::empty(), j as nat),
                )),
{
    let last_hash;
    let last_nounce;
    {
        let last_block = blockchain.get_last_block();
        last_hash = last_block.hash.clone();
        last_nounce = last_block.header.nounce;
    }
    let mut new_block = Block {
        hash: String::new(),
        time: get_time(),
        header: BlockHeader { prev_hash: last_hash, nounce: last_nounce },
        txn: Vec::new(),
    };
    let mut k: usize = 0;
    while k < NB_TXN_PER_BLOCK
        invariant
            0 <= k <= NB_TXN_PER_BLOCK,
            mempool@ == old(mempool)@,
            mempool@.len() >= NB_TXN_PER_BLOCK,
            new_block.txn@.len() == k,
            forall|i: int| 0 <= i < k ==> new_block.txn@[i] == mempool@[i],
            new_block.hash@ == Seq::<char>::empty(),
            new_block.header.prev_hash@ == old(blockchain).blocks@.last().hash@,
        decreases NB_TXN_PER_BLOCK - k,
    {
        new_block.txn.push(mempool[k].clone());
        k += 1;
    }
    proof {
        assert(new_block.txn@ =~= mempool@.take(NB_TXN_PER_BLOCK as int));
    }
    let ghost pre_hash = new_block.hash@;
    let mined = blockchain.mint(&mut new_block);
    proof {
        assert(pre_hash == Seq::<char>::empty());
        assert(mining_succeeds(pre_hash) == mining_succeeds(Seq::<char>::empty()));
        if mined {
            let k = choose|k: int|
                1 <= k <= u64::MAX + 1 && new_block.hash@ == nth_next_hash(pre_hash, k as nat)
                    && #[trigger] hash_meets_difficulty(nth_next_hash(pre_hash, k as nat)) && (
                forall|j: int|
                    1 <= j < k ==> !hash_meets_difficulty(
                        #[trigger] nth_next_hash(pre_hash, j as nat),
                    ));
            assert(nth_next_hash(Seq::<char>::empty(), k as nat) == nth_next_hash(
                pre_hash,
                k as nat,
            ));
            assert(hash_meets_difficulty(nth_next_hash(Seq::<char>::empty(), k as nat)));
            assert forall|j: int| 1 <= j < k implies !hash_meets_difficulty(
                #[trigger] nth_next_hash(Seq::<char>::empty(), j as nat),
            ) by {
                assert(nth_next_hash(Seq::<char>::empty(), j as nat) == nth_next_hash(
                    pre_hash,
                    j as nat,
                ));
            }
            assert(blockchain.blocks@.last().hash@ == new_block.hash@);
        }
    }
    if mined {
        let mut d: usize = 0;
        while d < NB_TXN_PER_BLOCK
            invariant
                0 <= d <= NB_TXN_PER_BLOCK,
                mempool@ == old(mempool)@.skip(d as int),
                old(mempool)@.len() >= NB_TXN_PER_BLOCK,
            decreases NB_TXN_PER_BLOCK - d,
        {
            let popped = mempool.pop_front();
            proof {
                assert(old(mempool)@.skip(d as int).subrange(
                    1,
                    old(mempool)@.skip(d as int).len() as int,
                ) =~= old(mempool)@.skip(d as int + 1));
            }
            d += 1;
        }
    }
    mined
}

/// One engine step for a decoded transaction: rejects it when the ledger
/// does not cover it; otherwise enqueues it and, once the pool holds a
/// block's worth, builds and mines the next block. Returns whether the
/// transaction was accepted — a caller fans accepted transactions out to
/// its peers.
pub fn process_transaction(
    blockchain: &mut Blockchain,
    mempool: &mut VecDeque<Transaction>,
    tx: Transaction,
) -> (accepted: bool)
    requires
        old(blockchain).wf(),
        spec_valid(old(blockchain).accounts@, tx) && old(mempool)@.len() + 1 >= NB_TXN_PER_BLOCK
            ==> can_apply_all(
            ledger_view(old(blockchain).accounts@),
            old(mempool)@.push(tx).take(NB_TXN_PER_BLOCK as int),
        ),
    ensures
        final(blockchain).wf(),
        accepted == spec_valid(old(blockchain).accounts@, tx),
        !accepted ==> final(blockchain).blocks@ == old(blockchain).blocks@ && final(blockchain).accounts@ == old(blockchain).accounts@ && final(mempool)@ == old(mempool)@,
        accepted && old(mempool)@.len() + 1 < NB_TXN_PER_BLOCK ==> final(mempool)@ == old(mempool)@.push(tx) && final(blockchain).blocks@ == old(blockchain).blocks@ && final(blockchain).accounts@ == old(blockchain).accounts@,
        accepted && old(mempool)@.len() + 1 >= NB_TXN_PER_BLOCK && mining_succeeds(
            Seq::<char>::empty(),
        ) ==> final(mempool)@ == old(mempool)@.push(tx).skip(NB_TXN_PER_BLOCK as int) && final(blockchain).blocks@.len() == old(blockchain).blocks@.len() + 1 && final(blockchain).blocks@.last().txn@ == old(mempool)@.push(tx).take(NB_TXN_PER_BLOCK as int)
            && hash_meets_difficulty(final(blockchain).blocks@.last().hash@) && ledger_view(
            final(blockchain).accounts@,
        ) == spec_apply_all(
            ledger_view(old(blockchain).accounts@),
            old(mempool)@.push(tx).take(NB_TXN_PER_BLOCK as int),
        ),
        accepted && old(mempool)@.len() + 1 >= NB_TXN_PER_BLOCK && !mining_succeeds(
            Seq::<char>::empty(),
        ) ==> final(mempool)@ == old(mempool)@.push(tx) && final(blockchain).blocks@ == old(blockchain).blocks@ && final(blockchain).accounts@ == old(blockchain).accounts@,
{
    if !Blockchain::valid_transaction(blockchain, &tx) {
        return false;
    }
    mempool.push_back(tx);
    if mempool.len() >= NB_TXN_PER_BLOCK {
        create_block(blockchain, mempool);
    }
    true
}

} // verus!

//! Blocks, the append-only chain, and the proof-of-work mining loop.
//!
//! A block's hash is the lowercase hex digest of SHA-256 applied to the
//! block's current hash text — a nounce-driven hash chain over the hash
//! field itself, independent of the block's content. Mining repeats that
//! step until the hash begins with [`HASH_DIFFICULTY`] `'0'` characters.

use vstd::prelude::*;
use vstd::utf8::encode_utf8;
use vstd::pervasive::VecAdditionalExecFns;
use vstd::string::StrSliceExecFns;
use crate::transaction::Transaction;
use crate::ledger::{
    ledger_wf, ledger_view, spec_lookup, spec_total, spec_apply, spec_apply_all, spec_valid,
    can_apply, can_apply_all, find_account, lemma_wf_update, lemma_wf_push, lemma_view_update,
    lemma_view_push, lemma_total_update, lemma_total_push, lemma_apply_monotone,
    lemma_apply_all_push,
};
use sha2::{Digest, Sha256};
use std::time::{SystemTime, UNIX_EPOCH};

verus! {

/// How many transactions every mined block carries.
pub const NB_TXN_PER_BLOCK: usize = 3;

/// How many leading `'0'` hex characters a mined hash must show.
pub const HASH_DIFFICULTY: usize = 3;

/// The SHA-256 digest of a byte sequence; the contracts name it and state
/// only its 32-byte length.
pub uninterp spec fn sha256_of(bytes: Seq<u8>) -> Seq<u8>;

/// The lowercase hexadecimal text of a byte sequence; the contracts name it
/// and state only its length.
pub uninterp spec fn hex_of(bytes: Seq<u8>) -> Seq<char>;

/// Relies on sha2's `Sha256::digest`: the digest is a function of the input
/// bytes alone, 32 bytes long.
#[verifier::external_body]
fn sha256(bytes: &[u8]) -> (r: Vec<u8>)
    ensures
        r@ == sha256_of(bytes@),
        r@.len() == 32,
{
    Sha256::digest(bytes).to_vec()
}

/// A lowercase hexadecimal digit.
pub open spec fn is_lower_hex_digit(c: char) -> bool {
    ('0' as u32 <= c as u32 && c as u32 <= '9' as u32) || ('a' as u32 <= c as u32 && c as u32
        <= 'f' as u32)
}

/// Relies on `hex::encode`: lowercase hex text, a function of the input
/// bytes alone, two characters for each byte.
#[verifier::external_body]
fn hex_encode(bytes: &[u8]) -> (r: String)
    ensures
        r@ == hex_of(bytes@),
        r@.len() == 2 * bytes@.len(),
        forall|i: int| 0 <= i < r@.len() ==> is_lower_hex_digit(r@[i]),
{
    hex::encode(bytes)
}

/// Relies on `SystemTime::now` and `Duration::as_millis`: milliseconds since
/// the Unix epoch, or zero should the clock read earlier than the epoch.
/// Nothing is promised of the result.
#[verifier::external_body]
pub fn get_time() -> u128 {
    match SystemTime::now().duration_since(UNIX_EPOCH) {
        Ok(d) => d.as_millis(),
        Err(_) => 0,
    }
}

/// The link a block carries to its predecessor, and the mining counter.
#[derive(Debug, Hash)]
pub struct BlockHeader {
    pub prev_hash: String,
    pub nounce: u64,
}

impl Clone for BlockHeader {
    fn clone(&self) -> (r: Self)
        ensures
            r == *self,
    {
        BlockHeader { prev_hash: self.prev_hash.clone(), nounce: self.nounce }
    }
}

/// A block: its mined hash text, its construction time in milliseconds, its
/// header, and the transactions it carries.
#[derive(Debug)]
pub struct Block {
    pub hash: String,
    pub time: u128,
    pub header: BlockHeader,
    pub txn: Vec<Transaction>,
}

impl Clone for Block {
    fn clone(&self) -> (r: Self)
        ensures
            r.hash == self.hash,
            r.time == self.time,
            r.header == self.header,
            r.txn@ == self.txn@,
    {
        let mut txn: Vec<Transaction> = Vec::new();
        let mut k: usize = 0;
        while k < self.txn.len()
            invariant
                0 <= k <= self.txn@.len(),
                txn@.len() == k,
                forall|i: int| 0 <= i < k ==> txn@[i] == self.txn@[i],
            decreases self.txn@.len() - k,
        {
            txn.push(self.txn[k].clone());
            k += 1;
        }
        let r = Block {
            hash: self.hash.clone(),
            time: self.time,
            header: self.header.clone(),
            txn,
        };
        proof {
            assert(r.txn@ =~= self.txn@);
        }
        r
    }
}

/// The hash text the mining step writes next: the hex digest of SHA-256
/// over the bytes of the current hash text.
pub open spec fn next_hash(h: Seq<char>) -> Seq<char> {
    hex_of(sha256_of(encode_utf8(h)))
}

/// The proof-of-work target: the hash text begins with [`HASH_DIFFICULTY`]
/// `'0'` characters.
pub open spec fn hash_meets_difficulty(h: Seq<char>) -> bool {
    &&& h.len() >= HASH_DIFFICULTY
    &&& forall|i: int| 0 <= i < HASH_DIFFICULTY ==> h[i] == '0'
}

/// The `k`-th step of the mining hash chain from `h`: [`next_hash`]
/// iterated `k` times.
pub open spec fn nth_next_hash(h: Seq<char>, k: nat) -> Seq<char>
    decreases k,
{
    if k == 0 {
        h
    } else {
        next_hash(nth_next_hash(h, (k - 1) as nat))
    }
}

/// The mining search from `h` meets the proof-of-work target within its
/// attempt budget: some iterate of the hash chain, within the first
/// `u64::MAX + 1`, begins with enough zeros.
pub open spec fn mining_succeeds(h: Seq<char>) -> bool {
    exists|k: int|
        1 <= k <= u64::MAX + 1 && #[trigger] hash_meets_difficulty(nth_next_hash(h, k as nat))
}

impl Block {
    /// Whether this block's hash meets the proof-of-work target.
    pub fn valid_hash(&self) -> (r: bool)
        ensures
            r == hash_meets_difficulty(self.hash@),
    {
        let s = self.hash.as_str();
        let n = s.unicode_len();
        if n < HASH_DIFFICULTY {
            return false;
        }
        let mut i: usize = 0;
        while i < HASH_DIFFICULTY
            invariant
                0 <= i <= HASH_DIFFICULTY,
                s@ == self.hash@,
                n == self.hash@.len(),
                n >= HASH_DIFFICULTY,
                forall|k: int| 0 <= k < i ==> self.hash@[k] == '0',
            decreases HASH_DIFFICULTY - i,
        {
            if s.get_char(i) != '0' {
                return false;
            }
            i += 1;
        }
        true
    }

    /// One mining step: replace the hash text by the hex digest of SHA-256
    /// over its own bytes — 64 lowercase hex characters.
    pub fn calculate_hash(&mut self)
        ensures
            final(self).hash@ == next_hash(old(self).hash@),
            final(self).hash@.len() == 64,
            forall|i: int|
                0 <= i < final(self).hash@.len() ==> is_lower_hex_digit(final(self).hash@[i]),
            final(self).time == old(self).time,
            final(self).header == old(self).header,
            final(self).txn == old(self).txn,
    {
        let digest = sha256(self.hash.as_str().as_bytes());
        self.hash = hex_encode(digest.as_slice());
    }
}

/// The chain of blocks and the account ledger.
#[derive(Debug)]
pub struct Blockchain {
    pub blocks: Vec<Block>,
    pub accounts: Vec<(crate::transaction::Address, u128)>,
}

/// The chain invariant: a genesis block with empty hash, empty predecessor
/// link, zero nounce and no transactions stands first; every later block
/// links to its predecessor's hash and meets the proof-of-work target.
pub open spec fn chain_wf(blocks: Seq<Block>) -> bool {
    &&& blocks.len() >= 1
    &&& blocks[0].hash@ == Seq::<char>::empty()
    &&& blocks[0].header.prev_hash@ == Seq::<char>::empty()
    &&& blocks[0].header.nounce == 0
    &&& blocks[0].txn@.len() == 0
    &&& forall|i: int| 1 <= i < blocks.len() ==> blocks[i].header.prev_hash@ == blocks[i - 1].hash@
    &&& forall|i: int| 1 <= i < blocks.len() ==> hash_meets_difficulty(blocks[i].hash@)
}

/// Linkage and mined-hash laws: in a well-formed chain, every non-genesis
/// block carries its predecessor's hash in `header.prev_hash`, and its own
/// hash meets the proof-of-work target.
pub proof fn lemma_chain_invariants(bc: Blockchain)
    requires
        bc.wf(),
    ensures
        forall|i: int|
            1 <= i < bc.blocks@.len() ==> bc.blocks@[i].header.prev_hash@ == bc.blocks@[i
                - 1].hash@,
        forall|i: int| 1 <= i < bc.blocks@.len() ==> hash_meets_difficulty(bc.blocks@[i].hash@),
{
}

impl Default for Blockchain {
    fn default() -> (r: Self)
        ensures
            r.wf(),
            r.blocks@.len() == 1,
            spec_lookup(r.accounts@, "a"@) == Some(100u128),
            r.accounts@.len() == 1,
            spec_total(r.accounts@) == 100,
    {
        Self::new()
    }
}

impl Blockchain {
    /// Chain and ledger invariants together.
    pub open spec fn wf(&self) -> bool {
        &&& chain_wf(self.blocks@)
        &&& ledger_wf(self.accounts@)
    }

    /// A chain holding only the genesis block, and the ledger seeded with
    /// the deployment's initial balance.
    pub fn new() -> (r: Self)
        ensures
            r.wf(),
            r.blocks@.len() == 1,
            spec_lookup(r.accounts@, "a"@) == Some(100u128),
            r.accounts@.len() == 1,
            spec_total(r.accounts@) == 100,
    {
        let genesis_block = Block {
            hash: String::new(),
            time: get_time(),
            header: BlockHeader { prev_hash: String::new(), nounce: 0 },
            txn: Vec::new(),
        };
        let mut blocks: Vec<Block> = Vec::new();
        blocks.push(genesis_block);
        let mut accounts: Vec<(String, u128)> = Vec::new();
        accounts.push(("a".to_owned(), 100));
        let r = Blockchain { blocks, accounts };
        proof {
            let e = r.accounts@[0];
            assert(r.accounts@ =~= Seq::<(String, u128)>::empty().push(e));
            lemma_total_push(Seq::<(String, u128)>::empty(), e);
            assert(spec_total(Seq::<(String, u128)>::empty()) == 0);
        }
        r
    }

    /// How many blocks the chain holds.
    pub fn len(&self) -> (r: usize)
        ensures
            r == self.blocks@.len(),
    {
        self.blocks.len()
    }

    /// Whether the chain holds no block at all; never so for a well-formed
    /// chain.
    pub fn is_empty(&self) -> (r: bool)
        ensures
            r == (self.blocks@.len() == 0),
    {
        self.blocks.len() == 0
    }

    /// Whether the sender's entry covers the transaction's amount; a sender
    /// without an entry is always rejected.
    pub fn valid_transaction(blockchain: &Blockchain, tx: &Transaction) -> (r: bool)
        ensures
            r == spec_valid(blockchain.accounts@, *tx),
    {
        match find_account(&blockchain.accounts, &tx.from) {
            Some(p) => blockchain.accounts[p].1 >= tx.amount as u128,
            None => false,
        }
    }

    /// Applies a transaction to the ledger: the sender's balance falls by
    /// the amount when the sender has an entry (no re-validation happens
    /// here), and the receiver's entry rises by the amount, created at the
    /// amount itself when absent.
    pub fn update_account(&mut self, tx: &Transaction)
        requires
            ledger_wf(old(self).accounts@),
            can_apply(ledger_view(old(self).accounts@), *tx),
        ensures
            ledger_wf(final(self).accounts@),
            final(self).blocks == old(self).blocks,
            ledger_view(final(self).accounts@) == spec_apply(
                ledger_view(old(self).accounts@),
                *tx,
            ),
            spec_total(final(self).accounts@) == spec_total(old(self).accounts@) + tx.amount - (
            if spec_lookup(old(self).accounts@, tx.from@) is Some {
                tx.amount as int
            } else {
                0
            }),
    {
        let ghost l0 = self.accounts@;
        let ghost m0 = ledger_view(l0);
        let ghost m1 = if m0.contains_key(tx.from@) {
            m0.insert(tx.from@, m0[tx.from@] - tx.amount)
        } else {
            m0
        };
        let amount = tx.amount as u128;
        match find_account(&self.accounts, &tx.from) {
            Some(p) => {
                let id = self.accounts[p].0.clone();
                let b = self.accounts[p].1;
                proof {
                    assert(m0.contains_key(tx.from@));
                    assert(m0[tx.from@] == b as int);
                }
                let ghost e = (id, (b - amount) as u128);
                self.accounts.set(p, (id, b - amount));
                proof {
                    assert(self.accounts@ == l0.update(p as int, e));
                    lemma_wf_update(l0, p as int, e);
                    lemma_view_update(l0, p as int, e);
                    lemma_total_update(l0, p as int, e);
                    assert(ledger_view(self.accounts@) == m1);
                    assert(spec_total(self.accounts@) == spec_total(l0) - tx.amount);
                }
            },
            None => {
                proof {
                    assert(!m0.contains_key(tx.from@));
                    assert(ledger_view(self.accounts@) == m1);
                }
            },
        }
        let ghost l1 = self.accounts@;
        match find_account(&self.accounts, &tx.to) {
            Some(q) => {
                let id2 = self.accounts[q].0.clone();
                let b2 = self.accounts[q].1;
                proof {
                    assert(m1.contains_key(tx.to@));
                    assert(m1[tx.to@] == b2 as int);
                    if tx.from@ == tx.to@ {
                        assert(b2 + amount <= u128::MAX);
                    } else {
                        assert(m1[tx.to@] == m0[tx.to@]);
                        assert(b2 + amount <= u128::MAX);
                    }
                }
                let ghost e2 = (id2, (b2 + amount) as u128);
                self.accounts.set(q, (id2, b2 + amount));
                proof {
                    assert(self.accounts@ == l1.update(q as int, e2));
                    lemma_wf_update(l1, q as int, e2);
                    lemma_view_update(l1, q as int, e2);
                    lemma_total_update(l1, q as int, e2);
                    assert(ledger_view(self.accounts@) == m1.insert(tx.to@, m1[tx.to@]
                        + tx.amount));
                }
            },
            None => {
                let id2 = tx.to.clone();
                let ghost e2 = (id2, amount);
                self.accounts.push((id2, amount));
                proof {
                    assert(self.accounts@ == l1.push(e2));
                    lemma_wf_push(l1, e2);
                    lemma_view_push(l1, e2);
                    lemma_total_push(l1, e2);
                    assert(!m1.contains_key(tx.to@));
                    assert(ledger_view(self.accounts@) == m1.insert(tx.to@, tx.amount as int));
                }
            },
        }
    }

    /// Mines the block and appends it: the hash is stepped, the nounce
    /// bumped alongside, until the hash meets the proof-of-work target;
    /// then the block's transactions are applied to the ledger in block
    /// order and the block joins the chain. The caller sets
    /// `header.prev_hash` to the current last block's hash beforehand; no
    /// linkage check happens here.
    ///
    /// The search runs for up to `u64::MAX` hash attempts — in expectation
    /// it ends after a few thousand — and reports whether the target was
    /// met: success exactly when some iterate of the hash chain within the
    /// budget meets the target ([`mining_succeeds`]), and the mined hash is
    /// the first such iterate. On the (practically unreachable) exhausted
    /// search it leaves the chain and the ledger untouched.
    pub fn mint(&mut self, block: &mut Block) -> (mined: bool)
        requires
            old(self).wf(),
            old(block).header.prev_hash@ == old(self).blocks@.last().hash@,
            can_apply_all(ledger_view(old(self).accounts@), old(block).txn@),
        ensures
            final(self).wf(),
            final(block).txn@ == old(block).txn@,
            final(block).header.prev_hash@ == old(block).header.prev_hash@,
            final(block).time == old(block).time,
            !mined ==> final(self).blocks@ == old(self).blocks@ && final(self).accounts@ == old(
                self,
            ).accounts@,
            mined ==> final(self).blocks@.len() == old(self).blocks@.len() + 1,
            mined ==> forall|i: int|
                0 <= i < old(self).blocks@.len() ==> final(self).blocks@[i] == old(
                    self,
                ).blocks@[i],
            mined ==> final(self).blocks@.last().txn@ == old(block).txn@,
            mined ==> final(self).blocks@.last().header.prev_hash@ == old(
                block,
            ).header.prev_hash@,
            mined ==> final(self).blocks@.last().time == old(block).time,
            mined ==> hash_meets_difficulty(final(self).blocks@.last().hash@),
            mined ==> ledger_view(final(self).accounts@) == spec_apply_all(
                ledger_view(old(self).accounts@),
                old(block).txn@,
            ),
            mined ==> ((forall|k: int|
                0 <= k < old(block).txn@.len() ==> ledger_view(old(self).accounts@).contains_key(
                    old(block).txn@[k].from@,
                )) ==> spec_total(final(self).accounts@) == spec_total(old(self).accounts@)),
            mined ==> hash_meets_difficulty(final(block).hash@),
            mined == mining_succeeds(old(block).hash@),
            mined ==> final(self).blocks@.last().hash@ == final(block).hash@,
            mined ==> final(self).blocks@.last().header == final(block).header,
            mined ==> exists|k: int|
                1 <= k <= u64::MAX + 1 && final(block).hash@ == nth_next_hash(
                    old(block).hash@,
                    k as nat,
                ) && #[trigger] hash_meets_difficulty(nth_next_hash(old(block).hash@, k as nat))
                    && (forall|j: int|
                    1 <= j < k ==> !hash_meets_difficulty(
                        #[trigger] nth_next_hash(old(block).hash@, j as nat),
                    )),
    {
        let ghost blocks0 = self.blocks@;
        let ghost l0 = self.accounts@;
        let ghost m_init = ledger_view(l0);
        let ghost h0 = block.hash@;
        block.calculate_hash();
        let mut valid = block.valid_hash();
        let mut attempts: u64 = 0;
        proof {
            assert(nth_next_hash(h0, 0) == h0);
            assert(nth_next_hash(h0, 1) == next_hash(nth_next_hash(h0, 0)));
        }
        while !valid && attempts < u64::MAX
            invariant
                valid == hash_meets_difficulty(block.hash@),
                block.header.prev_hash@ == old(block).header.prev_hash@,
                block.txn@ == old(block).txn@,
                block.time == old(block).time,
                h0 == old(block).hash@,
                attempts <= u64::MAX,
                block.hash@ == nth_next_hash(h0, (attempts + 1) as nat),
                forall|j: int|
                    1 <= j <= attempts ==> !hash_meets_difficulty(
                        #[trigger] nth_next_hash(h0, j as nat),
                    ),
            decreases u64::MAX - attempts,
        {
            block.header.nounce = block.header.nounce.wrapping_add(1);
            proof {
                assert(!hash_meets_difficulty(nth_next_hash(h0, (attempts + 1) as nat)));
            }
            block.calculate_hash();
            valid = block.valid_hash();
            attempts = attempts + 1;
            proof {
                assert(nth_next_hash(h0, (attempts + 1) as nat) == next_hash(
                    nth_next_hash(h0, attempts as nat),
                ));
            }
        }
        if !valid {
            proof {
                assert(attempts == u64::MAX);
                assert(!hash_meets_difficulty(nth_next_hash(h0, (attempts + 1) as nat)));
                assert forall|k: int| 1 <= k <= u64::MAX + 1 implies !hash_meets_difficulty(
                    #[trigger] nth_next_hash(h0, k as nat),
                ) by {
                    if k == u64::MAX + 1 {
                        assert(k == attempts + 1);
                    }
                }
                assert(!mining_succeeds(h0));
            }
            return false;
        }
        let ghost mined_k = attempts as int + 1;
        proof {
            assert(1 <= mined_k <= u64::MAX + 1);
            assert(block.hash@ == nth_next_hash(h0, mined_k as nat));
            assert(hash_meets_difficulty(nth_next_hash(h0, mined_k as nat)));
            assert(mining_succeeds(h0));
            assert(forall|j: int|
                1 <= j < mined_k ==> !hash_meets_difficulty(#[trigger] nth_next_hash(h0, j as nat)));
        }
        let n = block.txn.len();
        proof {
            assert(block.txn@.skip(0) =~= block.txn@);
            assert(block.txn@.take(0) =~= Seq::<Transaction>::empty());
            assert(spec_apply_all(m_init, block.txn@.take(0)) == m_init);
        }
        let mut k: usize = 0;
        while k < n
            invariant
                n == block.txn@.len(),
                0 <= k <= n,
                block.txn@ == old(block).txn@,
                hash_meets_difficulty(block.hash@),
                block.header.prev_hash@ == old(block).header.prev_hash@,
                block.time == old(block).time,
                ledger_wf(self.accounts@),
                self.blocks@ == blocks0,
                ledger_view(self.accounts@) == spec_apply_all(m_init, block.txn@.take(k as int)),
                can_apply_all(ledger_view(self.accounts@), block.txn@.skip(k as int)),
                forall|id: Seq<char>|
                    m_init.contains_key(id) ==> #[trigger] ledger_view(
                        self.accounts@,
                    ).contains_key(id),
                (forall|j: int|
                    0 <= j < n ==> m_init.contains_key(block.txn@[j].from@)) ==> spec_total(
                    self.accounts@,
                ) == spec_total(l0),
            decreases n - k,
        {
            let ghost mv = ledger_view(self.accounts@);
            let ghost rest = block.txn@.skip(k as int);
            proof {
                assert(rest[0] == block.txn@[k as int]);
                assert(rest.drop_first() =~= block.txn@.skip(k as int + 1));
                assert(can_apply(mv, rest[0]));
            }
            self.update_account(&block.txn[k]);
            proof {
                lemma_apply_all_push(m_init, block.txn@.take(k as int), block.txn@[k as int]);
                assert(block.txn@.take(k as int).push(block.txn@[k as int]) =~= block.txn@.take(
                    k as int + 1,
                ));
                lemma_apply_monotone(mv, block.txn@[k as int]);
            }
            k += 1;
        }
        proof {
            assert(block.txn@.take(n as int) =~= block.txn@);
        }
        let ghost l1 = self.accounts@;
        self.blocks.push(block.clone());
        proof {
            assert(1 <= mined_k <= u64::MAX + 1 && block.hash@ == nth_next_hash(
                h0,
                mined_k as nat,
            ) && hash_meets_difficulty(nth_next_hash(h0, mined_k as nat)));
            let bs = self.blocks@;
            assert(bs.last() == bs[blocks0.len() as int]);
            assert(forall|i: int| 0 <= i < blocks0.len() ==> bs[i] == blocks0[i]);
            assert(chain_wf(bs)) by {
                assert(bs[0] == blocks0[0]);
                assert forall|i: int|
                    1 <= i < bs.len() implies bs[i].header.prev_hash@ == bs[i - 1].hash@
                    && hash_meets_difficulty(bs[i].hash@) by {
                    if i < blocks0.len() {
                        assert(bs[i] == blocks0[i]);
                    } else {
                        assert(bs[i - 1] == blocks0.last());
                    }
                }
            }
        }
        true
    }

    /// The chain's final block.
    pub fn get_last_block(&self) -> (r: &Block)
        requires
            self.blocks@.len() >= 1,
        ensures
            *r == self.blocks@.last(),
    {
        &self.blocks[self.blocks.len() - 1]
    }
}

} // verus!

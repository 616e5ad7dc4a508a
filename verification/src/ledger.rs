//! The account ledger: balances keyed by account identifier.
//!
//! The ledger is held as a list of `(identifier, balance)` entries in which
//! each identifier appears at most once. Its mathematical model is the map
//! [`ledger_view`] from identifier characters to balance, together with the
//! total supply [`spec_total`].

use vstd::prelude::*;
use crate::transaction::Transaction;

verus! {

/// Ledger entries name each account at most once.
pub open spec fn ledger_wf(l: Seq<(String, u128)>) -> bool {
    forall|p: int, q: int| 0 <= p < q < l.len() ==> l[p].0@ != l[q].0@
}

/// The balance the ledger holds for `id`: the first entry whose identifier
/// matches, scanned front to back.
pub open spec fn spec_lookup(l: Seq<(String, u128)>, id: Seq<char>) -> Option<u128>
    decreases l.len(),
{
    if l.len() == 0 {
        None
    } else if l[0].0@ == id {
        Some(l[0].1)
    } else {
        spec_lookup(l.drop_first(), id)
    }
}

/// The sum of all balances the ledger holds.
pub open spec fn spec_total(l: Seq<(String, u128)>) -> int
    decreases l.len(),
{
    if l.len() == 0 {
        0
    } else {
        l[0].1 + spec_total(l.drop_first())
    }
}

/// The ledger as a map from account identifier to balance.
pub open spec fn ledger_view(l: Seq<(String, u128)>) -> Map<Seq<char>, int> {
    Map::new(
        |id: Seq<char>| spec_lookup(l, id) is Some,
        |id: Seq<char>| spec_lookup(l, id).unwrap() as int,
    )
}

/// What applying a transaction does to the ledger map: the sender's balance
/// falls by the amount when the sender has an entry, and the receiver's
/// entry rises by the amount, created at the amount itself when absent.
pub open spec fn spec_apply(m: Map<Seq<char>, int>, tx: Transaction) -> Map<Seq<char>, int> {
    let m1 = if m.contains_key(tx.from@) {
        m.insert(tx.from@, m[tx.from@] - tx.amount)
    } else {
        m
    };
    if m1.contains_key(tx.to@) {
        m1.insert(tx.to@, m1[tx.to@] + tx.amount)
    } else {
        m1.insert(tx.to@, tx.amount as int)
    }
}

/// Applying a sequence of transactions in order.
pub open spec fn spec_apply_all(m: Map<Seq<char>, int>, txns: Seq<Transaction>) -> Map<
    Seq<char>,
    int,
>
    decreases txns.len(),
{
    if txns.len() == 0 {
        m
    } else {
        spec_apply_all(spec_apply(m, txns[0]), txns.drop_first())
    }
}

/// The machine-level side condition under which applying `tx` neither
/// drives the sender's balance below zero nor the receiver's above `u128`.
pub open spec fn can_apply(m: Map<Seq<char>, int>, tx: Transaction) -> bool {
    &&& m.contains_key(tx.from@) ==> m[tx.from@] >= tx.amount
    &&& tx.from@ != tx.to@ && m.contains_key(tx.to@) ==> m[tx.to@] + tx.amount <= u128::MAX
}

/// The side condition for applying a whole sequence of transactions in order.
pub open spec fn can_apply_all(m: Map<Seq<char>, int>, txns: Seq<Transaction>) -> bool
    decreases txns.len(),
{
    txns.len() == 0 || (can_apply(m, txns[0]) && can_apply_all(
        spec_apply(m, txns[0]),
        txns.drop_first(),
    ))
}

/// A transaction passes validation exactly when its sender has an entry
/// whose balance covers the amount.
pub open spec fn spec_valid(l: Seq<(String, u128)>, tx: Transaction) -> bool {
    match spec_lookup(l, tx.from@) {
        Some(balance) => balance >= tx.amount,
        None => false,
    }
}

/// Applying a transaction never removes an account from the ledger map.
pub proof fn lemma_apply_monotone(m: Map<Seq<char>, int>, tx: Transaction)
    ensures
        forall|id: Seq<char>|
            m.contains_key(id) ==> #[trigger] spec_apply(m, tx).contains_key(id),
{
}

/// Applying one more transaction at the end applies it to the result of the
/// ones before.
pub proof fn lemma_apply_all_push(m: Map<Seq<char>, int>, txns: Seq<Transaction>, tx: Transaction)
    ensures
        spec_apply_all(m, txns.push(tx)) == spec_apply(spec_apply_all(m, txns), tx),
    decreases txns.len(),
{
    let s = txns.push(tx);
    assert(s.len() == txns.len() + 1);
    if txns.len() == 0 {
        assert(s[0] == tx);
        assert(s.drop_first() =~= Seq::<Transaction>::empty());
        assert(spec_apply_all(spec_apply(m, tx), s.drop_first()) == spec_apply(m, tx));
        assert(spec_apply_all(m, txns) == m);
    } else {
        assert(s[0] == txns[0]);
        assert(s.drop_first() =~= txns.drop_first().push(tx));
        lemma_apply_all_push(spec_apply(m, txns[0]), txns.drop_first(), tx);
        assert(spec_apply_all(spec_apply(m, s[0]), s.drop_first()) == spec_apply(
            spec_apply_all(spec_apply(m, txns[0]), txns.drop_first()),
            tx,
        ));
    }
}

/// One more transaction at the end can be applied exactly when the ones
/// before can and it can follow them.
pub proof fn lemma_can_apply_all_push(m: Map<Seq<char>, int>, txns: Seq<Transaction>, tx: Transaction)
    ensures
        can_apply_all(m, txns.push(tx)) == (can_apply_all(m, txns) && can_apply(
            spec_apply_all(m, txns),
            tx,
        )),
    decreases txns.len(),
{
    let s = txns.push(tx);
    assert(s.len() == txns.len() + 1);
    if txns.len() == 0 {
        assert(s[0] == tx);
        assert(s.drop_first() =~= Seq::<Transaction>::empty());
        assert(can_apply_all(spec_apply(m, tx), s.drop_first()));
        assert(spec_apply_all(m, txns) == m);
    } else {
        assert(s[0] == txns[0]);
        assert(s.drop_first() =~= txns.drop_first().push(tx));
        lemma_can_apply_all_push(spec_apply(m, txns[0]), txns.drop_first(), tx);
        lemma_apply_all_push(m, txns, tx);
        assert(spec_apply_all(spec_apply(m, txns[0]), txns.drop_first()) == spec_apply_all(
            m,
            txns,
        ));
    }
}

/// A sequence that can be applied can be applied at every step along the way.
pub proof fn lemma_can_apply_all_index(m: Map<Seq<char>, int>, s: Seq<Transaction>, k: int)
    requires
        can_apply_all(m, s),
        0 <= k < s.len(),
    ensures
        can_apply(spec_apply_all(m, s.take(k)), s[k]),
    decreases k,
{
    if k == 0 {
        assert(s.take(0) =~= Seq::<Transaction>::empty());
        assert(spec_apply_all(m, s.take(0)) == m);
    } else {
        lemma_can_apply_all_index(spec_apply(m, s[0]), s.drop_first(), k - 1);
        assert(s.drop_first()[k - 1] == s[k]);
        assert(s.take(k)[0] == s[0]);
        assert(s.take(k).drop_first() =~= s.drop_first().take(k - 1));
        assert(spec_apply_all(m, s.take(k)) == spec_apply_all(
            spec_apply(m, s.take(k)[0]),
            s.take(k).drop_first(),
        ));
    }
}

/// The first matching entry decides the lookup.
pub proof fn lemma_lookup_match(l: Seq<(String, u128)>, m: int)
    requires
        0 <= m < l.len(),
        forall|k: int| 0 <= k < m ==> l[k].0@ != l[m].0@,
    ensures
        spec_lookup(l, l[m].0@) == Some(l[m].1),
    decreases m,
{
    if m > 0 {
        assert(l.drop_first()[m - 1] == l[m]);
        lemma_lookup_match(l.drop_first(), m - 1);
    }
}

/// An identifier no entry carries looks up to nothing.
pub proof fn lemma_lookup_absent(l: Seq<(String, u128)>, id: Seq<char>)
    requires
        forall|k: int| 0 <= k < l.len() ==> l[k].0@ != id,
    ensures
        spec_lookup(l, id) is None,
    decreases l.len(),
{
    if l.len() > 0 {
        lemma_lookup_absent(l.drop_first(), id);
    }
}

/// An identifier that looks up to nothing is carried by no entry.
pub proof fn lemma_lookup_none_no_index(l: Seq<(String, u128)>, id: Seq<char>)
    requires
        spec_lookup(l, id) is None,
    ensures
        forall|k: int| 0 <= k < l.len() ==> l[k].0@ != id,
    decreases l.len(),
{
    if l.len() > 0 {
        lemma_lookup_none_no_index(l.drop_first(), id);
        assert forall|k: int| 0 <= k < l.len() implies l[k].0@ != id by {
            if k > 0 {
                assert(l.drop_first()[k - 1] == l[k]);
            }
        }
    }
}

/// Overwriting the first matching entry changes that identifier's lookup
/// and no other.
pub proof fn lemma_lookup_update(l: Seq<(String, u128)>, p: int, e: (String, u128), id: Seq<char>)
    requires
        0 <= p < l.len(),
        e.0@ == l[p].0@,
        forall|k: int| 0 <= k < p ==> l[k].0@ != l[p].0@,
    ensures
        spec_lookup(l.update(p, e), id) == if id == e.0@ {
            Some(e.1)
        } else {
            spec_lookup(l, id)
        },
    decreases p,
{
    if p == 0 {
        assert(l.update(0, e).drop_first() =~= l.drop_first());
    } else {
        assert(l.update(p, e).drop_first() =~= l.drop_first().update(p - 1, e));
        assert(l.drop_first()[p - 1] == l[p]);
        lemma_lookup_update(l.drop_first(), p - 1, e, id);
    }
}

/// Overwriting one entry moves the total by the difference of the balances.
pub proof fn lemma_total_update(l: Seq<(String, u128)>, p: int, e: (String, u128))
    requires
        0 <= p < l.len(),
    ensures
        spec_total(l.update(p, e)) == spec_total(l) - l[p].1 + e.1,
    decreases p,
{
    if p == 0 {
        assert(l.update(0, e).drop_first() =~= l.drop_first());
    } else {
        assert(l.update(p, e).drop_first() =~= l.drop_first().update(p - 1, e));
        assert(l.drop_first()[p - 1] == l[p]);
        lemma_total_update(l.drop_first(), p - 1, e);
    }
}

/// Appending an entry answers for its identifier only where the existing
/// entries do not.
pub proof fn lemma_lookup_push(l: Seq<(String, u128)>, e: (String, u128), id: Seq<char>)
    ensures
        spec_lookup(l.push(e), id) == if spec_lookup(l, id) is Some {
            spec_lookup(l, id)
        } else if e.0@ == id {
            Some(e.1)
        } else {
            None
        },
    decreases l.len(),
{
    let lp = l.push(e);
    assert(lp.len() == l.len() + 1);
    if l.len() == 0 {
        assert(lp[0] == e);
        assert(lp.drop_first() =~= Seq::<(String, u128)>::empty());
        assert(spec_lookup(lp.drop_first(), id) is None);
    } else {
        assert(lp[0] == l[0]);
        assert(lp.drop_first() =~= l.drop_first().push(e));
        lemma_lookup_push(l.drop_first(), e, id);
        assert(spec_lookup(lp.drop_first(), id) == spec_lookup(l.drop_first().push(e), id));
    }
}

/// Appending an entry adds its balance to the total.
pub proof fn lemma_total_push(l: Seq<(String, u128)>, e: (String, u128))
    ensures
        spec_total(l.push(e)) == spec_total(l) + e.1,
    decreases l.len(),
{
    let lp = l.push(e);
    assert(lp.len() == l.len() + 1);
    if l.len() == 0 {
        assert(lp[0] == e);
        assert(lp.drop_first() =~= Seq::<(String, u128)>::empty());
        assert(spec_total(lp.drop_first()) == 0);
    } else {
        assert(lp[0] == l[0]);
        assert(lp.drop_first() =~= l.drop_first().push(e));
        lemma_total_push(l.drop_first(), e);
        assert(spec_total(lp.drop_first()) == spec_total(l.drop_first()) + e.1);
    }
}

/// An identifier that looks up to a balance is carried by an entry with
/// that balance.
pub proof fn lemma_lookup_some_index(l: Seq<(String, u128)>, id: Seq<char>)
    requires
        spec_lookup(l, id) is Some,
    ensures
        exists|k: int|
            0 <= k < l.len() && l[k].0@ == id && l[k].1 == spec_lookup(l, id).unwrap(),
    decreases l.len(),
{
    if l[0].0@ == id {
        assert(l[0].0@ == id && l[0].1 == spec_lookup(l, id).unwrap());
    } else {
        lemma_lookup_some_index(l.drop_first(), id);
        let k = choose|k: int|
            0 <= k < l.drop_first().len() && l.drop_first()[k].0@ == id && l.drop_first()[k].1
                == spec_lookup(l.drop_first(), id).unwrap();
        assert(l[k + 1].0@ == id && l[k + 1].1 == spec_lookup(l, id).unwrap());
    }
}

/// Removing an entry keeps the ledger well formed.
pub proof fn lemma_wf_remove(l: Seq<(String, u128)>, k: int)
    requires
        ledger_wf(l),
        0 <= k < l.len(),
    ensures
        ledger_wf(l.remove(k)),
{
    assert forall|p: int, q: int|
        0 <= p < q < l.remove(k).len() implies l.remove(k)[p].0@ != l.remove(k)[q].0@ by {
        assert(l.remove(k)[p] == (if p < k {
            l[p]
        } else {
            l[p + 1]
        }));
        assert(l.remove(k)[q] == (if q < k {
            l[q]
        } else {
            l[q + 1]
        }));
    }
}

/// Removing an entry takes its identifier's lookup away and no other.
pub proof fn lemma_lookup_remove(l: Seq<(String, u128)>, k: int, id: Seq<char>)
    requires
        ledger_wf(l),
        0 <= k < l.len(),
    ensures
        spec_lookup(l.remove(k), id) == if id == l[k].0@ {
            None::<u128>
        } else {
            spec_lookup(l, id)
        },
    decreases k,
{
    if k == 0 {
        assert(l.remove(0) =~= l.drop_first());
        if id == l[0].0@ {
            assert forall|j: int| 0 <= j < l.drop_first().len() implies l.drop_first()[j].0@
                != id by {
                assert(l.drop_first()[j] == l[j + 1]);
            }
            lemma_lookup_absent(l.drop_first(), id);
        }
    } else {
        assert(l.remove(k)[0] == l[0]);
        assert(l.remove(k).drop_first() =~= l.drop_first().remove(k - 1));
        assert(l.drop_first()[k - 1] == l[k]);
        lemma_lookup_remove(l.drop_first(), k - 1, id);
    }
}

/// Removing an entry takes its balance out of the total.
pub proof fn lemma_total_remove(l: Seq<(String, u128)>, k: int)
    requires
        0 <= k < l.len(),
    ensures
        spec_total(l.remove(k)) == spec_total(l) - l[k].1,
    decreases k,
{
    if k == 0 {
        assert(l.remove(0) =~= l.drop_first());
    } else {
        assert(l.remove(k)[0] == l[0]);
        assert(l.remove(k).drop_first() =~= l.drop_first().remove(k - 1));
        assert(l.drop_first()[k - 1] == l[k]);
        lemma_total_remove(l.drop_first(), k - 1);
    }
}

/// Two well-formed ledgers with the same map carry the same total: the
/// total is a property of the balances, not of the entries' order.
pub proof fn lemma_view_determines_total(l0: Seq<(String, u128)>, l1: Seq<(String, u128)>)
    requires
        ledger_wf(l0),
        ledger_wf(l1),
        ledger_view(l0) == ledger_view(l1),
    ensures
        spec_total(l0) == spec_total(l1),
    decreases l0.len(),
{
    if l0.len() == 0 {
        if l1.len() > 0 {
            lemma_lookup_match(l1, 0);
            assert(ledger_view(l1).contains_key(l1[0].0@));
            assert(spec_lookup(l0, l1[0].0@) is None);
            assert(false);
        }
    } else {
        let id = l0[0].0@;
        let b = l0[0].1;
        lemma_lookup_match(l0, 0);
        assert(ledger_view(l0).contains_key(id));
        assert(spec_lookup(l1, id) is Some);
        lemma_lookup_some_index(l1, id);
        let k = choose|k: int|
            0 <= k < l1.len() && l1[k].0@ == id && l1[k].1 == spec_lookup(l1, id).unwrap();
        assert(ledger_view(l0)[id] == b as int);
        assert(ledger_view(l1)[id] == spec_lookup(l1, id).unwrap() as int);
        assert(l1[k].1 == b);
        let r0 = l0.remove(0);
        let r1 = l1.remove(k);
        lemma_wf_remove(l0, 0);
        lemma_wf_remove(l1, k);
        lemma_total_remove(l0, 0);
        lemma_total_remove(l1, k);
        assert forall|idx: Seq<char>| #[trigger]
            spec_lookup(r0, idx) == spec_lookup(r1, idx) by {
            lemma_lookup_remove(l0, 0, idx);
            lemma_lookup_remove(l1, k, idx);
            if idx != id {
                assert(ledger_view(l0).contains_key(idx) == ledger_view(l1).contains_key(idx));
                if spec_lookup(l0, idx) is Some {
                    assert(ledger_view(l0).contains_key(idx));
                    assert(spec_lookup(l1, idx) is Some);
                    assert(ledger_view(l0)[idx] == spec_lookup(l0, idx).unwrap() as int);
                    assert(ledger_view(l1)[idx] == spec_lookup(l1, idx).unwrap() as int);
                    assert(spec_lookup(l0, idx).unwrap() == spec_lookup(l1, idx).unwrap());
                    assert(spec_lookup(l0, idx) == spec_lookup(l1, idx));
                } else {
                    assert(!ledger_view(l0).contains_key(idx));
                    assert(spec_lookup(l1, idx) is None);
                }
            }
        }
        assert(ledger_view(r0) =~= ledger_view(r1));
        lemma_view_determines_total(r0, r1);
    }
}

/// Conservation law: applying a transaction that passed validation moves
/// balance between accounts and never changes the total supply.
pub proof fn lemma_ledger_conservation(
    l0: Seq<(String, u128)>,
    l1: Seq<(String, u128)>,
    tx: Transaction,
)
    requires
        ledger_wf(l0),
        ledger_wf(l1),
        spec_valid(l0, tx),
        ledger_view(l1) == spec_apply(ledger_view(l0), tx),
    ensures
        spec_total(l1) == spec_total(l0),
{
    let m0 = ledger_view(l0);
    let m1 = ledger_view(l1);
    let f = tx.from@;
    let t = tx.to@;
    let a = tx.amount as int;
    let b = spec_lookup(l0, f).unwrap();
    assert(m0.contains_key(f));
    assert(m0[f] == b as int);
    if f == t {
        assert(m1 =~= m0);
        lemma_view_determines_total(l0, l1);
    } else {
        assert(m1.contains_key(f) && m1[f] == b - a);
        lemma_lookup_some_index(l0, f);
        let kf0 = choose|k: int|
            0 <= k < l0.len() && l0[k].0@ == f && l0[k].1 == spec_lookup(l0, f).unwrap();
        assert(spec_lookup(l1, f) is Some);
        let c = spec_lookup(l1, f).unwrap();
        assert(m1[f] == c as int);
        lemma_lookup_some_index(l1, f);
        let kf1 = choose|k: int|
            0 <= k < l1.len() && l1[k].0@ == f && l1[k].1 == spec_lookup(l1, f).unwrap();
        let r0 = l0.remove(kf0);
        let r1 = l1.remove(kf1);
        lemma_wf_remove(l0, kf0);
        lemma_wf_remove(l1, kf1);
        lemma_total_remove(l0, kf0);
        lemma_total_remove(l1, kf1);
        assert(m1.contains_key(t));
        assert(spec_lookup(l1, t) is Some);
        let d1 = spec_lookup(l1, t).unwrap();
        assert(m1[t] == d1 as int);
        lemma_lookup_remove(l1, kf1, t);
        lemma_lookup_some_index(r1, t);
        let kt1 = choose|k: int|
            0 <= k < r1.len() && r1[k].0@ == t && r1[k].1 == spec_lookup(r1, t).unwrap();
        let s1 = r1.remove(kt1);
        lemma_wf_remove(r1, kt1);
        lemma_total_remove(r1, kt1);
        if m0.contains_key(t) {
            let d = spec_lookup(l0, t).unwrap();
            assert(m0[t] == d as int);
            assert(m1[t] == d + a);
            lemma_lookup_remove(l0, kf0, t);
            lemma_lookup_some_index(r0, t);
            let kt0 = choose|k: int|
                0 <= k < r0.len() && r0[k].0@ == t && r0[k].1 == spec_lookup(r0, t).unwrap();
            let s0 = r0.remove(kt0);
            lemma_wf_remove(r0, kt0);
            lemma_total_remove(r0, kt0);
            assert forall|idx: Seq<char>| #[trigger]
                spec_lookup(s0, idx) == spec_lookup(s1, idx) by {
                lemma_lookup_remove(r0, kt0, idx);
                lemma_lookup_remove(r1, kt1, idx);
                lemma_lookup_remove(l0, kf0, idx);
                lemma_lookup_remove(l1, kf1, idx);
                if idx != f && idx != t {
                    assert(m1.contains_key(idx) == m0.contains_key(idx));
                    if spec_lookup(l0, idx) is Some {
                        assert(m0.contains_key(idx));
                        assert(spec_lookup(l1, idx) is Some);
                        assert(m0[idx] == spec_lookup(l0, idx).unwrap() as int);
                        assert(m1[idx] == spec_lookup(l1, idx).unwrap() as int);
                        assert(m1[idx] == m0[idx]);
                        assert(spec_lookup(l0, idx) == spec_lookup(l1, idx));
                    } else {
                        assert(!m0.contains_key(idx));
                        assert(spec_lookup(l1, idx) is None);
                    }
                }
            }
            assert(ledger_view(s0) =~= ledger_view(s1));
            lemma_view_determines_total(s0, s1);
            assert(spec_total(l0) == spec_total(s0) + d + b);
            assert(spec_total(l1) == spec_total(s1) + d1 + c);
        } else {
            assert(m1[t] == a);
            lemma_lookup_remove(l0, kf0, t);
            assert forall|idx: Seq<char>| #[trigger]
                spec_lookup(r0, idx) == spec_lookup(s1, idx) by {
                lemma_lookup_remove(r1, kt1, idx);
                lemma_lookup_remove(l0, kf0, idx);
                lemma_lookup_remove(l1, kf1, idx);
                if idx == t {
                    assert(spec_lookup(r0, t) is None);
                } else if idx != f {
                    assert(m1.contains_key(idx) == m0.contains_key(idx));
                    if spec_lookup(l0, idx) is Some {
                        assert(m0.contains_key(idx));
                        assert(spec_lookup(l1, idx) is Some);
                        assert(m0[idx] == spec_lookup(l0, idx).unwrap() as int);
                        assert(m1[idx] == spec_lookup(l1, idx).unwrap() as int);
                        assert(m1[idx] == m0[idx]);
                        assert(spec_lookup(l0, idx) == spec_lookup(l1, idx));
                    } else {
                        assert(!m0.contains_key(idx));
                        assert(spec_lookup(l1, idx) is None);
                    }
                }
            }
            assert(ledger_view(r0) =~= ledger_view(s1));
            lemma_view_determines_total(r0, s1);
            assert(spec_total(l0) == spec_total(r0) + b);
            assert(spec_total(l1) == spec_total(s1) + d1 + c);
        }
    }
}

/// Overwriting the first matching entry keeps the ledger well formed.
pub proof fn lemma_wf_update(l: Seq<(String, u128)>, p: int, e: (String, u128))
    requires
        ledger_wf(l),
        0 <= p < l.len(),
        e.0@ == l[p].0@,
    ensures
        ledger_wf(l.update(p, e)),
{
}

/// Appending an entry for a fresh identifier keeps the ledger well formed.
pub proof fn lemma_wf_push(l: Seq<(String, u128)>, e: (String, u128))
    requires
        ledger_wf(l),
        spec_lookup(l, e.0@) is None,
    ensures
        ledger_wf(l.push(e)),
{
    lemma_lookup_none_no_index(l, e.0@);
}

/// On the map model, overwriting the entry for an identifier is insertion.
pub proof fn lemma_view_update(l: Seq<(String, u128)>, p: int, e: (String, u128))
    requires
        0 <= p < l.len(),
        e.0@ == l[p].0@,
        forall|k: int| 0 <= k < p ==> l[k].0@ != l[p].0@,
    ensures
        ledger_view(l.update(p, e)) =~= ledger_view(l).insert(e.0@, e.1 as int),
{
    assert forall|id: Seq<char>|
        spec_lookup(l.update(p, e), id) == (if id == e.0@ {
            Some(e.1)
        } else {
            spec_lookup(l, id)
        }) by {
        lemma_lookup_update(l, p, e, id);
    }
}

/// On the map model, appending an entry for a fresh identifier is insertion.
pub proof fn lemma_view_push(l: Seq<(String, u128)>, e: (String, u128))
    requires
        spec_lookup(l, e.0@) is None,
    ensures
        ledger_view(l.push(e)) =~= ledger_view(l).insert(e.0@, e.1 as int),
{
    assert forall|id: Seq<char>|
        spec_lookup(l.push(e), id) == (if id == e.0@ {
            Some(e.1)
        } else {
            spec_lookup(l, id)
        }) by {
        lemma_lookup_push(l, e, id);
    }
}

/// The index of the entry for `id`, scanning front to back.
pub(crate) fn find_account(accounts: &Vec<(String, u128)>, id: &String) -> (r: Option<usize>)
    ensures
        match r {
            Some(p) => {
                &&& p < accounts@.len()
                &&& accounts@[p as int].0@ == id@
                &&& forall|k: int| 0 <= k < p ==> accounts@[k].0@ != id@
                &&& spec_lookup(accounts@, id@) == Some(accounts@[p as int].1)
            },
            None => spec_lookup(accounts@, id@) is None,
        },
{
    let n = accounts.len();
    let mut p: usize = 0;
    while p < n
        invariant
            n == accounts@.len(),
            0 <= p <= n,
            forall|k: int| 0 <= k < p ==> accounts@[k].0@ != id@,
        decreases n - p,
    {
        if accounts[p].0 == *id {
            proof {
                lemma_lookup_match(accounts@, p as int);
            }
            return Some(p);
        }
        p += 1;
    }
    proof {
        lemma_lookup_absent(accounts@, id@);
    }
    None
}

} // verus!

//! The transaction value and its wire codec.
//!
//! A transaction is encoded as `from-bytes ++ 0x00 ++ to-bytes ++ 0x00 ++
//! amount-byte`, where the account identifiers are UTF-8 text and the amount
//! is a single byte.

use vstd::prelude::*;
use vstd::utf8::{encode_utf8, decode_utf8, valid_utf8};
use vstd::slice::{slice_index_get, slice_subrange, slice_to_vec};

verus! {

/// An account identifier: UTF-8 text.
pub type Address = String;

/// A transfer of `amount` units from the `from` account to the `to` account.
#[derive(Debug)]
pub struct Transaction {
    pub from: Address,
    pub to: Address,
    pub amount: u8,
}

impl Clone for Transaction {
    fn clone(&self) -> (r: Self)
        ensures
            r == *self,
    {
        Transaction { from: self.from.clone(), to: self.to.clone(), amount: self.amount }
    }
}

/// The byte encoding of a transaction with the given fields.
pub open spec fn spec_encode(from: Seq<char>, to: Seq<char>, amount: u8) -> Seq<u8> {
    encode_utf8(from) + seq![0u8] + encode_utf8(to) + seq![0u8] + seq![amount]
}

/// A value with a deterministic byte encoding.
pub trait Encodable {
    /// The bytes that `encode` produces.
    spec fn encoding(&self) -> Seq<u8>;

    fn encode(&self) -> (r: Vec<u8>)
        ensures
            r@ == self.encoding(),
    ;
}

impl Encodable for Transaction {
    open spec fn encoding(&self) -> Seq<u8> {
        spec_encode(self.from@, self.to@, self.amount)
    }

    fn encode(&self) -> (r: Vec<u8>)
        ensures
            r@ == self.encoding(),
    {
        let mut v: Vec<u8> = Vec::new();
        v.extend_from_slice(self.from.as_str().as_bytes());
        v.push(0);
        v.extend_from_slice(self.to.as_str().as_bytes());
        v.push(0);
        v.push(self.amount);
        proof {
            assert(v@ =~= spec_encode(self.from@, self.to@, self.amount));
        }
        v
    }
}

/// Relies on `String::from_utf8`: it succeeds exactly on valid UTF-8 input
/// and then returns the string whose characters decode those bytes.
#[verifier::external_body]
fn utf8_to_string(bytes: Vec<u8>) -> (r: Option<String>)
    ensures
        r is Some <==> valid_utf8(bytes@),
        r is Some ==> r.unwrap()@ == decode_utf8(bytes@),
{
    String::from_utf8(bytes).ok()
}

/// The index of the first zero byte in `s` at or after `i`, or `s.len()`
/// when no zero byte follows.
pub open spec fn find_zero(s: Seq<u8>, i: int) -> int
    decreases s.len() - i when 0 <= i <= s.len()
{
    if i >= s.len() {
        s.len() as int
    } else if s[i] == 0 {
        i
    } else {
        find_zero(s, i + 1)
    }
}

proof fn lemma_find_zero_at(s: Seq<u8>, from: int, i: int)
    requires
        0 <= from <= i <= s.len(),
        forall|k: int| from <= k < i ==> s[k] != 0,
        i == s.len() || s[i] == 0,
    ensures
        find_zero(s, from) == i,
    decreases i - from,
{
    if from < i {
        lemma_find_zero_at(s, from + 1, i);
    }
}

/// What `Transaction::decode` makes of a byte sequence: the `from` and `to`
/// identifier characters and the amount byte, or nothing when the bytes do
/// not carry a transaction.
pub open spec fn spec_decode(s: Seq<u8>) -> Option<(Seq<char>, Seq<char>, u8)> {
    let i = find_zero(s, 0);
    let j = find_zero(s, i + 1);
    if s.len() < 3 || i == s.len() || j == s.len() || j + 1 == s.len() || s[j + 1] == 0 {
        None
    } else {
        let f = s.subrange(0, i);
        let t = s.subrange(i + 1, j);
        if valid_utf8(f) && valid_utf8(t) {
            Some((decode_utf8(f), decode_utf8(t), s[j + 1]))
        } else {
            None
        }
    }
}

proof fn lemma_find_zero_props(s: Seq<u8>, from: int)
    requires
        0 <= from <= s.len(),
    ensures
        ({
            let r = find_zero(s, from);
            &&& from <= r <= s.len()
            &&& r < s.len() ==> s[r] == 0
            &&& forall|k: int| from <= k < r ==> s[k] != 0
        }),
    decreases s.len() - from,
{
    if from < s.len() && s[from] != 0 {
        lemma_find_zero_props(s, from + 1);
    }
}

/// Round-trip law: decoding an encoded transaction yields the transaction
/// back, whenever neither identifier's byte encoding embeds a zero byte and
/// the amount byte is itself not zero.
pub proof fn lemma_encode_decode(tx: Transaction)
    requires
        forall|i: int| 0 <= i < encode_utf8(tx.from@).len() ==> encode_utf8(tx.from@)[i] != 0,
        forall|i: int| 0 <= i < encode_utf8(tx.to@).len() ==> encode_utf8(tx.to@)[i] != 0,
        tx.amount != 0,
    ensures
        spec_decode(tx.encoding()) == Some((tx.from@, tx.to@, tx.amount)),
{
    broadcast use vstd::utf8::encode_utf8_valid_utf8, vstd::utf8::encode_utf8_decode_utf8;

    let ef = encode_utf8(tx.from@);
    let et = encode_utf8(tx.to@);
    let s = spec_encode(tx.from@, tx.to@, tx.amount);
    let i = ef.len() as int;
    let j = i + 1 + et.len();
    assert(s.len() == ef.len() + et.len() + 3);
    assert(forall|k: int| 0 <= k < i ==> s[k] == ef[k]);
    assert(s[i] == 0);
    assert(forall|k: int| i + 1 <= k < j ==> s[k] == et[k - i - 1]);
    assert(s[j] == 0);
    assert(s[j + 1] == tx.amount);
    lemma_find_zero_at(s, 0, i);
    lemma_find_zero_at(s, i + 1, j);
    assert(s.subrange(0, i) =~= ef);
    assert(s.subrange(i + 1, j) =~= et);
    assert(valid_utf8(ef));
    assert(valid_utf8(et));
    assert(decode_utf8(ef) == tx.from@);
    assert(decode_utf8(et) == tx.to@);
}

/// Robustness law: a decoded transaction only ever comes from at least
/// three bytes, with at least two zero-byte separators, whose identifier
/// segments are valid UTF-8.
pub proof fn lemma_decode_robustness(s: Seq<u8>)
    ensures
        spec_decode(s) is Some ==> s.len() >= 3,
        spec_decode(s) is Some ==> exists|i: int, j: int|
            0 <= i < j < s.len() && s[i] == 0 && s[j] == 0,
        spec_decode(s) is Some ==> valid_utf8(s.subrange(0, find_zero(s, 0))) && valid_utf8(
            s.subrange(find_zero(s, 0) + 1, find_zero(s, find_zero(s, 0) + 1)),
        ),
{
    if spec_decode(s) is Some {
        lemma_find_zero_props(s, 0);
        let i = find_zero(s, 0);
        lemma_find_zero_props(s, i + 1);
        let j = find_zero(s, i + 1);
        assert(0 <= i < j < s.len() && s[i] == 0 && s[j] == 0);
    }
}

impl Transaction {
    /// Reads a transaction back from its byte encoding: the bytes up to the
    /// first zero byte name the sender, the bytes up to the second zero byte
    /// name the receiver, and the byte after the second zero is the amount.
    pub fn decode(bytes: &[u8]) -> (r: Option<Transaction>)
        ensures
            r is Some <==> spec_decode(bytes@) is Some,
            r is Some ==> {
                let d = spec_decode(bytes@).unwrap();
                r.unwrap().from@ == d.0 && r.unwrap().to@ == d.1 && r.unwrap().amount == d.2
            },
    {
        if bytes.len() < 3 {
            return None;
        }
        let n = bytes.len();
        let mut i: usize = 0;
        while i < n && *slice_index_get(bytes, i) != 0
            invariant
                n == bytes@.len(),
                0 <= i <= n,
                forall|k: int| 0 <= k < i ==> bytes@[k] != 0,
            decreases n - i,
        {
            i += 1;
        }
        proof {
            lemma_find_zero_at(bytes@, 0, i as int);
        }
        if i == n {
            return None;
        }
        let mut j: usize = i + 1;
        while j < n && *slice_index_get(bytes, j) != 0
            invariant
                n == bytes@.len(),
                i + 1 <= j <= n,
                forall|k: int| i + 1 <= k < j ==> bytes@[k] != 0,
            decreases n - j,
        {
            j += 1;
        }
        proof {
            lemma_find_zero_at(bytes@, i as int + 1, j as int);
        }
        if j == n || j + 1 == n || *slice_index_get(bytes, j + 1) == 0 {
            return None;
        }
        let from_bytes = slice_to_vec(slice_subrange(bytes, 0, i));
        let to_bytes = slice_to_vec(slice_subrange(bytes, i + 1, j));
        let amount = *slice_index_get(bytes, j + 1);
        let from = match utf8_to_string(from_bytes) {
            Some(s) => s,
            None => {
                return None;
            },
        };
        let to = match utf8_to_string(to_bytes) {
            Some(s) => s,
            None => {
                return None;
            },
        };
        Some(Transaction { from, to, amount })
    }
}

} // verus!

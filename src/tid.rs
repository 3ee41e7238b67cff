use vstd::prelude::*;

use crate::bytes::{
    be_value, lemma_be_value_all_ff, lemma_be_value_concat, lemma_be_value_zero_prefix,
    lemma_be_value_zeros, lemma_lex_prefix, lemma_lex_same_len_value, lex_lt, pow256,
    u64_to_be,
};

verus! {

/// Number of bytes of a transaction id inside a storage key. Shorter ids are
/// padded with leading zero bytes, longer ones cut to their first bytes.
pub const TRANSACTION_ID_KEY_SIZE_IN_BYTES: usize = 32;

/// Number of bits by which the block height is shifted to form the first id
/// of a block.
pub const HEIGHT_TXID_SHIFT: u64 = 32;

/// The prefix of every key of the transaction log.
pub open spec fn transactions_root() -> Seq<u8> {
    seq![47u8, 116, 114, 97, 110, 115, 97, 99, 116, 105, 111, 110, 115, 47]
}

/// `/transactions/` as bytes.
pub fn transactions_root_bytes() -> (r: Vec<u8>)
    ensures
        r@ == transactions_root(),
{
    let r: Vec<u8> = vec![47u8, 116, 114, 97, 110, 115, 97, 99, 116, 105, 111, 110, 115, 47];
    proof {
        assert(r@ =~= transactions_root());
    }
    r
}

/// The bytes of an id plus one: trailing 0xff bytes roll over to zero, and a
/// leading 1 is added when every byte was 0xff.
pub open spec fn inc_bytes(b: Seq<u8>) -> Seq<u8>
    decreases b.len(),
{
    if b.len() == 0 {
        seq![1u8]
    } else if b.last() == 0xff {
        inc_bytes(b.drop_last()).push(0u8)
    } else {
        b.drop_last().push((b.last() + 1) as u8)
    }
}

/// The successor bytes spell the value plus one, with at most one byte more.
pub proof fn lemma_inc_bytes(b: Seq<u8>)
    ensures
        be_value(inc_bytes(b)) == be_value(b) + 1,
        b.len() <= inc_bytes(b).len() <= b.len() + 1,
    decreases b.len(),
{
    let r = inc_bytes(b);
    if b.len() == 0 {
        assert(r.drop_last() =~= Seq::<u8>::empty());
        assert(be_value(r) == be_value(r.drop_last()) * 256 + r.last() as nat);
        assert(be_value(b) == 0);
    } else if b.last() == 0xff {
        lemma_inc_bytes(b.drop_last());
        assert(r.drop_last() == inc_bytes(b.drop_last()));
        assert(be_value(r) == be_value(r.drop_last()) * 256 + r.last() as nat);
        assert(be_value(b) == be_value(b.drop_last()) * 256 + b.last() as nat);
    } else {
        assert(r.drop_last() =~= b.drop_last());
        assert(be_value(r) == be_value(r.drop_last()) * 256 + r.last() as nat);
        assert(be_value(b) == be_value(b.drop_last()) * 256 + b.last() as nat);
    }
}

/// The successor is one byte longer only when every byte was 0xff.
pub proof fn lemma_inc_bytes_longer(b: Seq<u8>)
    ensures
        inc_bytes(b).len() == b.len() + 1 ==> be_value(b) + 1 == pow256(b.len()),
    decreases b.len(),
{
    if b.len() == 0 {
        assert(be_value(b) == 0);
    } else if b.last() == 0xff {
        lemma_inc_bytes_longer(b.drop_last());
        lemma_inc_bytes(b.drop_last());
        let d = be_value(b.drop_last());
        let p = pow256((b.len() - 1) as nat);
        assert(be_value(b) == d * 256 + 255);
        if inc_bytes(b).len() == b.len() + 1 {
            assert(d + 1 == p);
            assert(d * 256 + 255 + 1 == 256 * p) by (nonlinear_arith)
                requires
                    d + 1 == p,
            ;
        }
    }
}

proof fn lemma_inc_bytes_ff_tail(s: Seq<u8>, k: nat)
    ensures
        inc_bytes(s + Seq::new(k, |j: int| 0xffu8)) == inc_bytes(s) + Seq::new(k, |j: int| 0u8),
    decreases k,
{
    let t = s + Seq::new(k, |j: int| 0xffu8);
    if k == 0 {
        assert(t =~= s);
        assert(inc_bytes(s) + Seq::new(k, |j: int| 0u8) =~= inc_bytes(s));
    } else {
        assert(t.drop_last() =~= s + Seq::new((k - 1) as nat, |j: int| 0xffu8));
        lemma_inc_bytes_ff_tail(s, (k - 1) as nat);
        assert(inc_bytes(s) + Seq::new(k, |j: int| 0u8) =~= (inc_bytes(s) + Seq::new(
            (k - 1) as nat,
            |j: int| 0u8,
        )).push(0u8));
    }
}

/// A transaction id: an unsigned big integer written as big-endian bytes.
pub struct TransactionId(pub Vec<u8>);

impl TransactionId {
    pub open spec fn value(&self) -> nat {
        be_value(self.0@)
    }

    /// The id `x`, as 8 big-endian bytes.
    pub fn from_u64(x: u64) -> (r: TransactionId)
        ensures
            r.value() == x as nat,
            r.0@.len() == 8,
    {
        TransactionId(u64_to_be(x))
    }

    /// The id spelled by the given big-endian bytes.
    pub fn from_bytes(bytes: Vec<u8>) -> (r: TransactionId)
        ensures
            r.0@ == bytes@,
    {
        TransactionId(bytes)
    }

    /// The first id of the block at `height`: `height << 32`.
    pub fn first_of_height(height: u64) -> (r: TransactionId)
        ensures
            r.value() == height as nat * pow256(4),
            r.0@.len() == 12,
    {
        let mut bytes = u64_to_be(height);
        let ghost high = bytes@;
        bytes.push(0u8);
        bytes.push(0u8);
        bytes.push(0u8);
        bytes.push(0u8);
        proof {
            assert(bytes@ =~= high + Seq::new(4, |i: int| 0u8));
            lemma_be_value_concat(high, Seq::new(4, |i: int| 0u8));
            lemma_be_value_zeros(4);
        }
        TransactionId(bytes)
    }

    pub fn clone_id(&self) -> (r: TransactionId)
        ensures
            r.0@ == self.0@,
    {
        TransactionId(self.0.clone())
    }

    /// The next id: the value plus one, with the same number of bytes unless
    /// every byte was 0xff.
    pub fn increment(&self) -> (r: TransactionId)
        ensures
            r.value() == self.value() + 1,
            r.0@ == inc_bytes(self.0@),
            r.0@.len() == self.0@.len() || r.0@.len() == self.0@.len() + 1,
    {
        let n = self.0.len();
        let mut i: usize = n;
        while i > 0 && self.0[i - 1] == 0xff
            invariant
                i <= n,
                n == self.0@.len(),
                forall|j: int| i <= j < n ==> self.0@[j] == 0xff,
            decreases i,
        {
            i = i - 1;
        }
        let ghost tail = Seq::new((n - i) as nat, |j: int| 0xffu8);
        let ghost zeros = Seq::new((n - i) as nat, |j: int| 0u8);
        proof {
            lemma_be_value_all_ff((n - i) as nat);
            lemma_be_value_zeros((n - i) as nat);
        }
        let mut out: Vec<u8> = Vec::new();
        if i == 0 {
            out.push(1u8);
        } else {
            let mut k: usize = 0;
            while k < i - 1
                invariant
                    k <= i - 1,
                    i <= n,
                    n == self.0@.len(),
                    out@ == self.0@.subrange(0, k as int),
                decreases i - 1 - k,
            {
                out.push(self.0[k]);
                proof {
                    assert(out@ =~= self.0@.subrange(0, k + 1));
                }
                k = k + 1;
            }
            out.push(self.0[i - 1] + 1);
        }
        let ghost head = out@;
        let mut k: usize = i;
        while k < n
            invariant
                i <= k <= n,
                out@ == head + Seq::new((k - i) as nat, |j: int| 0u8),
            decreases n - k,
        {
            out.push(0u8);
            proof {
                assert(out@ =~= head + Seq::new((k + 1 - i) as nat, |j: int| 0u8));
            }
            k = k + 1;
        }
        proof {
            assert(out@ == head + zeros);
            lemma_be_value_concat(head, zeros);
            if i == 0 {
                assert(self.0@ =~= tail);
                assert(Seq::<u8>::empty() + tail =~= tail);
                lemma_inc_bytes_ff_tail(Seq::<u8>::empty(), (n - i) as nat);
                assert(out@ =~= inc_bytes(Seq::<u8>::empty()) + zeros);
                assert(be_value(head) == 1) by {
                    assert(head.drop_last() =~= Seq::<u8>::empty());
                    assert(be_value(head.drop_last()) == 0);
                    assert(head.last() == 1);
                }
                assert(be_value(self.0@) + 1 == pow256(n as nat));
                assert(1 * pow256(n as nat) == pow256(n as nat));
            } else {
                let pre = self.0@.subrange(0, i - 1);
                let b = self.0@[i - 1];
                assert(self.0@ =~= pre.push(b) + tail);
                assert(head =~= pre.push((b + 1) as u8));
                assert(head.drop_last() =~= pre);
                assert(pre.push(b).drop_last() =~= pre);
                lemma_be_value_concat(pre.push(b), tail);
                lemma_inc_bytes_ff_tail(pre.push(b), (n - i) as nat);
                assert(inc_bytes(pre.push(b)) == head);
                let p = pow256((n - i) as nat);
                let v = be_value(pre);
                assert((v * 256 + b + 1) * p == ((v * 256 + b) * p + (p - 1)) + 1)
                    by (nonlinear_arith);
            }
        }
        TransactionId(out)
    }
}

/// The fixed-width form of an id's bytes: cut to the first 32 bytes when
/// longer, else padded on the left with zero bytes to 32 bytes.
pub open spec fn tid32(b: Seq<u8>) -> Seq<u8> {
    if b.len() > 32 {
        b.subrange(0, 32)
    } else {
        Seq::new((32 - b.len()) as nat, |i: int| 0u8) + b
    }
}

/// The storage key of the transaction with id bytes `b`.
pub open spec fn transaction_key(b: Seq<u8>) -> Seq<u8> {
    transactions_root() + tid32(b)
}

/// Returns the storage key for a transaction in the store:
/// `/transactions/` followed by the 32-byte form of the id.
pub fn key_for_transaction(id: TransactionId) -> (r: Vec<u8>)
    ensures
        r@ == transaction_key(id.0@),
        r@.len() == 46,
{
    let mut r = transactions_root_bytes();
    let n = id.0.len();
    if n > TRANSACTION_ID_KEY_SIZE_IN_BYTES {
        let mut k: usize = 0;
        while k < TRANSACTION_ID_KEY_SIZE_IN_BYTES
            invariant
                k <= 32,
                n == id.0@.len(),
                n > 32,
                r@ == transactions_root() + id.0@.subrange(0, k as int),
            decreases 32 - k,
        {
            r.push(id.0[k]);
            proof {
                assert(r@ =~= transactions_root() + id.0@.subrange(0, k + 1));
            }
            k = k + 1;
        }
    } else {
        let pad = TRANSACTION_ID_KEY_SIZE_IN_BYTES - n;
        let mut k: usize = 0;
        while k < pad
            invariant
                k <= pad,
                r@ == transactions_root() + Seq::new(k as nat, |i: int| 0u8),
            decreases pad - k,
        {
            r.push(0u8);
            proof {
                assert(r@ =~= transactions_root() + Seq::new((k + 1) as nat, |i: int| 0u8));
            }
            k = k + 1;
        }
        let ghost padded = r@;
        let mut k: usize = 0;
        while k < n
            invariant
                k <= n,
                n == id.0@.len(),
                r@ == padded + id.0@.subrange(0, k as int),
            decreases n - k,
        {
            r.push(id.0[k]);
            proof {
                assert(r@ =~= padded + id.0@.subrange(0, k + 1));
            }
            k = k + 1;
        }
        proof {
            assert(id.0@.subrange(0, n as int) =~= id.0@);
            assert(r@ =~= transactions_root() + (Seq::new(pad as nat, |i: int| 0u8) + id.0@));
        }
    }
    r
}

/// The id allocated next sorts after the current one, as long as both fit
/// the fixed width.
pub proof fn lemma_next_id_sorts_after(b: Seq<u8>)
    requires
        b.len() <= 32,
        inc_bytes(b).len() <= 32,
    ensures
        lex_lt(transaction_key(b), transaction_key(inc_bytes(b))),
{
    lemma_inc_bytes(b);
    lemma_transaction_key_order(b, inc_bytes(b));
}

/// Every transaction key has the same length, whatever the id.
pub proof fn lemma_transaction_key_len(b: Seq<u8>)
    ensures
        transaction_key(b).len() == 46,
{
}

/// Keys keep the numeric order of ids of at most 32 bytes: a smaller id has a
/// bytewise smaller key, and equal values give the same key.
pub proof fn lemma_transaction_key_order(a: Seq<u8>, b: Seq<u8>)
    requires
        a.len() <= 32,
        b.len() <= 32,
    ensures
        be_value(a) < be_value(b) <==> lex_lt(transaction_key(a), transaction_key(b)),
        be_value(a) == be_value(b) <==> transaction_key(a) == transaction_key(b),
        be_value(tid32(a)) == be_value(a),
{
    lemma_be_value_zero_prefix((32 - a.len()) as nat, a);
    lemma_be_value_zero_prefix((32 - b.len()) as nat, b);
    lemma_lex_same_len_value(tid32(a), tid32(b));
    lemma_lex_same_len_value(tid32(b), tid32(a));
    lemma_lex_prefix(transactions_root(), tid32(a), tid32(b));
    lemma_lex_prefix(transactions_root(), tid32(b), tid32(a));
    if transaction_key(a) == transaction_key(b) {
        assert(tid32(a) =~= transaction_key(a).subrange(14, 46));
        assert(tid32(b) =~= transaction_key(b).subrange(14, 46));
    }
    if be_value(a) == be_value(b) {
        crate::bytes::lemma_lex_total(tid32(a), tid32(b));
    }
}

} // verus!

use vstd::prelude::*;

use crate::bytes::lex_lt;
use crate::store::{in_range, KvStore};
use crate::bytes::be_value;
use crate::tid::{
    inc_bytes, key_for_transaction, lemma_inc_bytes, lemma_transaction_key_order, transaction_key,
    transactions_root, transactions_root_bytes, TransactionId,
};

verus! {

/// One end of a range of transaction ids.
pub enum TidBound {
    Included(TransactionId),
    Excluded(TransactionId),
    Unbounded,
}

/// A range of transaction ids.
pub struct CborRange {
    pub start: TidBound,
    pub end: TidBound,
}

/// The order in which a scan yields its records.
#[derive(PartialEq, Eq, Structural, Debug, Clone, Copy)]
pub enum SortOrder {
    Indeterminate,
    Ascending,
    Descending,
}

/// `/transactions0`: the first key past every transaction key.
pub open spec fn transactions_end() -> Seq<u8> {
    transactions_root().update(13, 48u8)
}

/// The first key a scan may yield (inclusive).
pub open spec fn lower_key(b: TidBound) -> Seq<u8> {
    match b {
        TidBound::Included(t) => transaction_key(t.0@),
        TidBound::Excluded(t) => transaction_key(inc_bytes(t.0@)),
        TidBound::Unbounded => transactions_root(),
    }
}

/// The first key past the scan (exclusive).
pub open spec fn upper_key(b: TidBound) -> Seq<u8> {
    match b {
        TidBound::Included(t) => transaction_key(inc_bytes(t.0@)),
        TidBound::Excluded(t) => transaction_key(t.0@),
        TidBound::Unbounded => transactions_end(),
    }
}

/// `s` lists, in ascending key order, exactly the entries of `m` whose keys
/// lie in `lo <= key < hi`.
pub open spec fn is_scan(s: Seq<(Seq<u8>, Seq<u8>)>, m: Map<Seq<u8>, Seq<u8>>, lo: Seq<u8>, hi: Seq<u8>) -> bool {
    &&& forall|i: int, j: int| 0 <= i < j < s.len() ==> lex_lt(#[trigger] s[i].0, #[trigger] s[j].0)
    &&& forall|i: int|
        0 <= i < s.len() ==> in_range(#[trigger] s[i].0, lo, hi) && m.contains_key(s[i].0) && m[s[i].0]
            == s[i].1
    &&& forall|k: Seq<u8>|
        #[trigger] m.contains_key(k) && in_range(k, lo, hi) ==> exists|i: int| 0 <= i < s.len() && #[trigger] s[i].0 == k
}

/// Whether an id value lies in a range, read numerically.
pub open spec fn id_in_range(v: nat, range: CborRange) -> bool {
    &&& match range.start {
        TidBound::Included(t) => v >= t.value(),
        TidBound::Excluded(t) => v > t.value(),
        TidBound::Unbounded => true,
    }
    &&& match range.end {
        TidBound::Included(t) => v <= t.value(),
        TidBound::Excluded(t) => v < t.value(),
        TidBound::Unbounded => true,
    }
}

/// The ids of a bound fit the fixed width, and so does their successor.
pub open spec fn bound_fits(b: TidBound) -> bool {
    match b {
        TidBound::Included(t) => t.0@.len() <= 32 && inc_bytes(t.0@).len() <= 32,
        TidBound::Excluded(t) => t.0@.len() <= 32 && inc_bytes(t.0@).len() <= 32,
        TidBound::Unbounded => true,
    }
}

pub proof fn lemma_root_below_keys(b: Seq<u8>)
    ensures
        !lex_lt(transaction_key(b), transactions_root()),
        lex_lt(transaction_key(b), transactions_end()),
{
    let root = transactions_root();
    let p = root.subrange(0, 13);
    let t = crate::tid::tid32(b);
    assert(root =~= p + seq![47u8]);
    assert(transactions_end() =~= p + seq![48u8]);
    assert(transaction_key(b) =~= p + (seq![47u8] + t));
    crate::bytes::lemma_lex_prefix(root, t, Seq::empty());
    assert(root + Seq::<u8>::empty() =~= root);
    crate::bytes::lemma_lex_prefix(p, seq![47u8] + t, seq![48u8]);
}

/// A scan over a range of ids yields a transaction record exactly when its id
/// lies in that range: the bound keys carry the numeric bounds over to keys.
pub proof fn lemma_scan_range_matches_ids(b: Seq<u8>, range: CborRange)
    requires
        b.len() <= 32,
        bound_fits(range.start),
        bound_fits(range.end),
    ensures
        in_range(transaction_key(b), lower_key(range.start), upper_key(range.end)) <==> id_in_range(
            be_value(b),
            range,
        ),
{
    lemma_root_below_keys(b);
    match range.start {
        TidBound::Included(t) => {
            lemma_transaction_key_order(b, t.0@);
        },
        TidBound::Excluded(t) => {
            lemma_inc_bytes(t.0@);
            lemma_transaction_key_order(b, inc_bytes(t.0@));
        },
        TidBound::Unbounded => {},
    }
    match range.end {
        TidBound::Included(t) => {
            lemma_inc_bytes(t.0@);
            lemma_transaction_key_order(b, inc_bytes(t.0@));
        },
        TidBound::Excluded(t) => {
            lemma_transaction_key_order(b, t.0@);
        },
        TidBound::Unbounded => {},
    }
}

pub open spec fn pairs_view(s: Seq<(Vec<u8>, Vec<u8>)>) -> Seq<(Seq<u8>, Seq<u8>)> {
    s.map_values(|p: (Vec<u8>, Vec<u8>)| (p.0@, p.1@))
}

fn lower_bound(b: &TidBound) -> (r: Vec<u8>)
    ensures
        r@ == lower_key(*b),
{
    match b {
        TidBound::Included(t) => key_for_transaction(t.clone_id()),
        TidBound::Excluded(t) => key_for_transaction(t.increment()),
        TidBound::Unbounded => transactions_root_bytes(),
    }
}

fn upper_bound(b: &TidBound) -> (r: Vec<u8>)
    ensures
        r@ == upper_key(*b),
{
    match b {
        TidBound::Included(t) => key_for_transaction(t.increment()),
        TidBound::Excluded(t) => key_for_transaction(t.clone_id()),
        TidBound::Unbounded => {
            let mut bound = transactions_root_bytes();
            let last = bound.len() - 1;
            bound.set(last, bound[last] + 1);
            proof {
                assert(bound@ =~= transactions_end());
            }
            bound
        },
    }
}

/// An ordered scan over the transaction log.
pub struct LedgerIterator {
    items: Vec<(Vec<u8>, Vec<u8>)>,
    pos: usize,
}

impl LedgerIterator {
    /// The records still to come, in order.
    pub closed spec fn remaining(&self) -> Seq<(Seq<u8>, Seq<u8>)> {
        pairs_view(self.items@).subrange(self.pos as int, self.items@.len() as int)
    }

    pub closed spec fn wf(&self) -> bool {
        self.pos <= self.items@.len()
    }

    /// A scan of the transaction records of `store` whose ids lie in `range`:
    /// ascending for `Ascending` and `Indeterminate`, descending for `Descending`.
    pub fn scoped_by_id(store: &KvStore, range: CborRange, order: SortOrder) -> (r: LedgerIterator)
        requires
            store.wf(),
        ensures
            r.wf(),
            order != SortOrder::Descending ==> is_scan(
                r.remaining(),
                store@,
                lower_key(range.start),
                upper_key(range.end),
            ),
            order == SortOrder::Descending ==> is_scan(
                r.remaining().reverse(),
                store@,
                lower_key(range.start),
                upper_key(range.end),
            ),
    {
        let lo = lower_bound(&range.start);
        let hi = upper_bound(&range.end);
        let items = store.range(&lo, &hi);
        let ghost asc = pairs_view(items@);
        proof {
            assert forall|i: int, j: int| 0 <= i < j < asc.len() implies lex_lt(#[trigger] asc[i].0, #[trigger] asc[j].0) by {
                assert(lex_lt(items@[i].0@, items@[j].0@));
            }
            assert forall|i: int| 0 <= i < asc.len() implies in_range(#[trigger] asc[i].0, lo@, hi@)
                && store@.contains_key(asc[i].0) && store@[asc[i].0] == asc[i].1 by {
                assert(asc[i].0 == items@[i].0@);
            }
            assert forall|k: Seq<u8>| #[trigger] store@.contains_key(k) && in_range(k, lo@, hi@) implies exists|i: int|
                0 <= i < asc.len() && #[trigger] asc[i].0 == k by {
                let i = choose|i: int| 0 <= i < items@.len() && #[trigger] items@[i].0@ == k;
                assert(asc[i].0 == k);
            }
            assert(asc.subrange(0, asc.len() as int) =~= asc);
        }
        if order == SortOrder::Descending {
            let mut rev: Vec<(Vec<u8>, Vec<u8>)> = Vec::new();
            let mut k: usize = items.len();
            while k > 0
                invariant
                    k <= items@.len(),
                    asc == pairs_view(items@),
                    pairs_view(rev@) == asc.subrange(k as int, asc.len() as int).reverse(),
                decreases k,
            {
                k = k - 1;
                let entry = (crate::store::clone_bytes(&items[k].0), crate::store::clone_bytes(&items[k].1));
                let ghost before = rev@;
                let ghost entry_v = entry;
                rev.push(entry);
                proof {
                    let want = asc.subrange(k as int, asc.len() as int).reverse();
                    assert(want.drop_last() =~= asc.subrange(k + 1, asc.len() as int).reverse());
                    assert forall|j: int| 0 <= j < rev@.len() implies pairs_view(rev@)[j] == want[j] by {
                        if j < before.len() {
                            assert(rev@[j] == before[j]);
                            assert(want[j] == want.drop_last()[j]);
                        } else {
                            assert(want[j] == asc[k as int]);
                            assert(asc[k as int] == (items@[k as int].0@, items@[k as int].1@));
                            assert(rev@[j] == entry_v);
                        }
                    }
                    assert(pairs_view(rev@) =~= want);
                }
            }
            let r = LedgerIterator { items: rev, pos: 0 };
            proof {
                assert(r.remaining() =~= pairs_view(rev@));
                assert(asc.subrange(0, asc.len() as int).reverse().reverse() =~= asc);
            }
            r
        } else {
            let r = LedgerIterator { items, pos: 0 };
            proof {
                assert(r.remaining() =~= asc);
            }
            r
        }
    }

    /// The next record of the scan, as its key and value.
    pub fn next(&mut self) -> (r: Option<(Vec<u8>, Vec<u8>)>)
        requires
            old(self).wf(),
        ensures
            final(self).wf(),
            old(self).remaining().len() == 0 ==> r is None && final(self).remaining() == old(self).remaining(),
            old(self).remaining().len() > 0 ==> (r matches Some(p) && (p.0@, p.1@) == old(
                self,
            ).remaining()[0] && final(self).remaining() == old(self).remaining().drop_first()),
    {
        if self.pos < self.items.len() {
            let p = (crate::store::clone_bytes(&self.items[self.pos].0), crate::store::clone_bytes(&self.items[self.pos].1));
            self.pos = self.pos + 1;
            proof {
                assert(self.remaining() =~= old(self).remaining().drop_first());
            }
            Some(p)
        } else {
            None
        }
    }
}

} // verus!

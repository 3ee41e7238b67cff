use vstd::prelude::*;

use crate::bytes::{compare_bytes, lemma_lex_asymmetric, lemma_lex_irreflexive, lemma_lex_total, lemma_lex_transitive, lex_lt};

verus! {

/// One write of a batch.
pub enum Op {
    Put(Vec<u8>),
    Delete,
}

/// A key and the write to make under it.
pub struct BatchEntry {
    pub key: Vec<u8>,
    pub op: Op,
}

/// What a write does, as plain values: `Some(value)` for a put, `None` for a delete.
pub open spec fn op_view(op: Op) -> Option<Seq<u8>> {
    match op {
        Op::Put(v) => Some(v@),
        Op::Delete => None,
    }
}

pub open spec fn entry_view(e: BatchEntry) -> (Seq<u8>, Option<Seq<u8>>) {
    (e.key@, op_view(e.op))
}

pub open spec fn batch_view(b: Seq<BatchEntry>) -> Seq<(Seq<u8>, Option<Seq<u8>>)> {
    b.map_values(|e: BatchEntry| entry_view(e))
}

/// One write applied to a key-value map.
pub open spec fn apply_write(m: Map<Seq<u8>, Seq<u8>>, w: (Seq<u8>, Option<Seq<u8>>)) -> Map<
    Seq<u8>,
    Seq<u8>,
> {
    match w.1 {
        Some(v) => m.insert(w.0, v),
        None => m.remove(w.0),
    }
}

/// A sequence of writes applied in order.
pub open spec fn apply_writes(m: Map<Seq<u8>, Seq<u8>>, ws: Seq<(Seq<u8>, Option<Seq<u8>>)>) -> Map<
    Seq<u8>,
    Seq<u8>,
>
    decreases ws.len(),
{
    if ws.len() == 0 {
        m
    } else {
        apply_write(apply_writes(m, ws.drop_last()), ws.last())
    }
}

/// Keys in strictly ascending bytewise order: sorted and without repeats.
pub open spec fn keys_ascending(ws: Seq<(Seq<u8>, Option<Seq<u8>>)>) -> bool {
    forall|i: int| 0 < i < ws.len() ==> #[trigger] lex_lt(ws[i - 1].0, ws[i].0)
}

/// `lower <= k < upper` in bytewise order.
pub open spec fn in_range(k: Seq<u8>, lower: Seq<u8>, upper: Seq<u8>) -> bool {
    !lex_lt(k, lower) && lex_lt(k, upper)
}

/// Applying two runs of writes one after the other is applying their concatenation.
pub proof fn lemma_apply_writes_concat(
    m: Map<Seq<u8>, Seq<u8>>,
    a: Seq<(Seq<u8>, Option<Seq<u8>>)>,
    b: Seq<(Seq<u8>, Option<Seq<u8>>)>,
)
    ensures
        apply_writes(m, a + b) == apply_writes(apply_writes(m, a), b),
    decreases b.len(),
{
    if b.len() == 0 {
        assert(a + b =~= a);
    } else {
        assert((a + b).drop_last() =~= a + b.drop_last());
        lemma_apply_writes_concat(m, a, b.drop_last());
        assert((a + b).last() == b.last());
    }
}

/// Two puts under distinct keys, in ascending key order.
pub fn sorted_pair(k1: Vec<u8>, v1: Vec<u8>, k2: Vec<u8>, v2: Vec<u8>) -> (r: Vec<BatchEntry>)
    requires
        k1@ != k2@,
    ensures
        keys_ascending(batch_view(r@)),
        forall|m: Map<Seq<u8>, Seq<u8>>|
            #[trigger] apply_writes(m, batch_view(r@)) == m.insert(k1@, v1@).insert(k2@, v2@),
{
    let ghost (a, b, x, y) = (k1@, k2@, v1@, v2@);
    let c = compare_bytes(&k1, &k2);
    let r = if c == -1 {
        vec![BatchEntry { key: k1, op: Op::Put(v1) }, BatchEntry { key: k2, op: Op::Put(v2) }]
    } else {
        vec![BatchEntry { key: k2, op: Op::Put(v2) }, BatchEntry { key: k1, op: Op::Put(v1) }]
    };
    proof {
        let bv = batch_view(r@);
        reveal_with_fuel(apply_writes, 3);
        assert(bv.len() == 2);
        assert(bv.drop_last().drop_last() =~= Seq::<(Seq<u8>, Option<Seq<u8>>)>::empty());
        assert forall|m: Map<Seq<u8>, Seq<u8>>| #[trigger]
            apply_writes(m, bv) == m.insert(a, x).insert(b, y) by {
            assert(apply_writes(m, bv.drop_last().drop_last()) == m);
            if c != -1 {
                assert(m.insert(b, y).insert(a, x) =~= m.insert(a, x).insert(b, y));
            }
        }
        if c == -1 {
            assert(lex_lt(bv[0].0, bv[1].0));
        } else {
            assert(lex_lt(bv[0].0, bv[1].0));
        }
    }
    r
}

/// The last write to `k` in a run of writes, if any.
pub open spec fn last_write(ws: Seq<(Seq<u8>, Option<Seq<u8>>)>, k: Seq<u8>) -> Option<Option<Seq<u8>>>
    decreases ws.len(),
{
    if ws.len() == 0 {
        None
    } else if ws.last().0 == k {
        Some(ws.last().1)
    } else {
        last_write(ws.drop_last(), k)
    }
}

/// Applying writes decides each key by its last write alone.
pub proof fn lemma_apply_writes_pointwise(m: Map<Seq<u8>, Seq<u8>>, ws: Seq<(Seq<u8>, Option<Seq<u8>>)>, k: Seq<u8>)
    ensures
        match last_write(ws, k) {
            None => apply_writes(m, ws).contains_key(k) == m.contains_key(k) && (m.contains_key(k) ==> apply_writes(
                m,
                ws,
            )[k] == m[k]),
            Some(None) => !apply_writes(m, ws).contains_key(k),
            Some(Some(v)) => apply_writes(m, ws).contains_key(k) && apply_writes(m, ws)[k] == v,
        },
    decreases ws.len(),
{
    if ws.len() > 0 {
        lemma_apply_writes_pointwise(m, ws.drop_last(), k);
    }
}

/// Two runs with the same last write for every key have the same effect.
pub proof fn lemma_same_last_writes(m: Map<Seq<u8>, Seq<u8>>, a: Seq<(Seq<u8>, Option<Seq<u8>>)>, b: Seq<(Seq<u8>, Option<Seq<u8>>)>)
    requires
        forall|k: Seq<u8>| #[trigger] last_write(a, k) == last_write(b, k),
    ensures
        apply_writes(m, a) == apply_writes(m, b),
{
    assert forall|k: Seq<u8>| #[trigger] apply_writes(m, a).contains_key(k) == apply_writes(m, b).contains_key(k)
        && (apply_writes(m, a).contains_key(k) ==> apply_writes(m, a)[k] == apply_writes(m, b)[k]) by {
        lemma_apply_writes_pointwise(m, a, k);
        lemma_apply_writes_pointwise(m, b, k);
    }
    assert(apply_writes(m, a) =~= apply_writes(m, b));
}

/// In a run with strictly ascending keys, the last write to a key is its only one.
pub proof fn lemma_last_write_unique(s: Seq<(Seq<u8>, Option<Seq<u8>>)>, k: Seq<u8>)
    requires
        forall|a: int, b: int| 0 <= a < b < s.len() ==> lex_lt(#[trigger] s[a].0, #[trigger] s[b].0),
    ensures
        forall|i: int| 0 <= i < s.len() && #[trigger] s[i].0 == k ==> last_write(s, k) == Some(s[i].1),
        (forall|i: int| 0 <= i < s.len() ==> #[trigger] s[i].0 != k) ==> last_write(s, k) is None,
    decreases s.len(),
{
    if s.len() > 0 {
        let t = s.drop_last();
        assert forall|a: int, b: int| 0 <= a < b < t.len() implies lex_lt(#[trigger] t[a].0, #[trigger] t[b].0) by {
            assert(t[a] == s[a] && t[b] == s[b]);
        }
        lemma_last_write_unique(t, k);
        assert forall|i: int| 0 <= i < s.len() && #[trigger] s[i].0 == k implies last_write(s, k) == Some(s[i].1) by {
            if i < s.len() - 1 {
                assert(lex_lt(s[i].0, s[s.len() - 1].0));
                lemma_lex_irreflexive(k);
                assert(t[i] == s[i]);
            }
        }
        if forall|i: int| 0 <= i < s.len() ==> #[trigger] s[i].0 != k {
            assert(s[s.len() - 1].0 != k);
            assert forall|i: int| 0 <= i < t.len() implies #[trigger] t[i].0 != k by {
                assert(t[i] == s[i]);
            }
        }
    }
}

/// Why the store refused a batch.
#[derive(PartialEq, Eq, Structural, Debug, Clone, Copy)]
pub enum StoreError {
    /// The keys of the batch were not strictly ascending.
    UnsortedBatch,
}

/// An ordered key-value store held in memory: reads see every applied write,
/// and the writes applied since the last `take_writes` are kept in order so
/// that they can be handed to durable storage.
pub struct KvStore {
    entries: Vec<(Vec<u8>, Vec<u8>)>,
    log: Vec<BatchEntry>,
    contents: Ghost<Map<Seq<u8>, Seq<u8>>>,
}

pub fn clone_bytes(v: &Vec<u8>) -> (r: Vec<u8>)
    ensures
        r@ == v@,
{
    let mut r: Vec<u8> = Vec::new();
    let mut i: usize = 0;
    while i < v.len()
        invariant
            i <= v.len(),
            r@ == v@.subrange(0, i as int),
        decreases v.len() - i,
    {
        r.push(v[i]);
        proof {
            assert(r@ =~= v@.subrange(0, i + 1));
        }
        i = i + 1;
    }
    proof {
        assert(v@.subrange(0, v.len() as int) =~= v@);
    }
    r
}

pub fn clone_op(op: &Op) -> (r: Op)
    ensures
        op_view(r) == op_view(*op),
{
    match op {
        Op::Put(v) => Op::Put(clone_bytes(v)),
        Op::Delete => Op::Delete,
    }
}

impl KvStore {
    /// The current contents of the store.
    pub closed spec fn view(&self) -> Map<Seq<u8>, Seq<u8>> {
        self.contents@
    }

    /// The writes applied since the last `take_writes`, in order.
    pub closed spec fn pending(&self) -> Seq<(Seq<u8>, Option<Seq<u8>>)> {
        batch_view(self.log@)
    }

    pub closed spec fn wf(&self) -> bool {
        &&& forall|i: int, j: int|
            0 <= i < j < self.entries@.len() ==> lex_lt(
                #[trigger] self.entries@[i].0@,
                #[trigger] self.entries@[j].0@,
            )
        &&& forall|i: int|
            0 <= i < self.entries@.len() ==> self.contents@.contains_key(
                #[trigger] self.entries@[i].0@,
            ) && self.contents@[self.entries@[i].0@] == self.entries@[i].1@
        &&& forall|k: Seq<u8>|
            #[trigger] self.contents@.contains_key(k) ==> exists|i: int|
                0 <= i < self.entries@.len() && #[trigger] self.entries@[i].0@ == k
    }

    /// The store holds finitely many keys.
    pub proof fn lemma_finite(&self)
        requires
            self.wf(),
        ensures
            self@.dom().finite(),
    {
        let keys = self.entries@.map_values(|e: (Vec<u8>, Vec<u8>)| e.0@);
        assert(self@.dom() =~= keys.to_set()) by {
            assert forall|k: Seq<u8>| self@.dom().contains(k) implies keys.to_set().contains(k) by {
                let i = choose|i: int| 0 <= i < self.entries@.len() && #[trigger] self.entries@[i].0@ == k;
                assert(keys[i] == k);
            }
            assert forall|k: Seq<u8>| keys.to_set().contains(k) implies self@.dom().contains(k) by {
                let i = choose|i: int| 0 <= i < keys.len() && keys[i] == k;
                assert(self.entries@[i].0@ == k);
            }
        }
        vstd::seq_lib::seq_to_set_is_finite(keys);
    }

    /// An empty store.
    pub fn new() -> (r: KvStore)
        ensures
            r.wf(),
            r@ == Map::<Seq<u8>, Seq<u8>>::empty(),
            r.pending() == Seq::<(Seq<u8>, Option<Seq<u8>>)>::empty(),
    {
        let r = KvStore { entries: Vec::new(), log: Vec::new(), contents: Ghost(Map::empty()) };
        proof {
            assert(batch_view(r.log@) =~= Seq::<(Seq<u8>, Option<Seq<u8>>)>::empty());
        }
        r
    }

    /// The index of the first entry whose key is not below `key`, and whether
    /// that entry's key is `key`.
    fn position(&self, key: &Vec<u8>) -> (r: (usize, bool))
        requires
            self.wf(),
        ensures
            r.0 <= self.entries@.len(),
            forall|i: int| 0 <= i < r.0 ==> lex_lt(#[trigger] self.entries@[i].0@, key@),
            r.0 < self.entries@.len() ==> !lex_lt(self.entries@[r.0 as int].0@, key@),
            r.1 <==> (r.0 < self.entries@.len() && self.entries@[r.0 as int].0@ == key@),
            r.1 <==> self@.contains_key(key@),
    {
        let mut i: usize = 0;
        while i < self.entries.len()
            invariant
                self.wf(),
                i <= self.entries@.len(),
                forall|j: int| 0 <= j < i ==> lex_lt(#[trigger] self.entries@[j].0@, key@),
            decreases self.entries.len() - i,
        {
            let c = compare_bytes(&self.entries[i].0, key);
            if c != -1 {
                let found = c == 0;
                proof {
                    if !found {
                        assert(lex_lt(key@, self.entries@[i as int].0@));
                        lemma_lex_asymmetric(key@, self.entries@[i as int].0@);
                        if self@.contains_key(key@) {
                            let j = choose|j: int|
                                0 <= j < self.entries@.len() && #[trigger] self.entries@[j].0@
                                    == key@;
                            if j < i {
                                lemma_lex_irreflexive(key@);
                            } else if j == i {
                                lemma_lex_irreflexive(key@);
                            } else {
                                assert(lex_lt(self.entries@[i as int].0@, self.entries@[j].0@));
                                lemma_lex_asymmetric(key@, self.entries@[i as int].0@);
                            }
                        }
                    }
                }
                return (i, found);
            }
            i = i + 1;
        }
        proof {
            if self@.contains_key(key@) {
                let j = choose|j: int|
                    0 <= j < self.entries@.len() && #[trigger] self.entries@[j].0@ == key@;
                lemma_lex_irreflexive(key@);
            }
        }
        (i, false)
    }

    /// The value stored under `key`, if any.
    pub fn get(&self, key: &Vec<u8>) -> (r: Option<Vec<u8>>)
        requires
            self.wf(),
        ensures
            r matches Some(v) ==> self@.contains_key(key@) && v@ == self@[key@],
            r is None ==> !self@.contains_key(key@),
    {
        let (i, found) = self.position(key);
        if found {
            Some(clone_bytes(&self.entries[i].1))
        } else {
            None
        }
    }

    fn put_entry(&mut self, key: Vec<u8>, value: Vec<u8>)
        requires
            old(self).wf(),
        ensures
            final(self).wf(),
            final(self)@ == old(self)@.insert(key@, value@),
            final(self).log@ == old(self).log@,
    {
        let (i, found) = self.position(&key);
        let ghost k = key@;
        let ghost v = value@;
        let ghost old_entries = self.entries@;
        if found {
            self.entries.set(i, (key, value));
        } else {
            self.entries.insert(i, (key, value));
        }
        self.contents = Ghost(self.contents@.insert(k, v));
        proof {
            let e = self.entries@;
            if found {
                assert forall|a: int, b: int| 0 <= a < b < e.len() implies lex_lt(
                    #[trigger] e[a].0@,
                    #[trigger] e[b].0@,
                ) by {
                    assert(lex_lt(old_entries[a].0@, old_entries[b].0@));
                }
                assert forall|a: int| 0 <= a < e.len() implies self.contents@.contains_key(
                    #[trigger] e[a].0@,
                ) && self.contents@[e[a].0@] == e[a].1@ by {
                    if a != i {
                        assert(lex_lt(old_entries[a].0@, k) || lex_lt(k, old_entries[a].0@)) by {
                            if a < i {
                                assert(lex_lt(old_entries[a].0@, old_entries[i as int].0@));
                            } else {
                                assert(lex_lt(old_entries[i as int].0@, old_entries[a].0@));
                            }
                        }
                        lemma_lex_irreflexive(k);
                    }
                }
                assert forall|x: Seq<u8>| #[trigger] self.contents@.contains_key(x) implies exists|
                    a: int,
                | 0 <= a < e.len() && #[trigger] e[a].0@ == x by {
                    if x != k {
                        let a = choose|a: int|
                            0 <= a < old_entries.len() && #[trigger] old_entries[a].0@ == x;
                        assert(e[a].0@ == x);
                    } else {
                        assert(e[i as int].0@ == x);
                    }
                }
            } else {
                assert forall|a: int, b: int| 0 <= a < b < e.len() implies lex_lt(
                    #[trigger] e[a].0@,
                    #[trigger] e[b].0@,
                ) by {
                    if b < i {
                        assert(lex_lt(old_entries[a].0@, old_entries[b].0@));
                    } else if b == i {
                        assert(lex_lt(old_entries[a].0@, k));
                    } else if a == i {
                        assert(e[b].0@ == old_entries[b - 1].0@);
                        if b - 1 > i {
                            assert(lex_lt(old_entries[i as int].0@, old_entries[b - 1].0@));
                        }
                        lemma_lex_total(k, old_entries[i as int].0@);
                        if b - 1 > i {
                            lemma_lex_transitive(k, old_entries[i as int].0@, old_entries[b - 1].0@);
                        }
                    } else if a < i {
                        assert(lex_lt(old_entries[a].0@, k));
                        lemma_lex_total(k, old_entries[i as int].0@);
                        assert(lex_lt(k, old_entries[i as int].0@));
                        if b - 1 > i {
                            assert(lex_lt(old_entries[i as int].0@, old_entries[b - 1].0@));
                            lemma_lex_transitive(k, old_entries[i as int].0@, old_entries[b - 1].0@);
                        }
                        lemma_lex_transitive(old_entries[a].0@, k, old_entries[b - 1].0@);
                    } else {
                        assert(lex_lt(old_entries[a - 1].0@, old_entries[b - 1].0@));
                    }
                }
                assert forall|a: int| 0 <= a < e.len() implies self.contents@.contains_key(
                    #[trigger] e[a].0@,
                ) && self.contents@[e[a].0@] == e[a].1@ by {
                    if a < i {
                        lemma_lex_irreflexive(k);
                        assert(e[a] == old_entries[a]);
                    } else if a > i {
                        assert(e[a] == old_entries[a - 1]);
                        lemma_lex_total(k, old_entries[i as int].0@);
                        if a - 1 > i {
                            assert(lex_lt(old_entries[i as int].0@, old_entries[a - 1].0@));
                            lemma_lex_transitive(k, old_entries[i as int].0@, old_entries[a - 1].0@);
                        }
                        lemma_lex_irreflexive(k);
                    }
                }
                assert forall|x: Seq<u8>| #[trigger] self.contents@.contains_key(x) implies exists|
                    a: int,
                | 0 <= a < e.len() && #[trigger] e[a].0@ == x by {
                    if x != k {
                        let a = choose|a: int|
                            0 <= a < old_entries.len() && #[trigger] old_entries[a].0@ == x;
                        if a < i {
                            assert(e[a].0@ == x);
                        } else {
                            assert(e[a + 1].0@ == x);
                        }
                    } else {
                        assert(e[i as int].0@ == x);
                    }
                }
            }
        }
    }

    fn delete_entry(&mut self, key: &Vec<u8>)
        requires
            old(self).wf(),
        ensures
            final(self).wf(),
            final(self)@ == old(self)@.remove(key@),
            final(self).log@ == old(self).log@,
    {
        let (i, found) = self.position(key);
        let ghost k = key@;
        let ghost old_entries = self.entries@;
        if found {
            self.entries.remove(i);
            self.contents = Ghost(self.contents@.remove(k));
            proof {
                let e = self.entries@;
                assert forall|a: int, b: int| 0 <= a < b < e.len() implies lex_lt(
                    #[trigger] e[a].0@,
                    #[trigger] e[b].0@,
                ) by {
                    let a0 = if a < i { a } else { a + 1 };
                    let b0 = if b < i { b } else { b + 1 };
                    assert(e[a] == old_entries[a0]);
                    assert(e[b] == old_entries[b0]);
                    assert(lex_lt(old_entries[a0].0@, old_entries[b0].0@));
                }
                assert forall|a: int| 0 <= a < e.len() implies self.contents@.contains_key(
                    #[trigger] e[a].0@,
                ) && self.contents@[e[a].0@] == e[a].1@ by {
                    let a0 = if a < i { a } else { a + 1 };
                    assert(e[a] == old_entries[a0]);
                    if a0 < i {
                        assert(lex_lt(old_entries[a0].0@, old_entries[i as int].0@));
                    } else {
                        assert(lex_lt(old_entries[i as int].0@, old_entries[a0].0@));
                    }
                    lemma_lex_irreflexive(k);
                }
                assert forall|x: Seq<u8>| #[trigger] self.contents@.contains_key(x) implies exists|
                    a: int,
                | 0 <= a < e.len() && #[trigger] e[a].0@ == x by {
                    let a = choose|a: int|
                        0 <= a < old_entries.len() && #[trigger] old_entries[a].0@ == x;
                    if a < i {
                        assert(e[a].0@ == x);
                    } else {
                        assert(a != i);
                        assert(e[a - 1].0@ == x);
                    }
                }
            }
        } else {
            proof {
                assert(self.contents@.remove(k) =~= self.contents@);
            }
        }
    }

    /// Applies a batch of writes, in order. The keys must be strictly
    /// ascending; otherwise nothing is written and the batch is refused.
    pub fn apply(&mut self, batch: &Vec<BatchEntry>) -> (r: Result<(), StoreError>)
        requires
            old(self).wf(),
        ensures
            final(self).wf(),
            r is Ok <==> keys_ascending(batch_view(batch@)),
            r is Ok ==> final(self)@ == apply_writes(old(self)@, batch_view(batch@)),
            r is Ok ==> final(self).pending() == old(self).pending() + batch_view(batch@),
            r is Err ==> *final(self) == *old(self),
    {
        let mut i: usize = 1;
        while i < batch.len()
            invariant
                1 <= i,
                old(self).wf(),
                *self == *old(self),
                forall|j: int|
                    0 < j < i && j < batch@.len() ==> #[trigger] lex_lt(
                        batch@[j - 1].key@,
                        batch@[j].key@,
                    ),
            decreases batch.len() - i,
        {
            if compare_bytes(&batch[i - 1].key, &batch[i].key) != -1 {
                proof {
                    let bv = batch_view(batch@);
                    assert(bv[i as int - 1].0 == batch@[i - 1].key@);
                    assert(bv[i as int].0 == batch@[i as int].key@);
                    assert(!lex_lt(bv[i - 1].0, bv[i as int].0));
                }
                return Err(StoreError::UnsortedBatch);
            }
            i = i + 1;
        }
        proof {
            let bv = batch_view(batch@);
            assert forall|j: int| 0 < j < bv.len() implies #[trigger] lex_lt(bv[j - 1].0, bv[j].0) by {
                assert(lex_lt(batch@[j - 1].key@, batch@[j].key@));
            }
        }
        let ghost m0 = self@;
        let ghost p0 = self.pending();
        let mut k: usize = 0;
        while k < batch.len()
            invariant
                self.wf(),
                k <= batch@.len(),
                self@ == apply_writes(m0, batch_view(batch@.subrange(0, k as int))),
                self.pending() == p0 + batch_view(batch@.subrange(0, k as int)),
            decreases batch.len() - k,
        {
            let key = clone_bytes(&batch[k].key);
            match &batch[k].op {
                Op::Put(v) => {
                    self.put_entry(key, clone_bytes(v));
                },
                Op::Delete => {
                    self.delete_entry(&key);
                },
            }
            let logged = BatchEntry { key: clone_bytes(&batch[k].key), op: clone_op(&batch[k].op) };
            let ghost before = self.entries@;
            let ghost contents_before = self.contents@;
            let ghost old_log = self.log@;
            let ghost lv = entry_view(logged);
            self.log.push(logged);
            proof {
                assert(batch_view(self.log@) =~= batch_view(old_log).push(lv));
                assert(lv == entry_view(batch@[k as int]));
                assert(self.entries@ == before);
                assert(self.contents@ == contents_before);
                let pre = batch_view(batch@.subrange(0, k as int));
                let cur = batch_view(batch@.subrange(0, k + 1));
                assert(cur.drop_last() =~= pre);
                assert(cur.last() == entry_view(batch@[k as int]));
                assert(batch_view(self.log@) =~= p0 + cur);
            }
            k = k + 1;
        }
        proof {
            assert(batch@.subrange(0, batch@.len() as int) =~= batch@);
        }
        Ok(())
    }

    /// Hands out the writes applied since the last call, in order, and forgets them.
    pub fn take_writes(&mut self) -> (r: Vec<BatchEntry>)
        requires
            old(self).wf(),
        ensures
            final(self).wf(),
            final(self)@ == old(self)@,
            batch_view(r@) == old(self).pending(),
            final(self).pending() == Seq::<(Seq<u8>, Option<Seq<u8>>)>::empty(),
    {
        let mut r: Vec<BatchEntry> = Vec::new();
        let ghost before = self.entries@;
        std::mem::swap(&mut r, &mut self.log);
        proof {
            assert(self.entries@ == before);
            assert(batch_view(self.log@) =~= Seq::<(Seq<u8>, Option<Seq<u8>>)>::empty());
        }
        r
    }

    /// The entries whose keys lie in `lower <= key < upper`, in ascending key order.
    pub fn range(&self, lower: &Vec<u8>, upper: &Vec<u8>) -> (r: Vec<(Vec<u8>, Vec<u8>)>)
        requires
            self.wf(),
        ensures
            forall|i: int, j: int|
                0 <= i < j < r@.len() ==> lex_lt(#[trigger] r@[i].0@, #[trigger] r@[j].0@),
            forall|i: int|
                0 <= i < r@.len() ==> in_range(#[trigger] r@[i].0@, lower@, upper@)
                    && self@.contains_key(r@[i].0@) && self@[r@[i].0@] == r@[i].1@,
            forall|k: Seq<u8>|
                #[trigger] self@.contains_key(k) && in_range(k, lower@, upper@) ==> exists|i: int|
                    0 <= i < r@.len() && #[trigger] r@[i].0@ == k,
    {
        let mut r: Vec<(Vec<u8>, Vec<u8>)> = Vec::new();
        let ghost idx: Seq<int> = Seq::empty();
        let mut i: usize = 0;
        while i < self.entries.len()
            invariant
                self.wf(),
                i <= self.entries@.len(),
                idx.len() == r@.len(),
                forall|a: int| 0 <= a < idx.len() ==> 0 <= #[trigger] idx[a] < i,
                forall|a: int, b: int| 0 <= a < b < idx.len() ==> #[trigger] idx[a] < #[trigger] idx[b],
                forall|a: int|
                    0 <= a < r@.len() ==> #[trigger] r@[a].0@ == self.entries@[idx[a]].0@ && r@[a].1@
                        == self.entries@[idx[a]].1@,
                forall|a: int| 0 <= a < r@.len() ==> in_range(#[trigger] r@[a].0@, lower@, upper@),
                forall|j: int|
                    0 <= j < i && in_range(#[trigger] self.entries@[j].0@, lower@, upper@) ==> exists|
                        a: int,
                    | 0 <= a < idx.len() && idx[a] == j,
            decreases self.entries.len() - i,
        {
            let ghost old_idx = idx;
            let below = compare_bytes(&self.entries[i].0, lower) == -1;
            let under = compare_bytes(&self.entries[i].0, upper) == -1;
            if !below && under {
                r.push((clone_bytes(&self.entries[i].0), clone_bytes(&self.entries[i].1)));
                proof {
                    idx = idx.push(i as int);
                }
            }
            proof {
                assert forall|j: int|
                    0 <= j < i + 1 && in_range(
                        #[trigger] self.entries@[j].0@,
                        lower@,
                        upper@,
                    ) implies exists|a: int| 0 <= a < idx.len() && idx[a] == j by {
                    if j == i {
                        assert(idx[idx.len() - 1] == j);
                    } else {
                        let a = choose|a: int| 0 <= a < old_idx.len() && old_idx[a] == j;
                        assert(idx[a] == j);
                    }
                }
            }
            i = i + 1;
        }
        proof {
            assert forall|a: int, b: int| 0 <= a < b < r@.len() implies lex_lt(
                #[trigger] r@[a].0@,
                #[trigger] r@[b].0@,
            ) by {
                assert(idx[a] < idx[b]);
                assert(lex_lt(self.entries@[idx[a]].0@, self.entries@[idx[b]].0@));
            }
            assert forall|a: int| 0 <= a < r@.len() implies in_range(
                #[trigger] r@[a].0@,
                lower@,
                upper@,
            ) && self@.contains_key(r@[a].0@) && self@[r@[a].0@] == r@[a].1@ by {
                assert(self.entries@[idx[a]].0@ == r@[a].0@);
            }
            assert forall|k: Seq<u8>| #[trigger]
                self@.contains_key(k) && in_range(k, lower@, upper@) implies exists|i: int|
                0 <= i < r@.len() && #[trigger] r@[i].0@ == k by {
                let j = choose|j: int| 0 <= j < self.entries@.len() && #[trigger] self.entries@[j].0@ == k;
                let a = choose|a: int| 0 <= a < idx.len() && idx[a] == j;
                assert(r@[a].0@ == k);
            }
        }
        r
    }
}

/// A write as a value of the store: a put as `1` and its value, a delete as `0`.
pub open spec fn op_bytes(o: Option<Seq<u8>>) -> Seq<u8> {
    match o {
        Some(v) => seq![1u8] + v,
        None => seq![0u8],
    }
}

pub open spec fn op_of_bytes(s: Seq<u8>) -> Option<Seq<u8>> {
    if s.len() > 0 && s[0] == 1 {
        Some(s.drop_first())
    } else {
        None
    }
}

fn encode_op(op: &Op) -> (r: Vec<u8>)
    ensures
        r@ == op_bytes(op_view(*op)),
{
    match op {
        Op::Put(v) => {
            let mut r: Vec<u8> = vec![1u8];
            let mut i: usize = 0;
            while i < v.len()
                invariant
                    i <= v@.len(),
                    r@ == seq![1u8] + v@.subrange(0, i as int),
                decreases v.len() - i,
            {
                r.push(v[i]);
                proof {
                    assert(r@ =~= seq![1u8] + v@.subrange(0, i + 1));
                }
                i = i + 1;
            }
            proof {
                assert(v@.subrange(0, v@.len() as int) =~= v@);
            }
            r
        },
        Op::Delete => {
            let r: Vec<u8> = vec![0u8];
            proof {
                assert(r@ =~= seq![0u8]);
            }
            r
        },
    }
}

fn decode_op(s: &Vec<u8>) -> (r: Op)
    ensures
        op_view(r) == op_of_bytes(s@),
{
    if s.len() > 0 && s[0] == 1 {
        let mut v: Vec<u8> = Vec::new();
        let mut i: usize = 1;
        while i < s.len()
            invariant
                1 <= i <= s@.len(),
                v@ == s@.subrange(1, i as int),
            decreases s.len() - i,
        {
            v.push(s[i]);
            proof {
                assert(v@ =~= s@.subrange(1, i + 1));
            }
            i = i + 1;
        }
        proof {
            assert(v@ =~= s@.drop_first());
        }
        Op::Put(v)
    } else {
        Op::Delete
    }
}

/// The effect of a run of writes as one batch: one write per key, the last
/// one made, in strictly ascending key order. Applied to any contents it
/// gives what the run gives.
pub fn sorted_writes(writes: &Vec<BatchEntry>) -> (r: Vec<BatchEntry>)
    ensures
        keys_ascending(batch_view(r@)),
        forall|a: int, b: int|
            0 <= a < b < r@.len() ==> lex_lt(#[trigger] r@[a].key@, #[trigger] r@[b].key@),
        forall|m: Map<Seq<u8>, Seq<u8>>|
            #[trigger] apply_writes(m, batch_view(r@)) == apply_writes(m, batch_view(writes@)),
{
    let mut acc = KvStore::new();
    let mut i: usize = 0;
    while i < writes.len()
        invariant
            i <= writes@.len(),
            acc.wf(),
            forall|k: Seq<u8>|
                #[trigger] acc@.contains_key(k) <==> last_write(batch_view(writes@.subrange(0, i as int)), k) is Some,
            forall|k: Seq<u8>|
                #[trigger] acc@.contains_key(k) ==> acc@[k] == op_bytes(
                    last_write(batch_view(writes@.subrange(0, i as int)), k).unwrap(),
                ),
        decreases writes.len() - i,
    {
        let key = clone_bytes(&writes[i].key);
        let value = encode_op(&writes[i].op);
        acc.put_entry(key, value);
        proof {
            let cur = batch_view(writes@.subrange(0, i + 1));
            assert(cur.drop_last() =~= batch_view(writes@.subrange(0, i as int)));
            assert(cur.last() == entry_view(writes@[i as int]));
        }
        i = i + 1;
    }
    proof {
        assert(writes@.subrange(0, writes@.len() as int) =~= writes@);
    }
    let mut r: Vec<BatchEntry> = Vec::new();
    let mut j: usize = 0;
    while j < acc.entries.len()
        invariant
            j <= acc.entries@.len(),
            r@.len() == j,
            forall|a: int|
                0 <= a < j ==> #[trigger] r@[a].key@ == acc.entries@[a].0@ && op_view(r@[a].op) == op_of_bytes(
                    acc.entries@[a].1@,
                ),
        decreases acc.entries.len() - j,
    {
        let e = BatchEntry { key: clone_bytes(&acc.entries[j].0), op: decode_op(&acc.entries[j].1) };
        r.push(e);
        j = j + 1;
    }
    proof {
        let bv = batch_view(r@);
        assert forall|a: int, b: int| 0 <= a < b < r@.len() implies lex_lt(#[trigger] r@[a].key@, #[trigger] r@[b].key@) by {
            assert(lex_lt(acc.entries@[a].0@, acc.entries@[b].0@));
        }
        assert forall|a: int, b: int| 0 <= a < b < bv.len() implies lex_lt(#[trigger] bv[a].0, #[trigger] bv[b].0) by {
            assert(bv[a].0 == r@[a].key@ && bv[b].0 == r@[b].key@);
        }
        assert forall|a: int| 0 < a < bv.len() implies #[trigger] lex_lt(bv[a - 1].0, bv[a].0) by {
            assert(bv[a - 1].0 == r@[a - 1].key@ && bv[a].0 == r@[a].key@);
        }
        assert forall|k: Seq<u8>| #[trigger] last_write(bv, k) == last_write(batch_view(writes@), k) by {
            lemma_last_write_unique(bv, k);
            if acc@.contains_key(k) {
                let a = choose|a: int| 0 <= a < acc.entries@.len() && #[trigger] acc.entries@[a].0@ == k;
                assert(bv[a].0 == k);
                let w = last_write(batch_view(writes@), k).unwrap();
                assert(acc.entries@[a].1@ == op_bytes(w));
                match w {
                    Some(v) => {
                        assert((seq![1u8] + v).drop_first() =~= v);
                    },
                    None => {},
                }
                assert(bv[a].1 == op_of_bytes(op_bytes(w)));
            } else {
                assert forall|a: int| 0 <= a < bv.len() implies #[trigger] bv[a].0 != k by {
                    assert(bv[a].0 == acc.entries@[a].0@);
                }
            }
        }
        assert forall|m: Map<Seq<u8>, Seq<u8>>| #[trigger]
            apply_writes(m, bv) == apply_writes(m, batch_view(writes@)) by {
            lemma_same_last_writes(m, bv, batch_view(writes@));
        }
    }
    r
}

} // verus!

use vstd::prelude::*;

use crate::identity::{
    hex_text, identity_text, lemma_hex_text_injective, lemma_hex_text_len, lemma_hex_text_no_slash,
    Identity, Symbol,
};
use crate::bytes::be_value;
use crate::tid::{transaction_key, transactions_root};

verus! {

/// `/balances/`
pub open spec fn balances_prefix() -> Seq<u8> {
    seq![47u8, 98, 97, 108, 97, 110, 99, 101, 115, 47]
}

/// `/height`
pub open spec fn height_key() -> Seq<u8> {
    seq![47u8, 104, 101, 105, 103, 104, 116]
}

/// `/transactions_count`
pub open spec fn transactions_count_key() -> Seq<u8> {
    seq![47u8, 116, 114, 97, 110, 115, 97, 99, 116, 105, 111, 110, 115, 95, 99, 111, 117, 110, 116]
}

/// `/config/symbols`
pub open spec fn symbols_key() -> Seq<u8> {
    seq![47u8, 99, 111, 110, 102, 105, 103, 47, 115, 121, 109, 98, 111, 108, 115]
}

/// The key of the balance of `id` in `symbol`: `/balances/<id>/<symbol>`.
pub open spec fn balance_key(id: Seq<u8>, symbol: Seq<u8>) -> Seq<u8> {
    balances_prefix() + identity_text(id) + seq![47u8] + identity_text(symbol)
}

/// Whether a key lies in the balance family.
pub open spec fn is_balance_key(k: Seq<u8>) -> bool {
    k.len() >= 10 && k.subrange(0, 10) == balances_prefix()
}

pub fn height_key_bytes() -> (r: Vec<u8>)
    ensures
        r@ == height_key(),
{
    let r: Vec<u8> = vec![47u8, 104, 101, 105, 103, 104, 116];
    proof {
        assert(r@ =~= height_key());
    }
    r
}

pub fn transactions_count_key_bytes() -> (r: Vec<u8>)
    ensures
        r@ == transactions_count_key(),
{
    let r: Vec<u8> = vec![47u8, 116, 114, 97, 110, 115, 97, 99, 116, 105, 111, 110, 115, 95, 99, 111, 117, 110, 116];
    proof {
        assert(r@ =~= transactions_count_key());
    }
    r
}

pub fn symbols_key_bytes() -> (r: Vec<u8>)
    ensures
        r@ == symbols_key(),
{
    let r: Vec<u8> = vec![47u8, 99, 111, 110, 102, 105, 103, 47, 115, 121, 109, 98, 111, 108, 115];
    proof {
        assert(r@ =~= symbols_key());
    }
    r
}

fn append(out: &mut Vec<u8>, tail: &Vec<u8>)
    ensures
        final(out)@ == old(out)@ + tail@,
{
    let ghost head = out@;
    let mut i: usize = 0;
    while i < tail.len()
        invariant
            i <= tail@.len(),
            out@ == head + tail@.subrange(0, i as int),
        decreases tail.len() - i,
    {
        out.push(tail[i]);
        proof {
            assert(out@ =~= head + tail@.subrange(0, i + 1));
        }
        i = i + 1;
    }
    proof {
        assert(tail@.subrange(0, tail@.len() as int) =~= tail@);
    }
}

/// Returns the key of a balance in the store.
pub fn key_for_account(id: &Identity, symbol: &Symbol) -> (r: Vec<u8>)
    ensures
        r@ == balance_key(id@, symbol@),
{
    let mut r: Vec<u8> = vec![47u8, 98, 97, 108, 97, 110, 99, 101, 115, 47];
    proof {
        assert(r@ =~= balances_prefix());
    }
    append(&mut r, &id.text());
    r.push(47u8);
    append(&mut r, &symbol.text());
    proof {
        assert(r@ =~= balance_key(id@, symbol@));
    }
    r
}

/// A balance key names exactly one holder and one symbol.
pub proof fn lemma_balance_key_unique(a: Seq<u8>, s: Seq<u8>, b: Seq<u8>, t: Seq<u8>)
    requires
        balance_key(a, s) == balance_key(b, t),
    ensures
        a == b,
        s == t,
{
    let k = balance_key(a, s);
    let ta = identity_text(a);
    let tb = identity_text(b);
    lemma_hex_text_len(a);
    lemma_hex_text_len(b);
    lemma_hex_text_no_slash(a);
    lemma_hex_text_no_slash(b);
    if ta.len() < tb.len() {
        assert(k[10 + ta.len() as int] == 47u8);
        assert(balance_key(b, t)[10 + ta.len() as int] == tb[ta.len() as int]);
        assert(tb[ta.len() as int] == hex_text(b)[ta.len() - 1]);
    } else if tb.len() < ta.len() {
        assert(balance_key(b, t)[10 + tb.len() as int] == 47u8);
        assert(k[10 + tb.len() as int] == ta[tb.len() as int]);
        assert(ta[tb.len() as int] == hex_text(a)[tb.len() - 1]);
    } else {
        assert(k.subrange(10, 10 + ta.len() as int) =~= ta);
        assert(balance_key(b, t).subrange(10, 10 + tb.len() as int) =~= tb);
        assert(ta.drop_first() =~= hex_text(a));
        assert(tb.drop_first() =~= hex_text(b));
        lemma_hex_text_injective(a, b);
        let n = 11 + ta.len() as int;
        assert(k.subrange(n, k.len() as int) =~= identity_text(s));
        assert(balance_key(b, t).subrange(n, k.len() as int) =~= identity_text(t));
        assert(identity_text(s).drop_first() =~= hex_text(s));
        assert(identity_text(t).drop_first() =~= hex_text(t));
        lemma_hex_text_injective(s, t);
    }
}

/// Balance keys lie in the balance family, and the other fixed keys do not.
pub proof fn lemma_key_families(id: Seq<u8>, symbol: Seq<u8>, tid: Seq<u8>)
    ensures
        is_balance_key(balance_key(id, symbol)),
        !is_balance_key(height_key()),
        !is_balance_key(transactions_count_key()),
        !is_balance_key(symbols_key()),
        !is_balance_key(transaction_key(tid)),
        height_key() != transactions_count_key(),
        transaction_key(tid) != transactions_count_key(),
        transaction_key(tid) != height_key(),
        !is_tx_key(balance_key(id, symbol)),
        !is_tx_key(height_key()),
        !is_tx_key(transactions_count_key()),
        is_tx_key(transaction_key(tid)),
        !is_tx_key(symbols_key()),
{
    lemma_not_tx_key(symbols_key());
    lemma_not_tx_key(balance_key(id, symbol));
    lemma_not_tx_key(height_key());
    crate::tid::lemma_transaction_key_len(tid);
    assert(transaction_key(tid).subrange(0, 14) =~= transactions_root());
    assert(balance_key(id, symbol).subrange(0, 10) =~= balances_prefix());
    assert(transactions_count_key().subrange(0, 10)[1] != balances_prefix()[1]);
    assert(symbols_key().subrange(0, 10)[1] != balances_prefix()[1]);
    let tk = transaction_key(tid);
    crate::tid::lemma_transaction_key_len(tid);
    assert(tk[1] == transactions_root()[1]);
    assert(tk.subrange(0, 10)[1] != balances_prefix()[1]);
    assert(height_key().len() != transactions_count_key().len());
    assert(tk.len() != transactions_count_key().len());
    assert(tk.len() != height_key().len());
}

/// `/accounts/`
pub open spec fn accounts_prefix() -> Seq<u8> {
    seq![47u8, 97, 99, 99, 111, 117, 110, 116, 115, 47]
}

/// `/multisig/`
pub open spec fn multisig_prefix() -> Seq<u8> {
    seq![47u8, 109, 117, 108, 116, 105, 115, 105, 103, 47]
}

/// `/config/account_id`
pub open spec fn account_id_key() -> Seq<u8> {
    seq![47u8, 99, 111, 110, 102, 105, 103, 47, 97, 99, 99, 111, 117, 110, 116, 95, 105, 100]
}

/// `/config/identity`
pub open spec fn identity_key() -> Seq<u8> {
    seq![47u8, 99, 111, 110, 102, 105, 103, 47, 105, 100, 101, 110, 116, 105, 116, 121]
}

/// `/config/minters`
pub open spec fn minters_key() -> Seq<u8> {
    seq![47u8, 99, 111, 110, 102, 105, 103, 47, 109, 105, 110, 116, 101, 114, 115]
}

/// The key of an account record: `/accounts/<id>`.
pub open spec fn account_key(id: Seq<u8>) -> Seq<u8> {
    accounts_prefix() + identity_text(id)
}

/// The key of a pending multisig record: `/multisig/` and the token bytes.
pub open spec fn multisig_key(token: Seq<u8>) -> Seq<u8> {
    multisig_prefix() + token
}

/// Keys of the ledger's records that hold neither a balance nor a counter.
pub open spec fn is_record_key(k: Seq<u8>) -> bool {
    !is_balance_key(k) && k != height_key() && k != transactions_count_key() && !is_tx_key(k)
}

/// Whether a key lies in the transaction log: `/transactions/` and 32 bytes.
pub open spec fn is_tx_key(k: Seq<u8>) -> bool {
    k.len() == 46 && k.subrange(0, 14) == transactions_root()
}

/// The id value that a transaction key holds.
pub open spec fn tx_key_value(k: Seq<u8>) -> nat {
    be_value(k.subrange(14, 46))
}

/// A key whose second byte is not `t` is not in the transaction log.
pub proof fn lemma_not_tx_key(k: Seq<u8>)
    requires
        k.len() >= 2,
        k[1] != 116u8,
    ensures
        !is_tx_key(k),
{
    if k.len() == 46 {
        assert(k.subrange(0, 14)[1] != transactions_root()[1]);
    }
}

pub proof fn lemma_record_keys(id: Seq<u8>, token: Seq<u8>)
    ensures
        is_record_key(account_key(id)),
        is_record_key(multisig_key(token)),
        is_record_key(account_id_key()),
        is_record_key(identity_key()),
        account_key(id) != account_id_key(),
        identity_key() != symbols_key(),
        is_record_key(minters_key()),
{
    lemma_hex_text_len(id);
    lemma_not_tx_key(account_key(id));
    lemma_not_tx_key(multisig_key(token));
    lemma_not_tx_key(account_id_key());
    lemma_not_tx_key(identity_key());
    lemma_not_tx_key(minters_key());
    assert(minters_key().subrange(0, 10)[1] != balances_prefix()[1]);
    assert(minters_key().len() != height_key().len());
    assert(minters_key().len() != transactions_count_key().len());
    assert(identity_key().subrange(0, 10)[1] != balances_prefix()[1]);
    assert(identity_key().len() != height_key().len());
    assert(identity_key().len() != transactions_count_key().len());
    assert(identity_key().len() != symbols_key().len());
    lemma_hex_text_len(id);
    let a = account_key(id);
    let m = multisig_key(token);
    assert(a[1] == 97u8);
    assert(m[1] == 109u8);
    assert(a.len() >= 10 ==> a.subrange(0, 10)[1] != balances_prefix()[1]);
    assert(m.len() >= 10 ==> m.subrange(0, 10)[1] != balances_prefix()[1]);
    assert(a[1] != height_key()[1]);
    assert(a[1] != transactions_count_key()[1]);
    assert(m[1] != height_key()[1]);
    assert(m[1] != transactions_count_key()[1]);
    assert(a[1] != account_id_key()[1]);
    assert(account_id_key().subrange(0, 10)[1] != balances_prefix()[1]);
    assert(account_id_key().len() != height_key().len());
    assert(account_id_key().len() != transactions_count_key().len());
}

pub fn account_key_bytes(id: &Identity) -> (r: Vec<u8>)
    ensures
        r@ == account_key(id@),
{
    let mut r: Vec<u8> = vec![47u8, 97, 99, 99, 111, 117, 110, 116, 115, 47];
    proof {
        assert(r@ =~= accounts_prefix());
    }
    append(&mut r, &id.text());
    r
}

pub fn multisig_key_bytes(token: &Vec<u8>) -> (r: Vec<u8>)
    ensures
        r@ == multisig_key(token@),
{
    let mut r: Vec<u8> = vec![47u8, 109, 117, 108, 116, 105, 115, 105, 103, 47];
    proof {
        assert(r@ =~= multisig_prefix());
    }
    append(&mut r, token);
    r
}

pub fn minters_key_bytes() -> (r: Vec<u8>)
    ensures
        r@ == minters_key(),
{
    let r: Vec<u8> = vec![47u8, 99, 111, 110, 102, 105, 103, 47, 109, 105, 110, 116, 101, 114, 115];
    proof {
        assert(r@ =~= minters_key());
    }
    r
}

pub fn identity_key_bytes() -> (r: Vec<u8>)
    ensures
        r@ == identity_key(),
{
    let r: Vec<u8> = vec![47u8, 99, 111, 110, 102, 105, 103, 47, 105, 100, 101, 110, 116, 105, 116, 121];
    proof {
        assert(r@ =~= identity_key());
    }
    r
}

pub fn account_id_key_bytes() -> (r: Vec<u8>)
    ensures
        r@ == account_id_key(),
{
    let r: Vec<u8> = vec![47u8, 99, 111, 110, 102, 105, 103, 47, 97, 99, 99, 111, 117, 110, 116, 95, 105, 100];
    proof {
        assert(r@ =~= account_id_key());
    }
    r
}

} // verus!

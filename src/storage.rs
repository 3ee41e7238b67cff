use vstd::prelude::*;

use crate::bytes::{be_bytes, be_to_u64, be_value, compare_bytes, lex_lt, pow256, u64_to_be};
use crate::codec::{
    amount_from_bytes, amount_to_bytes, cbor_bytes, cbor_head, minimal_be, push_cbor_bytes,
    push_cbor_head,
};
use crate::identity::{anonymous_bytes, subresource_bytes, Identity, Symbol};
use crate::iter::{is_scan, lower_key, upper_key, CborRange, LedgerIterator, SortOrder};
use crate::keys::{
    account_id_key, account_id_key_bytes, account_key, account_key_bytes, balance_key, height_key,
    identity_key, identity_key_bytes, minters_key, minters_key_bytes, is_tx_key, tx_key_value,
    height_key_bytes, is_balance_key, is_record_key, key_for_account, lemma_balance_key_unique,
    lemma_key_families, lemma_record_keys, multisig_key, multisig_key_bytes, symbols_key,
    symbols_key_bytes, transactions_count_key, transactions_count_key_bytes,
};
use crate::multisig::{
    account_cbor, account_has_role, approved_count, approved_count_with, build_approvers,
    count_approved, encode_account, encode_pending, find_approver, has_role, is_approver,
    lemma_approved_count_with, multisig_feature, multisig_feature_of, pending_cbor, resolve_bool,
    resolve_spec, resolve_u64, set_approval, Account, AccountFeature, MultisigFeature,
    PendingMultisig, Role, SubmitTransactionArgs, MULTISIG_DEFAULT_EXECUTE_AUTOMATICALLY,
    MULTISIG_DEFAULT_THRESHOLD, MULTISIG_DEFAULT_TIMEOUT_IN_SECS, MULTISIG_MAXIMUM_TIMEOUT_IN_SECS,
};
use crate::store::{
    apply_writes, batch_view, keys_ascending, lemma_apply_writes_concat, sorted_pair, BatchEntry,
    KvStore, Op,
};
use crate::tid::{inc_bytes, key_for_transaction, transaction_key, TransactionId};
use crate::transaction::{
    encode_transaction, send_record_cbor, supply_record_cbor, TokenAmount, Transaction,
    TransactionInfo,
};

verus! {

/// Errors of the ledger.
#[derive(PartialEq, Eq, Structural, Debug, Clone, Copy)]
pub enum LedgerError {
    AnonymousCannotHoldFunds,
    InsufficientFunds,
    UnknownAccount,
    UserNeedsRole(Role),
    UnknownSymbol,
    TransactionCannotBeFound,
    UserCannotApproveTransaction,
    CannotExecuteTransaction,
    TransactionTypeUnsupported,
    InvalidTransaction,
    Serialization,
    Deserialization,
    /// A storage limit was reached: a counter or a balance would no longer
    /// fit its stored width.
    Unknown,
}

/// Relies on std's `SystemTime::now`: the wall clock in whole seconds since
/// the Unix epoch (0 for a clock set before it). Nothing is promised of it.
#[verifier::external_body]
fn wall_clock_secs() -> u64 {
    std::time::SystemTime::now().duration_since(std::time::UNIX_EPOCH).map_or(0, |d| d.as_secs())
}

/// What a block commit reports to the consensus layer.
pub struct AbciCommitInfo {
    /// Always 0: no historical state may be pruned.
    pub retain_height: u64,
    pub hash: Vec<u8>,
}

/// The balance that a store holds for `id` in `symbol`: zero when absent, and
/// always zero for the anonymous identity.
pub open spec fn balance_in(m: Map<Seq<u8>, Seq<u8>>, id: Seq<u8>, symbol: Seq<u8>) -> nat {
    if id == anonymous_bytes() {
        0
    } else if m.contains_key(balance_key(id, symbol)) {
        be_value(m[balance_key(id, symbol)])
    } else {
        0
    }
}

/// A counter stored as 8 big-endian bytes, zero when absent.
pub open spec fn counter_in(m: Map<Seq<u8>, Seq<u8>>, key: Seq<u8>) -> nat {
    if m.contains_key(key) {
        be_value(m[key])
    } else {
        0
    }
}

/// What the ledger needs of its store: counters of 8 bytes and balances that
/// fit in 16 bytes.
pub open spec fn store_wf(m: Map<Seq<u8>, Seq<u8>>) -> bool {
    &&& m.contains_key(height_key()) ==> m[height_key()].len() == 8
    &&& m.contains_key(transactions_count_key()) ==> m[transactions_count_key()].len() == 8
    &&& forall|k: Seq<u8>| #[trigger] m.contains_key(k) && is_balance_key(k) ==> m[k].len() <= 16
}

/// What keeps transaction ids fresh: the last id fits the fixed width and no
/// record of the log has a larger id.
pub open spec fn ids_in_order(m: Map<Seq<u8>, Seq<u8>>, last: Seq<u8>) -> bool {
    &&& last.len() <= 32
    &&& forall|k: Seq<u8>| #[trigger] m.contains_key(k) && is_tx_key(k) ==> tx_key_value(k) <= be_value(last)
}

/// A write under a key that is neither in the log nor the height keeps the
/// ids in order.
pub proof fn lemma_order_kept(m0: Map<Seq<u8>, Seq<u8>>, k: Seq<u8>, v: Option<Seq<u8>>, last: Seq<u8>)
    requires
        ids_in_order(m0, last),
        !is_tx_key(k),
        k != height_key(),
    ensures
        ({
            let m = match v {
                Some(x) => m0.insert(k, x),
                None => m0.remove(k),
            };
            ids_in_order(m, last) && counter_in(m, height_key()) == counter_in(m0, height_key())
        }),
{
    let m = match v {
        Some(x) => m0.insert(k, x),
        None => m0.remove(k),
    };
    assert forall|q: Seq<u8>| #[trigger] m.contains_key(q) && is_tx_key(q) implies tx_key_value(q) <= be_value(last) by {
        assert(m0.contains_key(q));
    }
}

/// The keys of the transaction log.
pub open spec fn log_keys(m: Map<Seq<u8>, Seq<u8>>) -> Set<Seq<u8>> {
    m.dom().filter(|k: Seq<u8>| is_tx_key(k))
}

/// The log count equals the number of records in the log.
pub open spec fn log_counted(m: Map<Seq<u8>, Seq<u8>>) -> bool {
    counter_in(m, transactions_count_key()) == log_keys(m).len()
}

/// A write outside the log and its count keeps the log counted.
pub proof fn lemma_log_kept(m0: Map<Seq<u8>, Seq<u8>>, k: Seq<u8>, v: Option<Seq<u8>>)
    requires
        log_counted(m0),
        !is_tx_key(k),
        k != transactions_count_key(),
    ensures
        ({
            let m = match v {
                Some(x) => m0.insert(k, x),
                None => m0.remove(k),
            };
            log_counted(m) && log_keys(m) == log_keys(m0)
        }),
{
    let m = match v {
        Some(x) => m0.insert(k, x),
        None => m0.remove(k),
    };
    assert(log_keys(m) =~= log_keys(m0));
}

/// A new record under a fresh log key, with the count raised by one, keeps
/// the log counted.
pub proof fn lemma_log_grows(m0: Map<Seq<u8>, Seq<u8>>, k: Seq<u8>, v: Seq<u8>, c: Seq<u8>)
    requires
        log_counted(m0),
        m0.dom().finite(),
        is_tx_key(k),
        !m0.contains_key(k),
        be_value(c) == counter_in(m0, transactions_count_key()) + 1,
    ensures
        log_counted(m0.insert(k, v).insert(transactions_count_key(), c)),
{
    let m = m0.insert(k, v).insert(transactions_count_key(), c);
    crate::keys::lemma_key_families(Seq::empty(), Seq::empty(), Seq::empty());
    assert(log_keys(m) =~= log_keys(m0).insert(k));
    m0.dom().lemma_len_filter(|q: Seq<u8>| is_tx_key(q));
}

/// The symbol table as plain values.
pub open spec fn symbols_view(s: Seq<(Symbol, String)>) -> Seq<(Seq<u8>, Seq<char>)> {
    s.map_values(|p: (Symbol, String)| (p.0@, p.1@))
}

pub open spec fn symbol_listed(s: Seq<(Seq<u8>, Seq<char>)>, symbol: Seq<u8>) -> bool {
    exists|i: int| 0 <= i < s.len() && #[trigger] s[i].0 == symbol
}

/// The entries of the stored symbol table, each a CBOR byte string (the
/// symbol) and a CBOR text string (its name).
pub open spec fn symbol_entries_cbor(s: Seq<(Seq<u8>, Seq<char>)>) -> Seq<u8>
    decreases s.len(),
{
    if s.len() == 0 {
        Seq::empty()
    } else {
        let name = vstd::utf8::encode_utf8(s.last().1);
        symbol_entries_cbor(s.drop_last()) + cbor_bytes(s.last().0) + cbor_head(3, name.len() as u64)
            + name
    }
}

/// The stored form of the symbol table: a CBOR map from symbol to name.
pub open spec fn symbols_cbor(s: Seq<(Seq<u8>, Seq<char>)>) -> Seq<u8> {
    cbor_head(5, s.len() as u64) + symbol_entries_cbor(s)
}

/// Whether `id` is one of the first `next` sub-identities of `parent`.
pub open spec fn allocated_id(parent: Seq<u8>, next: u32, id: Seq<u8>) -> bool {
    exists|n: u32| n < next && id == #[trigger] subresource_bytes(parent, n)
}

/// The account of `id`, if the registry holds one.
pub open spec fn account_in(s: Seq<(Identity, Account)>, id: Seq<u8>) -> Option<Account> {
    if exists|i: int| 0 <= i < s.len() && #[trigger] s[i].0@ == id {
        Some(s[choose|i: int| 0 <= i < s.len() && #[trigger] s[i].0@ == id].1)
    } else {
        None
    }
}

/// The pending multisig transaction under `token`, if any.
pub open spec fn pending_in(s: Seq<(Vec<u8>, PendingMultisig)>, token: Seq<u8>) -> Option<PendingMultisig> {
    if exists|i: int| 0 <= i < s.len() && #[trigger] s[i].0@ == token {
        Some(s[choose|i: int| 0 <= i < s.len() && #[trigger] s[i].0@ == token].1)
    } else {
        None
    }
}

/// With distinct ids, the account at position `i` is the account of its id.
pub proof fn lemma_account_in_at(s: Seq<(Identity, Account)>, i: int)
    requires
        0 <= i < s.len(),
        forall|a: int, b: int| 0 <= a < b < s.len() ==> #[trigger] s[a].0@ != #[trigger] s[b].0@,
    ensures
        account_in(s, s[i].0@) == Some(s[i].1),
{
    let id = s[i].0@;
    assert(exists|k: int| 0 <= k < s.len() && #[trigger] s[k].0@ == id);
    let k = choose|k: int| 0 <= k < s.len() && #[trigger] s[k].0@ == id;
    if k < i {
        assert(s[k].0@ != s[i].0@);
    } else if k > i {
        assert(s[i].0@ != s[k].0@);
    }
}

/// With distinct tokens, the record at position `i` is the record of its token.
pub proof fn lemma_pending_in_at(s: Seq<(Vec<u8>, PendingMultisig)>, i: int)
    requires
        0 <= i < s.len(),
        forall|a: int, b: int| 0 <= a < b < s.len() ==> #[trigger] s[a].0@ != #[trigger] s[b].0@,
    ensures
        pending_in(s, s[i].0@) == Some(s[i].1),
{
    let id = s[i].0@;
    assert(exists|k: int| 0 <= k < s.len() && #[trigger] s[k].0@ == id);
    let k = choose|k: int| 0 <= k < s.len() && #[trigger] s[k].0@ == id;
    if k < i {
        assert(s[k].0@ != s[i].0@);
    } else if k > i {
        assert(s[i].0@ != s[k].0@);
    }
}

/// Replacing the record at `i` keeps the other tokens' records.
proof fn lemma_pending_update(s: Seq<(Vec<u8>, PendingMultisig)>, i: int, e: (Vec<u8>, PendingMultisig))
    requires
        0 <= i < s.len(),
        e.0@ == s[i].0@,
        forall|a: int, b: int| 0 <= a < b < s.len() ==> #[trigger] s[a].0@ != #[trigger] s[b].0@,
    ensures
        forall|a: int, b: int| 0 <= a < b < s.update(i, e).len() ==> #[trigger] s.update(i, e)[a].0@ != #[trigger] s.update(i, e)[b].0@,
        pending_in(s.update(i, e), e.0@) == Some(e.1),
        forall|t: Seq<u8>| t != e.0@ ==> #[trigger] pending_in(s.update(i, e), t) == pending_in(s, t),
{
    let u = s.update(i, e);
    assert forall|a: int, b: int| 0 <= a < b < u.len() implies #[trigger] u[a].0@ != #[trigger] u[b].0@ by {
        assert(u[a].0@ == s[a].0@);
        assert(u[b].0@ == s[b].0@);
    }
    lemma_pending_in_at(u, i);
    assert forall|t: Seq<u8>| t != e.0@ implies #[trigger] pending_in(u, t) == pending_in(s, t) by {
        if exists|k: int| 0 <= k < s.len() && #[trigger] s[k].0@ == t {
            let k = choose|k: int| 0 <= k < s.len() && #[trigger] s[k].0@ == t;
            lemma_pending_in_at(s, k);
            assert(u[k] == s[k]);
            lemma_pending_in_at(u, k);
        } else {
            assert forall|k: int| 0 <= k < u.len() implies #[trigger] u[k].0@ != t by {
                assert(u[k].0@ == s[k].0@);
            }
        }
    }
}

/// Removing the record at `i` keeps the other tokens' records.
proof fn lemma_pending_remove(s: Seq<(Vec<u8>, PendingMultisig)>, i: int)
    requires
        0 <= i < s.len(),
        forall|a: int, b: int| 0 <= a < b < s.len() ==> #[trigger] s[a].0@ != #[trigger] s[b].0@,
    ensures
        forall|a: int, b: int| 0 <= a < b < s.remove(i).len() ==> #[trigger] s.remove(i)[a].0@ != #[trigger] s.remove(i)[b].0@,
        pending_in(s.remove(i), s[i].0@) is None,
        forall|t: Seq<u8>| t != s[i].0@ ==> #[trigger] pending_in(s.remove(i), t) == pending_in(s, t),
{
    let u = s.remove(i);
    assert forall|a: int, b: int| 0 <= a < b < u.len() implies #[trigger] u[a].0@ != #[trigger] u[b].0@ by {
        let a0 = if a < i { a } else { a + 1 };
        let b0 = if b < i { b } else { b + 1 };
        assert(u[a] == s[a0]);
        assert(u[b] == s[b0]);
    }
    assert forall|k: int| 0 <= k < u.len() implies #[trigger] u[k].0@ != s[i].0@ by {
        let k0 = if k < i { k } else { k + 1 };
        assert(u[k] == s[k0]);
    }
    assert forall|t: Seq<u8>| t != s[i].0@ implies #[trigger] pending_in(u, t) == pending_in(s, t) by {
        if exists|k: int| 0 <= k < s.len() && #[trigger] s[k].0@ == t {
            let k = choose|k: int| 0 <= k < s.len() && #[trigger] s[k].0@ == t;
            lemma_pending_in_at(s, k);
            let k1 = if k < i { k } else { k - 1 };
            assert(k != i);
            assert(u[k1] == s[k]);
            lemma_pending_in_at(u, k1);
        } else {
            assert forall|k: int| 0 <= k < u.len() implies #[trigger] u[k].0@ != t by {
                let k0 = if k < i { k } else { k + 1 };
                assert(u[k] == s[k0]);
            }
        }
    }
}

/// The checks of approve and revoke, in order: the record exists, its
/// account exists, the sender holds `canMultisigApprove` on it and is one of
/// the record's approvers.
pub open spec fn approval_checks(l: &LedgerStorage, sender: Seq<u8>, token: Seq<u8>) -> Result<(), LedgerError> {
    match l.multisig_at(token) {
        None => Err(LedgerError::TransactionCannotBeFound),
        Some(p) => match l.account(p.account@) {
            None => Err(LedgerError::UnknownAccount),
            Some(a) => if !account_has_role(a, sender, Role::CanMultisigApprove) {
                Err(LedgerError::UserNeedsRole(Role::CanMultisigApprove))
            } else if !is_approver(p.approvers@, sender) {
                Err(LedgerError::UserCannotApproveTransaction)
            } else {
                Ok(())
            },
        },
    }
}

/// The checks of execute, in order: the record exists, its account exists,
/// the sender is an owner of the account or the submitter, and enough
/// approvers have approved.
pub open spec fn execute_checks(l: &LedgerStorage, sender: Seq<u8>, token: Seq<u8>) -> Result<(), LedgerError> {
    match l.multisig_at(token) {
        None => Err(LedgerError::TransactionCannotBeFound),
        Some(p) => match l.account(p.account@) {
            None => Err(LedgerError::UnknownAccount),
            Some(a) => if !account_has_role(a, sender, Role::Owner) && sender != p.submitter@ {
                Err(LedgerError::UserNeedsRole(Role::CanMultisigApprove))
            } else if approved_count(p.approvers@) < p.threshold {
                Err(LedgerError::CannotExecuteTransaction)
            } else {
                Ok(())
            },
        },
    }
}

/// The checks of withdraw, in order: the record exists, its account exists,
/// and the sender is an owner of the account or the submitter.
pub open spec fn withdraw_checks(l: &LedgerStorage, sender: Seq<u8>, token: Seq<u8>) -> Result<(), LedgerError> {
    match l.multisig_at(token) {
        None => Err(LedgerError::TransactionCannotBeFound),
        Some(p) => match l.account(p.account@) {
            None => Err(LedgerError::UnknownAccount),
            Some(a) => if !account_has_role(a, sender, Role::Owner) && sender != p.submitter@ {
                Err(LedgerError::UserNeedsRole(Role::Owner))
            } else {
                Ok(())
            },
        },
    }
}

/// Who may act on a pending multisig transaction: approving and revoking
/// need `canMultisigApprove`, executing and withdrawing need the owner role or
/// being the submitter; a caller without that right gets `UserNeedsRole`, and
/// no other caller does.
pub proof fn lemma_multisig_authorisation(l: &LedgerStorage, sender: Seq<u8>, token: Seq<u8>)
    requires
        l.multisig_at(token) is Some,
        l.account(l.multisig_at(token).unwrap().account@) is Some,
    ensures
        ({
            let p = l.multisig_at(token).unwrap();
            let a = l.account(p.account@).unwrap();
            &&& approval_checks(l, sender, token) == Err::<(), LedgerError>(
                LedgerError::UserNeedsRole(Role::CanMultisigApprove),
            ) <==> !account_has_role(a, sender, Role::CanMultisigApprove)
            &&& execute_checks(l, sender, token) == Err::<(), LedgerError>(
                LedgerError::UserNeedsRole(Role::CanMultisigApprove),
            ) <==> !(account_has_role(a, sender, Role::Owner) || sender == p.submitter@)
            &&& withdraw_checks(l, sender, token) == Err::<(), LedgerError>(
                LedgerError::UserNeedsRole(Role::Owner),
            ) <==> !(account_has_role(a, sender, Role::Owner) || sender == p.submitter@)
        }),
{
}

/// `q` is `p` with the approval of `id` set to `v`.
pub open spec fn approval_updated(p: PendingMultisig, q: PendingMultisig, id: Seq<u8>, v: bool) -> bool {
    &&& q.account == p.account
    &&& q.memo == p.memo
    &&& q.transaction == p.transaction
    &&& q.submitter == p.submitter
    &&& q.threshold == p.threshold
    &&& q.execute_automatically == p.execute_automatically
    &&& q.timeout == p.timeout
    &&& q.approvers@.len() == p.approvers@.len()
    &&& forall|j: int|
        #![trigger q.approvers@[j]]
        0 <= j < p.approvers@.len() ==> q.approvers@[j].identity@ == p.approvers@[j].identity@ && (
        p.approvers@[j].identity@ == id ==> q.approvers@[j].approved == v) && (p.approvers@[j].identity@
            != id ==> q.approvers@[j].approved == p.approvers@[j].approved)
}

/// Whether `id` is one of the first `next` sub-identities of `parent`.
fn is_allocated(parent: &Identity, next: u32, id: &Identity) -> (r: bool)
    ensures
        r == allocated_id(parent@, next, id@),
{
    let p = parent.to_vec();
    let b = id.to_vec();
    proof {
        if allocated_id(parent@, next, id@) {
            let n = choose|n: u32| n < next && id@ == #[trigger] subresource_bytes(parent@, n);
            crate::bytes::lemma_be_bytes_len(n as nat, 4);
            assert(subresource_bytes(parent@, n).len() == parent@.len() + 5);
            assert(subresource_bytes(parent@, n)[0] == 0x80u8);
        }
    }
    if p.len() > usize::MAX - 5 || b.len() != p.len() + 5 || b[0] != 0x80 {
        return false;
    }
    let mut i: usize = 0;
    while i < p.len()
        invariant
            i <= p@.len(),
            p@ == parent@,
            b@ == id@,
            b@[0] == 0x80u8,
            b@.len() == p@.len() + 5,
            forall|j: int| 0 <= j < i ==> b@[j + 1] == p@[j],
        decreases p.len() - i,
    {
        if b[i + 1] != p[i] {
            proof {
                if allocated_id(parent@, next, id@) {
                    let n = choose|n: u32| n < next && id@ == #[trigger] subresource_bytes(parent@, n);
                    crate::bytes::lemma_be_bytes_len(n as nat, 4);
                    assert(subresource_bytes(parent@, n)[i as int + 1] == parent@[i as int]);
                }
            }
            return false;
        }
        i = i + 1;
    }
    let k = p.len() + 1;
    let tail: Vec<u8> = vec![b[k], b[k + 1], b[k + 2], b[k + 3]];
    let n64 = amount_from_bytes(&tail);
    proof {
        crate::bytes::lemma_be_value_bound(tail@);
        assert(pow256(4) == 0x1_0000_0000) by {
            reveal_with_fuel(pow256, 5);
        }
        crate::bytes::lemma_be_bytes_of_value(tail@);
    }
    if n64 >= next as u128 {
        proof {
            if allocated_id(parent@, next, id@) {
                let n = choose|n: u32| n < next && id@ == #[trigger] subresource_bytes(parent@, n);
                assert(tail@ =~= subresource_bytes(parent@, n).subrange(k as int, k as int + 4));
                assert(subresource_bytes(parent@, n).subrange(k as int, k as int + 4) =~= be_bytes(n as nat, 4));
                crate::bytes::lemma_be_bytes_value(n as nat, 4);
            }
        }
        return false;
    }
    let n = n64 as u32;
    proof {
        assert(id@ =~= subresource_bytes(parent@, n));
    }
    true
}

/// Whether the accounts have distinct ids, each one of the first `next`
/// sub-identities of `parent`.
pub open spec fn accounts_ok(parent: Seq<u8>, next: u32, accounts: Seq<(Identity, Account)>) -> bool {
    &&& forall|i: int, j: int| 0 <= i < j < accounts.len() ==> #[trigger] accounts[i].0@ != #[trigger] accounts[j].0@
    &&& forall|i: int| 0 <= i < accounts.len() ==> allocated_id(parent, next, #[trigger] accounts[i].0@)
}

/// Whether the pending records have distinct tokens.
pub open spec fn tokens_distinct(pending: Seq<(Vec<u8>, PendingMultisig)>) -> bool {
    forall|i: int, j: int| 0 <= i < j < pending.len() ==> #[trigger] pending[i].0@ != #[trigger] pending[j].0@
}

fn check_accounts(parent: &Identity, next: u32, accounts: &Vec<(Identity, Account)>) -> (r: bool)
    ensures
        r == accounts_ok(parent@, next, accounts@),
{
    let mut i: usize = 0;
    while i < accounts.len()
        invariant
            i <= accounts@.len(),
            forall|a: int, b: int| 0 <= a < b < i ==> #[trigger] accounts@[a].0@ != #[trigger] accounts@[b].0@,
            forall|a: int| 0 <= a < i ==> allocated_id(parent@, next, #[trigger] accounts@[a].0@),
        decreases accounts.len() - i,
    {
        if !is_allocated(parent, next, &accounts[i].0) {
            return false;
        }
        let mut j: usize = 0;
        while j < i
            invariant
                j <= i,
                i < accounts@.len(),
                forall|a: int| 0 <= a < j ==> #[trigger] accounts@[a].0@ != accounts@[i as int].0@,
            decreases i - j,
        {
            if accounts[j].0.same_as(&accounts[i].0) {
                return false;
            }
            j = j + 1;
        }
        i = i + 1;
    }
    true
}

fn check_tokens(pending: &Vec<(Vec<u8>, PendingMultisig)>) -> (r: bool)
    ensures
        r == tokens_distinct(pending@),
{
    let mut i: usize = 0;
    while i < pending.len()
        invariant
            i <= pending@.len(),
            forall|a: int, b: int| 0 <= a < b < i ==> #[trigger] pending@[a].0@ != #[trigger] pending@[b].0@,
        decreases pending.len() - i,
    {
        let mut j: usize = 0;
        while j < i
            invariant
                j <= i,
                i < pending@.len(),
                forall|a: int| 0 <= a < j ==> #[trigger] pending@[a].0@ != pending@[i as int].0@,
            decreases i - j,
        {
            if compare_bytes(&pending[j].0, &pending[i].0) == 0 {
                return false;
            }
            j = j + 1;
        }
        i = i + 1;
    }
    true
}

/// Whether the store holds exactly the given accounts, pending records and
/// minters under their keys.
pub open spec fn records_match(
    m: Map<Seq<u8>, Seq<u8>>,
    accounts: Seq<(Identity, Account)>,
    pending: Seq<(Vec<u8>, PendingMultisig)>,
    minters: Seq<(Symbol, Vec<Identity>)>,
) -> bool {
    &&& forall|i: int|
        0 <= i < accounts.len() ==> m.contains_key(account_key(#[trigger] accounts[i].0@))
            && m[account_key(accounts[i].0@)] == account_cbor(accounts[i].1)
    &&& forall|i: int|
        0 <= i < pending.len() ==> m.contains_key(multisig_key(#[trigger] pending[i].0@))
            && m[multisig_key(pending[i].0@)] == pending_cbor(pending[i].1)
    &&& if m.contains_key(minters_key()) {
        m[minters_key()] == minters_cbor(minters)
    } else {
        minters.len() == 0
    }
}

/// Whether `store` holds `value` under `key`.
fn holds(store: &KvStore, key: &Vec<u8>, value: &Vec<u8>) -> (r: bool)
    requires
        store.wf(),
    ensures
        r == (store@.contains_key(key@) && store@[key@] == value@),
{
    match store.get(key) {
        Some(v) => compare_bytes(&v, value) == 0,
        None => false,
    }
}

fn check_records(
    store: &KvStore,
    accounts: &Vec<(Identity, Account)>,
    pending: &Vec<(Vec<u8>, PendingMultisig)>,
    minters: &Vec<(Symbol, Vec<Identity>)>,
) -> (r: bool)
    requires
        store.wf(),
    ensures
        r == records_match(store@, accounts@, pending@, minters@),
{
    let mut i: usize = 0;
    while i < accounts.len()
        invariant
            store.wf(),
            i <= accounts@.len(),
            forall|j: int|
                0 <= j < i ==> store@.contains_key(account_key(#[trigger] accounts@[j].0@))
                    && store@[account_key(accounts@[j].0@)] == account_cbor(accounts@[j].1),
        decreases accounts.len() - i,
    {
        if !holds(store, &account_key_bytes(&accounts[i].0), &encode_account(&accounts[i].1)) {
            return false;
        }
        i = i + 1;
    }
    let mut i: usize = 0;
    while i < pending.len()
        invariant
            store.wf(),
            i <= pending@.len(),
            forall|j: int|
                0 <= j < i ==> store@.contains_key(multisig_key(#[trigger] pending@[j].0@))
                    && store@[multisig_key(pending@[j].0@)] == pending_cbor(pending@[j].1),
        decreases pending.len() - i,
    {
        if !holds(store, &multisig_key_bytes(&pending[i].0), &encode_pending(&pending[i].1)) {
            return false;
        }
        i = i + 1;
    }
    match store.get(&minters_key_bytes()) {
        Some(v) => compare_bytes(&v, &encode_minters(minters)) == 0,
        None => minters.len() == 0,
    }
}

/// Whether no record of the log has an id above `v`.
pub open spec fn log_below(m: Map<Seq<u8>, Seq<u8>>, v: nat) -> bool {
    forall|k: Seq<u8>| #[trigger] m.contains_key(k) && is_tx_key(k) ==> tx_key_value(k) <= v
}

fn is_tx_key_exec(k: &Vec<u8>) -> (r: bool)
    ensures
        r == is_tx_key(k@),
{
    if k.len() != 46 {
        return false;
    }
    let root = crate::tid::transactions_root_bytes();
    let mut i: usize = 0;
    while i < 14
        invariant
            i <= 14,
            k@.len() == 46,
            root@ == crate::tid::transactions_root(),
            forall|j: int| 0 <= j < i ==> k@[j] == root@[j],
        decreases 14 - i,
    {
        if k[i] != root[i] {
            proof {
                assert(k@.subrange(0, 14)[i as int] != root@[i as int]);
            }
            return false;
        }
        i = i + 1;
    }
    proof {
        assert(k@.subrange(0, 14) =~= root@);
    }
    true
}

/// Whether `count` is the number of records in the log of `store`.
fn check_count(store: &KvStore, count: u64) -> (r: bool)
    requires
        store.wf(),
    ensures
        r == (count as nat == log_keys(store@).len()),
{
    let lo = crate::tid::transactions_root_bytes();
    let mut hi = crate::tid::transactions_root_bytes();
    hi.set(13, 48u8);
    proof {
        assert(hi@ =~= crate::iter::transactions_end());
    }
    let items = store.range(&lo, &hi);
    let ghost seen: Seq<Seq<u8>> = Seq::empty();
    let mut n: usize = 0;
    let mut i: usize = 0;
    while i < items.len()
        invariant
            i <= items@.len(),
            n == seen.len(),
            n <= i,
            seen.no_duplicates(),
            forall|a: int, b: int| 0 <= a < b < items@.len() ==> crate::bytes::lex_lt(#[trigger] items@[a].0@, #[trigger] items@[b].0@),
            forall|a: int| 0 <= a < seen.len() ==> exists|j: int| 0 <= j < i && items@[j].0@ == #[trigger] seen[a],
            forall|a: int| 0 <= a < seen.len() ==> is_tx_key(#[trigger] seen[a]),
            forall|j: int| 0 <= j < i && is_tx_key(#[trigger] items@[j].0@) ==> seen.contains(items@[j].0@),
            forall|a: int, j: int| 0 <= a < seen.len() && i <= j < items@.len() ==> crate::bytes::lex_lt(#[trigger] seen[a], #[trigger] items@[j].0@),
        decreases items.len() - i,
    {
        if is_tx_key_exec(&items[i].0) {
            proof {
                let k = items@[i as int].0@;
                assert forall|a: int| 0 <= a < seen.len() implies seen[a] != k by {
                    crate::bytes::lemma_lex_irreflexive(k);
                }
                let old_seen = seen;
                seen = seen.push(k);
                assert forall|a: int, b: int| 0 <= a < b < seen.len() implies seen[a] != seen[b] by {
                    if b == seen.len() - 1 {
                        assert(seen[a] == old_seen[a]);
                    } else {
                        assert(old_seen.no_duplicates());
                    }
                }
                assert forall|a: int| 0 <= a < seen.len() implies exists|j: int| 0 <= j < i + 1 && items@[j].0@ == #[trigger] seen[a] by {
                    if a < old_seen.len() {
                        assert(seen[a] == old_seen[a]);
                    } else {
                        assert(items@[i as int].0@ == seen[a]);
                    }
                }
                assert forall|j: int| 0 <= j < i + 1 && is_tx_key(#[trigger] items@[j].0@) implies seen.contains(items@[j].0@) by {
                    if j < i {
                        let a = choose|a: int| 0 <= a < old_seen.len() && old_seen[a] == items@[j].0@;
                        assert(seen[a] == old_seen[a]);
                    } else {
                        assert(seen[seen.len() - 1] == items@[j].0@);
                    }
                }
                assert forall|a: int, j: int| 0 <= a < seen.len() && i + 1 <= j < items@.len() implies crate::bytes::lex_lt(#[trigger] seen[a], #[trigger] items@[j].0@) by {
                    if a < old_seen.len() {
                        assert(seen[a] == old_seen[a]);
                    } else {
                        assert(crate::bytes::lex_lt(items@[i as int].0@, items@[j].0@));
                    }
                }
            }
            n = n + 1;
        } else {
            proof {
                assert forall|a: int, j: int| 0 <= a < seen.len() && i + 1 <= j < items@.len() implies crate::bytes::lex_lt(#[trigger] seen[a], #[trigger] items@[j].0@) by {
                }
            }
        }
        i = i + 1;
    }
    proof {
        assert(seen.to_set() =~= log_keys(store@)) by {
            assert forall|k: Seq<u8>| seen.to_set().contains(k) implies log_keys(store@).contains(k) by {
                let a = choose|a: int| 0 <= a < seen.len() && seen[a] == k;
                let j = choose|j: int| 0 <= j < items@.len() && items@[j].0@ == #[trigger] seen[a];
                assert(is_tx_key(seen[a]));
            }
            assert forall|k: Seq<u8>| log_keys(store@).contains(k) implies seen.to_set().contains(k) by {
                let t = k.subrange(14, 46);
                assert(crate::tid::tid32(t) =~= t);
                assert(k =~= crate::tid::transactions_root() + t);
                crate::iter::lemma_root_below_keys(t);
                assert(store@.contains_key(k));
                let j = choose|j: int| 0 <= j < items@.len() && #[trigger] items@[j].0@ == k;
            }
        }
        seen.unique_seq_to_set();
    }
    n as u64 == count
}

/// Every record of the log lies in the id space of blocks up to `height`:
/// its id is below `(height + 1) << 32`.
pub open spec fn log_fits(m: Map<Seq<u8>, Seq<u8>>, height: nat) -> bool {
    forall|k: Seq<u8>| #[trigger] m.contains_key(k) && is_tx_key(k) ==> tx_key_value(k) < (height + 1) * pow256(4)
}

/// Among log keys, bytewise order is the order of their ids.
proof fn lemma_tx_key_order(a: Seq<u8>, b: Seq<u8>)
    requires
        is_tx_key(a),
        is_tx_key(b),
        lex_lt(a, b),
    ensures
        tx_key_value(a) < tx_key_value(b),
{
    let sa = a.subrange(14, 46);
    let sb = b.subrange(14, 46);
    assert(crate::tid::tid32(sa) =~= sa);
    assert(crate::tid::tid32(sb) =~= sb);
    assert(a =~= crate::tid::transactions_root() + sa);
    assert(b =~= crate::tid::transactions_root() + sb);
    crate::tid::lemma_transaction_key_order(sa, sb);
}

/// The id bytes of the record with the largest id in the log, if any.
fn last_log_id(store: &KvStore) -> (r: Option<Vec<u8>>)
    requires
        store.wf(),
    ensures
        r is None ==> forall|k: Seq<u8>| #[trigger] store@.contains_key(k) ==> !is_tx_key(k),
        r matches Some(t) ==> t@.len() == 32 && store@.contains_key(crate::tid::transactions_root() + t@)
            && is_tx_key(crate::tid::transactions_root() + t@) && log_below(store@, be_value(t@)),
{
    let lo = crate::tid::transactions_root_bytes();
    let mut hi = crate::tid::transactions_root_bytes();
    hi.set(13, 48u8);
    proof {
        assert(hi@ =~= crate::iter::transactions_end());
    }
    let items = store.range(&lo, &hi);
    let mut best: Option<usize> = None;
    let mut i: usize = 0;
    while i < items.len()
        invariant
            i <= items@.len(),
            forall|a: int, b: int| 0 <= a < b < items@.len() ==> lex_lt(#[trigger] items@[a].0@, #[trigger] items@[b].0@),
            forall|j: int| 0 <= j < items@.len() ==> store@.contains_key(#[trigger] items@[j].0@),
            best is None ==> forall|j: int| 0 <= j < i ==> !is_tx_key(#[trigger] items@[j].0@),
            best matches Some(b) ==> b < i && is_tx_key(items@[b as int].0@) && forall|j: int|
                0 <= j < i && is_tx_key(#[trigger] items@[j].0@) ==> tx_key_value(items@[j].0@) <= tx_key_value(
                    items@[b as int].0@,
                ),
        decreases items.len() - i,
    {
        if is_tx_key_exec(&items[i].0) {
            proof {
                assert forall|j: int| 0 <= j < i + 1 && is_tx_key(#[trigger] items@[j].0@) implies tx_key_value(
                    items@[j].0@,
                ) <= tx_key_value(items@[i as int].0@) by {
                    if j < i {
                        lemma_tx_key_order(items@[j].0@, items@[i as int].0@);
                    }
                }
            }
            best = Some(i);
        }
        i = i + 1;
    }
    match best {
        None => {
            proof {
                assert forall|k: Seq<u8>| #[trigger] store@.contains_key(k) implies !is_tx_key(k) by {
                    if is_tx_key(k) {
                        let t = k.subrange(14, 46);
                        assert(crate::tid::tid32(t) =~= t);
                        assert(k =~= crate::tid::transactions_root() + t);
                        crate::iter::lemma_root_below_keys(t);
                        let j = choose|j: int| 0 <= j < items@.len() && #[trigger] items@[j].0@ == k;
                    }
                }
            }
            None
        },
        Some(b) => {
            let key = &items[b].0;
            let mut t: Vec<u8> = Vec::new();
            let mut k: usize = 14;
            while k < 46
                invariant
                    14 <= k <= 46,
                    key@.len() == 46,
                    t@ == key@.subrange(14, k as int),
                decreases 46 - k,
            {
                t.push(key[k]);
                proof {
                    assert(t@ =~= key@.subrange(14, k + 1));
                }
                k = k + 1;
            }
            proof {
                assert(key@ =~= crate::tid::transactions_root() + t@);
                assert forall|q: Seq<u8>| #[trigger] store@.contains_key(q) && is_tx_key(q) implies tx_key_value(q)
                    <= be_value(t@) by {
                    let u = q.subrange(14, 46);
                    assert(crate::tid::tid32(u) =~= u);
                    assert(q =~= crate::tid::transactions_root() + u);
                    crate::iter::lemma_root_below_keys(u);
                    let j = choose|j: int| 0 <= j < items@.len() && #[trigger] items@[j].0@ == q;
                }
            }
            Some(t)
        },
    }
}

/// Splits a 32-byte id into its block (the 8 bytes above the low 4, when the
/// top 20 bytes are zero) and its place in the block.
fn split_id(t: &Vec<u8>) -> (r: Option<(u64, u32)>)
    requires
        t@.len() == 32,
    ensures
        r is None ==> be_value(t@) >= pow256(12),
        r matches Some(p) ==> be_value(t@) == p.0 as nat * pow256(4) + p.1 as nat,
{
    let ghost top = t@.subrange(0, 20);
    let ghost mid = t@.subrange(20, 28);
    let ghost low = t@.subrange(28, 32);
    proof {
        assert(t@ =~= top + (mid + low));
        crate::bytes::lemma_be_value_concat(top, mid + low);
        crate::bytes::lemma_be_value_concat(mid, low);
        crate::bytes::lemma_be_value_bound(mid + low);
        crate::bytes::lemma_be_value_bound(low);
        assert(pow256(4) == 0x1_0000_0000) by {
            reveal_with_fuel(pow256, 5);
        }
    }
    let mut i: usize = 0;
    while i < 20
        invariant
            i <= 20,
            t@.len() == 32,
            top == t@.subrange(0, 20),
            forall|j: int| 0 <= j < i ==> t@[j] == 0u8,
        decreases 20 - i,
    {
        if t[i] != 0 {
            proof {
                assert(top[i as int] != 0);
                lemma_nonzero_value(top, i as int);
                assert(t@ =~= top + (t@.subrange(20, 28) + t@.subrange(28, 32)));
                crate::bytes::lemma_be_value_concat(top, t@.subrange(20, 28) + t@.subrange(28, 32));
                assert(be_value(top) * pow256(12) >= pow256(12)) by (nonlinear_arith)
                    requires
                        be_value(top) >= 1,
                ;
            }
            return None;
        }
        i = i + 1;
    }
    proof {
        assert(top =~= Seq::new(20, |j: int| 0u8));
        crate::bytes::lemma_be_value_zeros(20);
        assert(t@ =~= top + (mid + low));
        crate::bytes::lemma_be_value_concat(top, mid + low);
        crate::bytes::lemma_be_value_concat(mid, low);
        crate::bytes::lemma_be_value_bound(low);
        assert(pow256(4) == 0x1_0000_0000) by {
            reveal_with_fuel(pow256, 5);
        }
    }
    let mid_bytes: Vec<u8> = vec![t[20], t[21], t[22], t[23], t[24], t[25], t[26], t[27]];
    let low_bytes: Vec<u8> = vec![t[28], t[29], t[30], t[31]];
    proof {
        assert(mid_bytes@ =~= mid);
        assert(low_bytes@ =~= low);
    }
    let block = be_to_u64(&mid_bytes);
    let place = crate::codec::amount_from_bytes(&low_bytes) as u32;
    Some((block, place))
}

/// A byte string with a nonzero byte spells a positive number.
proof fn lemma_nonzero_value(s: Seq<u8>, i: int)
    requires
        0 <= i < s.len(),
        s[i] != 0,
    ensures
        be_value(s) >= 1,
    decreases s.len(),
{
    if i == s.len() - 1 {
        assert(be_value(s) == be_value(s.drop_last()) * 256 + s.last() as nat);
    } else {
        lemma_nonzero_value(s.drop_last(), i);
        assert(be_value(s) == be_value(s.drop_last()) * 256 + s.last() as nat);
    }
}

/// Whether the stored symbol table and ledger identity are the given ones;
/// a missing symbol table stands for an empty one.
pub open spec fn config_matches(m: Map<Seq<u8>, Seq<u8>>, symbols: Seq<(Seq<u8>, Seq<char>)>, identity: Seq<u8>) -> bool {
    &&& if m.contains_key(symbols_key()) {
        m[symbols_key()] == symbols_cbor(symbols)
    } else {
        symbols.len() == 0
    }
    &&& m.contains_key(identity_key()) ==> m[identity_key()] == identity
}

fn check_config(store: &KvStore, symbols: &Vec<(Symbol, String)>, identity: &Identity) -> (r: bool)
    requires
        store.wf(),
    ensures
        r == config_matches(store@, symbols_view(symbols@), identity@),
{
    let table_ok = match store.get(&symbols_key_bytes()) {
        Some(v) => compare_bytes(&v, &encode_symbols(symbols)) == 0,
        None => symbols.len() == 0,
    };
    let identity_ok = match store.get(&identity_key_bytes()) {
        Some(v) => compare_bytes(&v, &identity.to_vec()) == 0,
        None => true,
    };
    table_ok && identity_ok
}

/// Entries read back from storage, as puts.
pub open spec fn puts_view(entries: Seq<(Vec<u8>, Vec<u8>)>) -> Seq<(Seq<u8>, Option<Seq<u8>>)> {
    entries.map_values(|e: (Vec<u8>, Vec<u8>)| (e.0@, Some(e.1@)))
}

/// Whether a stored entry has the width its key family asks for.
pub open spec fn entry_fits(key: Seq<u8>, value: Seq<u8>) -> bool {
    &&& key == height_key() ==> value.len() == 8
    &&& key == transactions_count_key() ==> value.len() == 8
    &&& is_balance_key(key) ==> value.len() <= 16
}

fn fits(key: &Vec<u8>, value: &Vec<u8>) -> (r: bool)
    ensures
        r == entry_fits(key@, value@),
{
    let height = height_key_bytes();
    let count = transactions_count_key_bytes();
    if compare_bytes(key, &height) == 0 && value.len() != 8 {
        return false;
    }
    if compare_bytes(key, &count) == 0 && value.len() != 8 {
        return false;
    }
    let prefix: Vec<u8> = vec![47u8, 98, 97, 108, 97, 110, 99, 101, 115, 47];
    let mut balance = key.len() >= 10;
    let mut i: usize = 0;
    while balance && i < 10
        invariant
            i <= 10,
            prefix@ == crate::keys::balances_prefix(),
            balance ==> key@.len() >= 10 && key@.subrange(0, i as int) == prefix@.subrange(0, i as int),
            !balance ==> !is_balance_key(key@),
        decreases 10 - i,
    {
        if key[i] != prefix[i] {
            proof {
                assert(key@.subrange(0, 10)[i as int] != crate::keys::balances_prefix()[i as int]);
            }
            balance = false;
            i = i + 1;
        } else {
            proof {
                assert(key@.subrange(0, i + 1) =~= key@.subrange(0, i as int).push(key@[i as int]));
                assert(prefix@.subrange(0, i + 1) =~= prefix@.subrange(0, i as int).push(prefix@[i as int]));
            }
            i = i + 1;
        }
    }
    proof {
        if balance {
            assert(prefix@.subrange(0, 10) =~= prefix@);
        }
        assert(prefix@ =~= crate::keys::balances_prefix());
    }
    !(balance && value.len() > 16)
}

/// The account a submission is for: the one given, else the sender of a transfer.
pub open spec fn submit_account(arg: SubmitTransactionArgs) -> Option<Seq<u8>> {
    match arg.account {
        Some(a) => Some(a@),
        None => match arg.transaction {
            TransactionInfo::Send { from, .. } => Some(from@),
            _ => None,
        },
    }
}

/// A transfer must be made from the account it is submitted for.
pub open spec fn sender_matches(t: TransactionInfo, account_id: Seq<u8>) -> bool {
    match t {
        TransactionInfo::Send { from, .. } => from@ == account_id,
        _ => true,
    }
}

/// The kind of a supply record: 1 for a mint, 2 for a burn.
pub open spec fn supply_kind(minted: bool) -> u64 {
    if minted {
        1
    } else {
        2
    }
}

/// Writing a record key leaves every balance and counter as it was.
pub proof fn lemma_record_write_keeps_balances(m: Map<Seq<u8>, Seq<u8>>, k: Seq<u8>, v: Seq<u8>)
    requires
        is_record_key(k),
    ensures
        forall|x: Seq<u8>, s: Seq<u8>| #[trigger] balance_in(m.insert(k, v), x, s) == balance_in(m, x, s),
        forall|x: Seq<u8>, s: Seq<u8>| #[trigger] balance_in(m.remove(k), x, s) == balance_in(m, x, s),
        counter_in(m.insert(k, v), height_key()) == counter_in(m, height_key()),
        counter_in(m.insert(k, v), transactions_count_key()) == counter_in(m, transactions_count_key()),
        counter_in(m.remove(k), height_key()) == counter_in(m, height_key()),
        counter_in(m.remove(k), transactions_count_key()) == counter_in(m, transactions_count_key()),
{
    assert forall|x: Seq<u8>, s: Seq<u8>| #[trigger] balance_in(m.insert(k, v), x, s) == balance_in(m, x, s) by {
        lemma_key_families(x, s, Seq::empty());
    }
    assert forall|x: Seq<u8>, s: Seq<u8>| #[trigger] balance_in(m.remove(k), x, s) == balance_in(m, x, s) by {
        lemma_key_families(x, s, Seq::empty());
    }
}

/// What a transfer returns on a ledger: nothing happens for a zero amount or
/// a transfer to oneself; otherwise the anonymous identity, a short balance,
/// and an amount or a log that would overflow its width are refused.
pub open spec fn send_outcome(
    l: &LedgerStorage,
    from: Seq<u8>,
    to: Seq<u8>,
    symbol: Seq<u8>,
    amount: u128,
) -> Result<(), LedgerError> {
    if amount == 0 || from == to {
        Ok(())
    } else if from == anonymous_bytes() || to == anonymous_bytes() {
        Err(LedgerError::AnonymousCannotHoldFunds)
    } else if amount > l.balance(from, symbol) {
        Err(LedgerError::InsufficientFunds)
    } else if l.balance(to, symbol) + amount > u128::MAX || l.transaction_count() >= u64::MAX
        || !l.ids_left() {
        Err(LedgerError::Unknown)
    } else {
        Ok(())
    }
}

/// When a multisig transaction submitted at `now` with a lifetime of `secs`
/// expires: the lifetime is capped at 185 days and the sum saturates.
pub open spec fn deadline(now: u64, secs: u64) -> u64 {
    let capped = if secs > MULTISIG_MAXIMUM_TIMEOUT_IN_SECS {
        MULTISIG_MAXIMUM_TIMEOUT_IN_SECS
    } else {
        secs
    };
    if now > u64::MAX - capped {
        u64::MAX
    } else {
        (now + capped) as u64
    }
}

/// Whether `t` is the deadline of a lifetime of `secs` for some submission time.
pub open spec fn deadline_reachable(t: u64, secs: u64) -> bool {
    exists|now: u64| t == #[trigger] deadline(now, secs)
}

/// What running the content of a multisig transaction returns: a transfer
/// behaves as `send`; other contents are not run.
pub open spec fn run_result(l: &LedgerStorage, t: TransactionInfo) -> Result<(), LedgerError> {
    match t {
        TransactionInfo::Send { from, to, symbol, amount } => send_outcome(l, from@, to@, symbol@, amount),
        _ => Err(LedgerError::TransactionTypeUnsupported),
    }
}

/// Genesis balances, as given to `new`: each holder with its amounts per symbol.
pub type InitialBalances = Vec<(Identity, Vec<(Symbol, TokenAmount)>)>;

/// The balance key of entry `j` of holder `i` of the genesis balances.
pub open spec fn initial_key(ib: Seq<(Identity, Vec<(Symbol, TokenAmount)>)>, i: int, j: int) -> Seq<u8> {
    balance_key(ib[i].0@, ib[i].1@[j].0@)
}

/// Holders appear once, and each symbol once per holder: the genesis balances form a map.
pub open spec fn initial_distinct(ib: Seq<(Identity, Vec<(Symbol, TokenAmount)>)>) -> bool {
    &&& forall|i: int, k: int| 0 <= i < k < ib.len() ==> ib[i].0@ != ib[k].0@
    &&& forall|i: int, a: int, b: int|
        0 <= i < ib.len() && 0 <= a < b < ib[i].1@.len() ==> ib[i].1@[a].0@ != ib[i].1@[b].0@
}

/// Every symbol of the genesis balances is in the symbol table.
pub open spec fn initial_symbols_known(
    symbols: Seq<(Seq<u8>, Seq<char>)>,
    ib: Seq<(Identity, Vec<(Symbol, TokenAmount)>)>,
) -> bool {
    forall|i: int, j: int|
        0 <= i < ib.len() && 0 <= j < ib[i].1@.len() ==> symbol_listed(symbols, #[trigger] ib[i].1@[j].0@)
}

/// Whether `k` is the key of one of the genesis balances.
pub open spec fn initial_key_of(ib: Seq<(Identity, Vec<(Symbol, TokenAmount)>)>, k: Seq<u8>) -> bool {
    exists|a: int, b: int| 0 <= a < ib.len() && 0 <= b < ib[a].1@.len() && k == #[trigger] initial_key(ib, a, b)
}

/// Whether the genesis balances give an amount for `id` in `symbol`.
pub open spec fn initial_listed(ib: Seq<(Identity, Vec<(Symbol, TokenAmount)>)>, id: Seq<u8>, symbol: Seq<u8>) -> bool {
    exists|i: int, j: int|
        0 <= i < ib.len() && 0 <= j < ib[i].1@.len() && ib[i].0@ == id && #[trigger] ib[i].1@[j].0@ == symbol
}

/// Whether the symbol table lists `symbol`.
fn has_symbol(symbols: &Vec<(Symbol, String)>, symbol: &Symbol) -> (r: bool)
    ensures
        r <==> symbol_listed(symbols_view(symbols@), symbol@),
{
    let mut i: usize = 0;
    while i < symbols.len()
        invariant
            i <= symbols@.len(),
            forall|j: int| 0 <= j < i ==> symbols@[j].0@ != symbol@,
        decreases symbols.len() - i,
    {
        if symbols[i].0.same_as(symbol) {
            proof {
                assert(symbols_view(symbols@)[i as int].0 == symbol@);
            }
            return true;
        }
        i = i + 1;
    }
    proof {
        if symbol_listed(symbols_view(symbols@), symbol@) {
            let j = choose|j: int| 0 <= j < symbols_view(symbols@).len() && #[trigger] symbols_view(symbols@)[j].0 == symbol@;
            assert(symbols@[j].0@ == symbol@);
        }
    }
    false
}

/// Whether `s` is among the symbols of a filter.
pub open spec fn in_filter(symbols: Seq<Symbol>, s: Seq<u8>) -> bool {
    exists|k: int| 0 <= k < symbols.len() && symbols[k]@ == s
}

/// Whether `symbol` is among `symbols`.
fn has_symbol_in(symbols: &Vec<Symbol>, symbol: &Symbol) -> (r: bool)
    ensures
        r <==> in_filter(symbols@, symbol@),
{
    let mut i: usize = 0;
    while i < symbols.len()
        invariant
            i <= symbols@.len(),
            forall|j: int| 0 <= j < i ==> symbols@[j]@ != symbol@,
        decreases symbols.len() - i,
    {
        if symbols[i].same_as(symbol) {
            return true;
        }
        i = i + 1;
    }
    false
}

pub open spec fn identity_list_cbor(ids: Seq<Identity>) -> Seq<u8>
    decreases ids.len(),
{
    if ids.len() == 0 {
        Seq::empty()
    } else {
        identity_list_cbor(ids.drop_last()) + cbor_bytes(ids.last()@)
    }
}

pub open spec fn minter_entries_cbor(m: Seq<(Symbol, Vec<Identity>)>) -> Seq<u8>
    decreases m.len(),
{
    if m.len() == 0 {
        Seq::empty()
    } else {
        minter_entries_cbor(m.drop_last()) + cbor_bytes(m.last().0@) + cbor_head(4, m.last().1@.len() as u64)
            + identity_list_cbor(m.last().1@)
    }
}

/// The stored form of the minters: a CBOR map from symbol to the array of
/// identities that may mint it.
pub open spec fn minters_cbor(m: Seq<(Symbol, Vec<Identity>)>) -> Seq<u8> {
    cbor_head(5, m.len() as u64) + minter_entries_cbor(m)
}

/// Encodes the minters for `/config/minters`.
fn encode_minters(m: &Vec<(Symbol, Vec<Identity>)>) -> (r: Vec<u8>)
    ensures
        r@ == minters_cbor(m@),
{
    let mut out: Vec<u8> = Vec::new();
    push_cbor_head(&mut out, 5, m.len() as u64);
    let ghost head = out@;
    let mut i: usize = 0;
    while i < m.len()
        invariant
            i <= m@.len(),
            out@ == head + minter_entries_cbor(m@.subrange(0, i as int)),
        decreases m.len() - i,
    {
        push_cbor_bytes(&mut out, &m[i].0.to_vec());
        let ids = &m[i].1;
        push_cbor_head(&mut out, 4, ids.len() as u64);
        let ghost mid = out@;
        let mut k: usize = 0;
        while k < ids.len()
            invariant
                k <= ids@.len(),
                out@ == mid + identity_list_cbor(ids@.subrange(0, k as int)),
            decreases ids.len() - k,
        {
            push_cbor_bytes(&mut out, &ids[k].to_vec());
            proof {
                assert(ids@.subrange(0, k + 1).drop_last() =~= ids@.subrange(0, k as int));
                assert(out@ =~= mid + identity_list_cbor(ids@.subrange(0, k + 1)));
            }
            k = k + 1;
        }
        proof {
            assert(ids@.subrange(0, ids@.len() as int) =~= ids@);
            let sub = m@.subrange(0, i + 1);
            assert(sub.drop_last() =~= m@.subrange(0, i as int));
            assert(out@ =~= head + minter_entries_cbor(sub));
        }
        i = i + 1;
    }
    proof {
        assert(m@.subrange(0, m@.len() as int) =~= m@);
    }
    out
}

/// Encodes the symbol table for `/config/symbols`.
fn encode_symbols(symbols: &Vec<(Symbol, String)>) -> (r: Vec<u8>)
    ensures
        r@ == symbols_cbor(symbols_view(symbols@)),
{
    let mut out: Vec<u8> = Vec::new();
    push_cbor_head(&mut out, 5, symbols.len() as u64);
    let ghost head = out@;
    let mut i: usize = 0;
    while i < symbols.len()
        invariant
            i <= symbols@.len(),
            out@ == head + symbol_entries_cbor(symbols_view(symbols@.subrange(0, i as int))),
        decreases symbols.len() - i,
    {
        push_cbor_bytes(&mut out, &symbols[i].0.to_vec());
        let name: &[u8] = symbols[i].1.as_str().as_bytes();
        push_cbor_head(&mut out, 3, name.len() as u64);
        let ghost before_name = out@;
        let mut k: usize = 0;
        while k < name.len()
            invariant
                k <= name@.len(),
                out@ == before_name + name@.subrange(0, k as int),
            decreases name.len() - k,
        {
            out.push(name[k]);
            proof {
                assert(out@ =~= before_name + name@.subrange(0, k + 1));
            }
            k = k + 1;
        }
        proof {
            let sv = symbols_view(symbols@.subrange(0, i + 1));
            assert(symbols_view(symbols@.subrange(0, i as int)) =~= sv.drop_last());
            assert(sv.last() == (symbols@[i as int].0@, symbols@[i as int].1@));
            assert(name@.subrange(0, name@.len() as int) =~= name@);
            assert(out@ =~= head + symbol_entries_cbor(sv));
        }
        i = i + 1;
    }
    proof {
        assert(symbols@.subrange(0, symbols@.len() as int) =~= symbols@);
    }
    out
}

/// The ledger: balances, the transaction log and block bookkeeping over one
/// ordered key-value store.
pub struct LedgerStorage {
    symbols: Vec<(Symbol, String)>,
    persistent_store: KvStore,
    /// When this is true, writes wait for a block `commit` before they are
    /// handed to durable storage; otherwise each operation is flushed on its own.
    blockchain: bool,
    latest_tid: TransactionId,
    current_time: Option<u64>,
    current_hash: Option<Vec<u8>>,
    /// The contents as last handed to durable storage.
    flushed: Ghost<Map<Seq<u8>, Seq<u8>>>,
    /// The identity of this ledger; new accounts are its sub-identities.
    identity: Identity,
    next_account_id: u32,
    accounts: Vec<(Identity, Account)>,
    multisig: Vec<(Vec<u8>, PendingMultisig)>,
    /// For each symbol, the identities allowed to mint it.
    minters: Vec<(Symbol, Vec<Identity>)>,
    /// How many ids were allocated since the id space was last reset to
    /// `block_base << 32`.
    ids_in_block: u32,
    block_base: Ghost<nat>,
}

impl LedgerStorage {
    pub closed spec fn store_view(&self) -> Map<Seq<u8>, Seq<u8>> {
        self.persistent_store@
    }

    /// The writes not yet handed to durable storage, in order.
    pub closed spec fn pending(&self) -> Seq<(Seq<u8>, Option<Seq<u8>>)> {
        self.persistent_store.pending()
    }

    pub closed spec fn symbols_spec(&self) -> Seq<(Seq<u8>, Seq<char>)> {
        symbols_view(self.symbols@)
    }

    pub closed spec fn latest_tid_bytes(&self) -> Seq<u8> {
        self.latest_tid.0@
    }

    pub open spec fn latest_tid_value(&self) -> nat {
        be_value(self.latest_tid_bytes())
    }

    pub closed spec fn time_spec(&self) -> Option<u64> {
        self.current_time
    }

    pub closed spec fn blockchain_spec(&self) -> bool {
        self.blockchain
    }

    pub closed spec fn hash_spec(&self) -> Option<Seq<u8>> {
        match self.current_hash {
            Some(h) => Some(h@),
            None => None,
        }
    }

    pub open spec fn balance(&self, id: Seq<u8>, symbol: Seq<u8>) -> nat {
        balance_in(self.store_view(), id, symbol)
    }

    pub open spec fn height(&self) -> nat {
        counter_in(self.store_view(), height_key())
    }

    pub open spec fn transaction_count(&self) -> nat {
        counter_in(self.store_view(), transactions_count_key())
    }

    /// The stored count of the log is the number of its records, no record
    /// has an id above the last one allocated, and that id lies in the id
    /// space of the current height: its bits above the low 32 are the height.
    pub proof fn lemma_log_is_counted(&self)
        requires
            self.wf(),
        ensures
            self.transaction_count() == log_keys(self.store_view()).len(),
            log_below(self.store_view(), self.latest_tid_value()),
            self.height() * pow256(4) <= self.latest_tid_value() < (self.height() + 1) * pow256(4),
            self.latest_tid_value() / pow256(4) == self.height(),
    {
        assert(pow256(4) == 0x1_0000_0000) by {
            reveal_with_fuel(pow256, 5);
        }
        let h = self.height();
        let n = self.ids_in_block as nat;
        assert(self.latest_tid_value() == h * pow256(4) + n);
        assert(h * pow256(4) + n < (h + 1) * pow256(4)) by (nonlinear_arith)
            requires
                n < 0x1_0000_0000,
                pow256(4) == 0x1_0000_0000,
        ;
        assert((h * pow256(4) + n) / pow256(4) == h) by (nonlinear_arith)
            requires
                n < 0x1_0000_0000,
                pow256(4) == 0x1_0000_0000,
        ;
    }

    /// Whether another id can be allocated in the id space of this block.
    pub closed spec fn ids_left(&self) -> bool {
        self.ids_in_block < u32::MAX
    }

    pub closed spec fn identity_spec(&self) -> Seq<u8> {
        self.identity@
    }

    pub closed spec fn next_account_id_spec(&self) -> nat {
        self.next_account_id as nat
    }

    /// The accounts, each with its identity.
    pub closed spec fn accounts_spec(&self) -> Seq<(Identity, Account)> {
        self.accounts@
    }

    /// The pending multisig transactions, each with its token.
    pub closed spec fn pending_multisig(&self) -> Seq<(Vec<u8>, PendingMultisig)> {
        self.multisig@
    }

    pub open spec fn account(&self, id: Seq<u8>) -> Option<Account> {
        account_in(self.accounts_spec(), id)
    }

    pub open spec fn multisig_at(&self, token: Seq<u8>) -> Option<PendingMultisig> {
        pending_in(self.pending_multisig(), token)
    }

    /// The contents as they stood when writes were last handed out.
    pub closed spec fn flushed_view(&self) -> Map<Seq<u8>, Seq<u8>> {
        self.flushed@
    }

    pub closed spec fn wf(&self) -> bool {
        &&& self.persistent_store.wf()
        &&& store_wf(self.persistent_store@)
        &&& apply_writes(self.flushed@, self.persistent_store.pending()) == self.persistent_store@
        &&& ids_in_order(self.persistent_store@, self.latest_tid.0@)
        &&& log_counted(self.persistent_store@)
        &&& be_value(self.latest_tid.0@) == self.block_base@ * pow256(4) + self.ids_in_block
        &&& self.block_base@ == counter_in(self.persistent_store@, height_key())
        &&& forall|i: int, j: int|
            0 <= i < j < self.accounts@.len() ==> #[trigger] self.accounts@[i].0@ != #[trigger] self.accounts@[j].0@
        &&& forall|i: int|
            0 <= i < self.accounts@.len() ==> allocated_id(self.identity@, self.next_account_id, #[trigger] self.accounts@[i].0@)
        &&& forall|i: int, j: int|
            0 <= i < j < self.multisig@.len() ==> #[trigger] self.multisig@[i].0@ != #[trigger] self.multisig@[j].0@
    }

    /// Applies a batch whose keys are strictly ascending.
    fn apply_batch(&mut self, batch: Vec<BatchEntry>)
        requires
            old(self).wf(),
            keys_ascending(batch_view(batch@)),
        ensures
            final(self).persistent_store.wf(),
            final(self).store_view() == apply_writes(old(self).store_view(), batch_view(batch@)),
            apply_writes(final(self).flushed@, final(self).persistent_store.pending())
                == final(self).persistent_store@,
            final(self).flushed == old(self).flushed,
            final(self).symbols == old(self).symbols,
            final(self).blockchain == old(self).blockchain,
            final(self).latest_tid == old(self).latest_tid,
            final(self).current_time == old(self).current_time,
            final(self).current_hash == old(self).current_hash,
            final(self).identity == old(self).identity,
            final(self).next_account_id == old(self).next_account_id,
            final(self).accounts == old(self).accounts,
            final(self).multisig == old(self).multisig,
            final(self).minters == old(self).minters,
            final(self).ids_in_block == old(self).ids_in_block,
            final(self).block_base == old(self).block_base,
    {
        let ghost p0 = self.persistent_store.pending();
        let res = self.persistent_store.apply(&batch);
        proof {
            lemma_apply_writes_concat(self.flushed@, p0, batch_view(batch@));
        }
        match res {
            Ok(()) => {},
            Err(_) => {},
        }
    }

    fn new_transaction_id(&mut self) -> (r: TransactionId)
        requires
            old(self).wf(),
            old(self).ids_left(),
        ensures
            final(self).wf(),
            final(self).latest_tid_value() == old(self).latest_tid_value() + 1,
            r.0@ == final(self).latest_tid_bytes(),
            !final(self).store_view().contains_key(transaction_key(r.0@)),
            final(self).store_view() == old(self).store_view(),
            final(self).pending() == old(self).pending(),
            final(self).flushed == old(self).flushed,
            final(self).symbols == old(self).symbols,
            final(self).blockchain == old(self).blockchain,
            final(self).current_time == old(self).current_time,
            final(self).current_hash == old(self).current_hash,
            final(self).identity == old(self).identity,
            final(self).next_account_id == old(self).next_account_id,
            final(self).accounts == old(self).accounts,
            final(self).multisig == old(self).multisig,
            final(self).minters == old(self).minters,
            final(self).block_base == old(self).block_base,
    {
        let ghost old_bytes = self.latest_tid.0@;
        self.latest_tid = self.latest_tid.increment();
        self.ids_in_block = self.ids_in_block + 1;
        proof {
            let m = self.persistent_store@;
            let h = counter_in(m, height_key());
            let base = self.block_base@;
            let v = be_value(old_bytes);
            let n = self.ids_in_block as nat;
            assert(pow256(8) == 0x1_0000_0000_0000_0000) by {
                reveal_with_fuel(pow256, 9);
            }
            assert(pow256(12) == 0x1_0000_0000_0000_0000_0000_0000) by {
                reveal_with_fuel(pow256, 13);
            }
            assert(pow256(4) == 0x1_0000_0000) by {
                reveal_with_fuel(pow256, 5);
            }
            if m.contains_key(height_key()) {
                crate::bytes::lemma_be_value_bound(m[height_key()]);
                assert(m[height_key()].len() == 8);
            }
            assert(h < pow256(8));
            assert(pow256(8) * pow256(4) == pow256(12));
            assert(base * pow256(4) + n <= h * pow256(4) + pow256(4)) by (nonlinear_arith)
                requires
                    base <= h,
                    n <= pow256(4),
            ;
            assert(pow256(4) == 0x1_0000_0000) by {
                reveal_with_fuel(pow256, 5);
            }
            assert(h * pow256(4) + pow256(4) <= pow256(12)) by (nonlinear_arith)
                requires
                    h < pow256(8),
                    pow256(8) * pow256(4) == pow256(12),
            ;
            crate::tid::lemma_inc_bytes_longer(old_bytes);
            if old_bytes.len() == 32 && inc_bytes(old_bytes).len() == 33 {
                crate::bytes::lemma_pow_mono(12, 32);
                crate::bytes::lemma_pow_mono(13, 32);
                assert(pow256(13) == 256 * pow256(12));
                crate::bytes::lemma_pow_pos(12);
            }
            crate::tid::lemma_inc_bytes(old_bytes);
            let b = self.latest_tid.0@;
            crate::tid::lemma_transaction_key_order(b, b);
            crate::keys::lemma_key_families(Seq::empty(), Seq::empty(), b);
            crate::tid::lemma_transaction_key_len(b);
            assert(tx_key_value(transaction_key(b)) == be_value(b)) by {
                assert(transaction_key(b).subrange(14, 46) =~= crate::tid::tid32(b));
            }
        }
        self.latest_tid.clone_id()
    }

    /// Appends a record to the transaction log and counts it.
    fn add_transaction(&mut self, transaction: Transaction)
        requires
            old(self).wf(),
            old(self).transaction_count() < u64::MAX,
            transaction.id.0@ == old(self).latest_tid_bytes(),
            !old(self).store_view().contains_key(transaction_key(transaction.id.0@)),
        ensures
            final(self).wf(),
            final(self).store_view() == old(self).store_view().insert(
                transaction_key(transaction.id.0@),
                crate::transaction::transaction_cbor(transaction),
            ).insert(
                transactions_count_key(),
                be_bytes((old(self).transaction_count() + 1) as nat, 8),
            ),
            final(self).flushed == old(self).flushed,
            final(self).symbols == old(self).symbols,
            final(self).blockchain == old(self).blockchain,
            final(self).latest_tid == old(self).latest_tid,
            final(self).current_time == old(self).current_time,
            final(self).current_hash == old(self).current_hash,
            final(self).identity == old(self).identity,
            final(self).next_account_id == old(self).next_account_id,
            final(self).accounts == old(self).accounts,
            final(self).multisig == old(self).multisig,
            final(self).minters == old(self).minters,
            final(self).ids_in_block == old(self).ids_in_block,
            final(self).block_base == old(self).block_base,
    {
        let count = self.nb_transactions();
        let key = key_for_transaction(transaction.id.clone_id());
        let value = encode_transaction(&transaction);
        let count_bytes = u64_to_be(count + 1);
        let ghost m0 = self.store_view();
        proof {
            lemma_key_families(Seq::empty(), Seq::empty(), transaction.id.0@);
        }
        let ghost kv = key@;
        let ghost vv = value@;
        let ghost cv = count_bytes@;
        proof {
            self.persistent_store.lemma_finite();
            lemma_log_grows(m0, kv, vv, cv);
        }
        let batch = sorted_pair(key, value, transactions_count_key_bytes(), count_bytes);
        self.apply_batch(batch);
        proof {
            let m = self.store_view();
            let b = transaction.id.0@;
            crate::bytes::lemma_be_bytes_len((count + 1) as nat, 8);
            assert forall|k: Seq<u8>| #[trigger] m.contains_key(k) && is_balance_key(k) implies m[k].len() <= 16 by {
                assert(m0.contains_key(k));
            }
            crate::tid::lemma_transaction_key_order(b, b);
            crate::tid::lemma_transaction_key_len(b);
            assert(tx_key_value(transaction_key(b)) == be_value(b)) by {
                assert(transaction_key(b).subrange(14, 46) =~= crate::tid::tid32(b));
            }
            assert forall|k: Seq<u8>| #[trigger] m.contains_key(k) && is_tx_key(k) implies tx_key_value(k) <= be_value(
                self.latest_tid.0@,
            ) by {
                if k != transaction_key(b) && k != transactions_count_key() {
                    assert(m0.contains_key(k));
                }
            }
            assert(counter_in(m, height_key()) == counter_in(m0, height_key()));
        }
    }

    /// A ledger at genesis: the symbol table and the initial balances, height 0
    /// and an empty transaction log. Fails with `UnknownSymbol` when a balance
    /// names a symbol that the table lacks. Its writes are pending until
    /// `take_writes` hands them out.
    pub fn new(
        symbols: Vec<(Symbol, String)>,
        initial_balances: InitialBalances,
        identity: Identity,
        blockchain: bool,
    ) -> (r:
        Result<LedgerStorage, LedgerError>)
        requires
            initial_distinct(initial_balances@),
        ensures
            r is Err <==> !initial_symbols_known(symbols_view(symbols@), initial_balances@),
            r matches Err(e) ==> e == LedgerError::UnknownSymbol,
            r matches Ok(l) ==> {
                &&& l.wf()
                &&& l.height() == 0
                &&& l.transaction_count() == 0
                &&& l.latest_tid_value() == 0
                &&& l.symbols_spec() == symbols_view(symbols@)
                &&& l.blockchain_spec() == blockchain
                &&& l.time_spec() is None
                &&& l.hash_spec() is None
                &&& l.flushed_view() == Map::<Seq<u8>, Seq<u8>>::empty()
                &&& l.identity_spec() == identity@
                &&& l.next_account_id_spec() == 0
                &&& l.ids_left()
                &&& l.accounts_spec().len() == 0
                &&& l.pending_multisig().len() == 0
                &&& l.store_view().contains_key(symbols_key())
                &&& l.store_view()[symbols_key()] == symbols_cbor(symbols_view(symbols@))
                &&& l.store_view().contains_key(identity_key())
                &&& l.store_view()[identity_key()] == identity@
                &&& forall|k: Seq<u8>|
                    #[trigger] l.store_view().contains_key(k) <==> (k == symbols_key() || k == identity_key()
                        || initial_key_of(initial_balances@, k))
                &&& forall|i: int, j: int|
                    0 <= i < initial_balances@.len() && 0 <= j < initial_balances@[i].1@.len() ==> l.store_view()[#[trigger] initial_key(
                        initial_balances@,
                        i,
                        j,
                    )] == minimal_be(initial_balances@[i].1@[j].1 as nat)
                &&& forall|i: int, j: int|
                    0 <= i < initial_balances@.len() && 0 <= j < initial_balances@[i].1@.len()
                        && initial_balances@[i].0@ != anonymous_bytes() ==> l.balance(
                        initial_balances@[i].0@,
                        #[trigger] initial_balances@[i].1@[j].0@,
                    ) == initial_balances@[i].1@[j].1
                &&& forall|x: Seq<u8>, s: Seq<u8>|
                    !initial_listed(initial_balances@, x, s) ==> #[trigger] l.balance(x, s) == 0
            },
    {
        let ghost ib = initial_balances@;
        let ghost identity_view = identity@;
        let mut i: usize = 0;
        while i < initial_balances.len()
            invariant
                i <= ib.len(),
                ib == initial_balances@,
                forall|a: int, j: int|
                    0 <= a < i && 0 <= j < ib[a].1@.len() ==> symbol_listed(
                        symbols_view(symbols@),
                        #[trigger] ib[a].1@[j].0@,
                    ),
            decreases ib.len() - i,
        {
            let mut j: usize = 0;
            while j < initial_balances[i].1.len()
                invariant
                    i < ib.len(),
                    j <= ib[i as int].1@.len(),
                    ib == initial_balances@,
                    forall|a: int, j: int|
                        0 <= a < i && 0 <= j < ib[a].1@.len() ==> symbol_listed(
                            symbols_view(symbols@),
                            #[trigger] ib[a].1@[j].0@,
                        ),
                    forall|b: int|
                        0 <= b < j ==> symbol_listed(symbols_view(symbols@), #[trigger] ib[i as int].1@[b].0@),
                decreases ib[i as int].1@.len() - j,
            {
                if !has_symbol(&symbols, &initial_balances[i].1[j].0) {
                    return Err(LedgerError::UnknownSymbol);
                }
                j = j + 1;
            }
            i = i + 1;
        }
        let mut ledger = LedgerStorage {
            symbols,
            persistent_store: KvStore::new(),
            blockchain,
            latest_tid: TransactionId::from_u64(0),
            current_time: None,
            current_hash: None,
            flushed: Ghost(Map::empty()),
            identity,
            next_account_id: 0,
            accounts: Vec::new(),
            multisig: Vec::new(),
            minters: Vec::new(),
            ids_in_block: 0,
            block_base: Ghost(0),
        };
        let ghost sv = symbols_view(ledger.symbols@);
        proof {
            reveal_with_fuel(apply_writes, 1);
            assert(ledger.latest_tid.0@.len() == 8);
            assert(be_value(ledger.latest_tid.0@) == 0);
            assert(ids_in_order(ledger.persistent_store@, ledger.latest_tid.0@));
            assert(counter_in(ledger.persistent_store@, height_key()) == 0);
            assert(ledger.block_base@ == 0);
            assert(ledger.block_base@ * pow256(4) == 0);
            assert(log_keys(ledger.persistent_store@) =~= Set::<Seq<u8>>::empty());
            assert(ledger.wf());
        }
        let mut i: usize = 0;
        while i < initial_balances.len()
            invariant
                i <= ib.len(),
                ib == initial_balances@,
                initial_distinct(ib),
                ledger.wf(),
                ledger.latest_tid_value() == 0,
                ledger.symbols_spec() == sv,
                ledger.blockchain_spec() == blockchain,
                ledger.time_spec() is None,
                ledger.hash_spec() is None,
                ledger.flushed_view() == Map::<Seq<u8>, Seq<u8>>::empty(),
                ledger.identity_spec() == identity_view,
                ledger.next_account_id_spec() == 0,
                ledger.accounts_spec().len() == 0,
                ledger.pending_multisig().len() == 0,
                forall|a: int, b: int|
                    0 <= a < i && 0 <= b < ib[a].1@.len() ==> ledger.store_view().contains_key(
                        #[trigger] initial_key(ib, a, b),
                    ) && ledger.store_view()[initial_key(ib, a, b)] == minimal_be(ib[a].1@[b].1 as nat),
                forall|k: Seq<u8>|
                    #[trigger] ledger.store_view().contains_key(k) ==> exists|a: int, b: int|
                        0 <= a < i && 0 <= b < ib[a].1@.len() && k == #[trigger] initial_key(ib, a, b),
            decreases ib.len() - i,
        {
            let mut j: usize = 0;
            while j < initial_balances[i].1.len()
                invariant
                    i < ib.len(),
                    j <= ib[i as int].1@.len(),
                    ib == initial_balances@,
                    initial_distinct(ib),
                    ledger.wf(),
                    ledger.latest_tid_value() == 0,
                    ledger.symbols_spec() == sv,
                    ledger.blockchain_spec() == blockchain,
                    ledger.time_spec() is None,
                    ledger.hash_spec() is None,
                    ledger.flushed_view() == Map::<Seq<u8>, Seq<u8>>::empty(),
                    ledger.identity_spec() == identity_view,
                    ledger.next_account_id_spec() == 0,
                    ledger.accounts_spec().len() == 0,
                    ledger.pending_multisig().len() == 0,
                    forall|a: int, b: int|
                        (0 <= a < i && 0 <= b < ib[a].1@.len()) || (a == i && 0 <= b < j)
                            ==> ledger.store_view().contains_key(#[trigger] initial_key(ib, a, b))
                            && ledger.store_view()[initial_key(ib, a, b)] == minimal_be(
                            ib[a].1@[b].1 as nat,
                        ),
                    forall|k: Seq<u8>|
                        #[trigger] ledger.store_view().contains_key(k) ==> exists|a: int, b: int|
                            ((0 <= a < i && 0 <= b < ib[a].1@.len()) || (a == i && 0 <= b < j)) && k
                                == #[trigger] initial_key(ib, a, b),
                decreases ib[i as int].1@.len() - j,
            {
                let key = key_for_account(&initial_balances[i].0, &initial_balances[i].1[j].0);
                let value = amount_to_bytes(initial_balances[i].1[j].1);
                let ghost m0 = ledger.store_view();
                let ghost kv = key@;
                let ghost vv = value@;
                let batch = vec![BatchEntry { key, op: Op::Put(value) }];
                proof {
                    let bv = batch_view(batch@);
                    reveal_with_fuel(apply_writes, 2);
                    assert(bv.drop_last() =~= Seq::<(Seq<u8>, Option<Seq<u8>>)>::empty());
                    assert(apply_writes(m0, bv) == m0.insert(kv, vv));
                }
                ledger.apply_batch(batch);
                proof {
                    let m = ledger.store_view();
                    lemma_key_families(ib[i as int].0@, ib[i as int].1@[j as int].0@, Seq::empty());
                    lemma_order_kept(m0, kv, Some(vv), ledger.latest_tid.0@);
                    lemma_log_kept(m0, kv, Some(vv));
                    assert(kv == initial_key(ib, i as int, j as int));
                    assert forall|k: Seq<u8>| #[trigger] m.contains_key(k) && is_balance_key(k) implies m[k].len() <= 16 by {
                        if k != kv {
                            assert(m0.contains_key(k));
                        }
                    }
                    assert forall|a: int, b: int|
                        (0 <= a < i && 0 <= b < ib[a].1@.len()) || (a == i && 0 <= b < j + 1)
                            implies m.contains_key(#[trigger] initial_key(ib, a, b))
                            && m[initial_key(ib, a, b)] == minimal_be(ib[a].1@[b].1 as nat) by {
                        if !(a == i && b == j) {
                            if initial_key(ib, a, b) == kv {
                                lemma_balance_key_unique(ib[a].0@, ib[a].1@[b].0@, ib[i as int].0@, ib[i as int].1@[j as int].0@);
                                if a != i {
                                    if a < i {
                                        assert(ib[a].0@ != ib[i as int].0@);
                                    }
                                }
                                if a == i {
                                    assert(ib[i as int].1@[b].0@ != ib[i as int].1@[j as int].0@);
                                }
                            }
                        }
                    }
                    assert forall|k: Seq<u8>| #[trigger] m.contains_key(k) implies exists|a: int, b: int|
                        ((0 <= a < i && 0 <= b < ib[a].1@.len()) || (a == i && 0 <= b < j + 1)) && k
                            == #[trigger] initial_key(ib, a, b) by {
                        if k == kv {
                            assert(k == initial_key(ib, i as int, j as int));
                        } else {
                            assert(m0.contains_key(k));
                            let (a, b) = choose|a: int, b: int|
                                ((0 <= a < i && 0 <= b < ib[a].1@.len()) || (a == i && 0 <= b < j)) && k
                                    == #[trigger] initial_key(ib, a, b);
                            assert(k == initial_key(ib, a, b));
                        }
                    }
                }
                j = j + 1;
            }
            i = i + 1;
        }
        let ghost m0 = ledger.store_view();
        let batch = vec![BatchEntry { key: symbols_key_bytes(), op: Op::Put(encode_symbols(&ledger.symbols)) }];
        proof {
            let bv = batch_view(batch@);
            reveal_with_fuel(apply_writes, 2);
            assert(bv.drop_last() =~= Seq::<(Seq<u8>, Option<Seq<u8>>)>::empty());
        }
        ledger.apply_batch(batch);
        proof {
            let m = ledger.store_view();
            lemma_key_families(Seq::empty(), Seq::empty(), Seq::empty());
            lemma_order_kept(m0, symbols_key(), Some(symbols_cbor(sv)), ledger.latest_tid.0@);
            lemma_log_kept(m0, symbols_key(), Some(symbols_cbor(sv)));
            assert(m == m0.insert(symbols_key(), symbols_cbor(sv)));
            assert forall|k: Seq<u8>| #[trigger] m.contains_key(k) && is_balance_key(k) implies m[k].len() <= 16 by {
                assert(m0.contains_key(k));
            }
            assert(!m0.contains_key(height_key())) by {
                if m0.contains_key(height_key()) {
                    let (a, b) = choose|a: int, b: int|
                        0 <= a < ib.len() && 0 <= b < ib[a].1@.len() && height_key() == #[trigger] initial_key(ib, a, b);
                    lemma_key_families(ib[a].0@, ib[a].1@[b].0@, Seq::empty());
                }
            }
            assert(!m0.contains_key(transactions_count_key())) by {
                if m0.contains_key(transactions_count_key()) {
                    let (a, b) = choose|a: int, b: int|
                        0 <= a < ib.len() && 0 <= b < ib[a].1@.len() && transactions_count_key() == #[trigger] initial_key(ib, a, b);
                    lemma_key_families(ib[a].0@, ib[a].1@[b].0@, Seq::empty());
                }
            }
            assert forall|a: int, b: int|
                0 <= a < ib.len() && 0 <= b < ib[a].1@.len() && ib[a].0@ != anonymous_bytes()
                    implies balance_in(m, ib[a].0@, #[trigger] ib[a].1@[b].0@) == ib[a].1@[b].1 by {
                assert(m0.contains_key(initial_key(ib, a, b)));
                lemma_key_families(ib[a].0@, ib[a].1@[b].0@, Seq::empty());
                crate::codec::lemma_minimal_be(ib[a].1@[b].1 as nat);
            }
            assert forall|x: Seq<u8>, s: Seq<u8>| !initial_listed(ib, x, s) implies #[trigger] balance_in(m, x, s) == 0 by {
                lemma_key_families(x, s, Seq::empty());
                if x != anonymous_bytes() && m.contains_key(balance_key(x, s)) {
                    assert(m0.contains_key(balance_key(x, s)));
                    let (a, b) = choose|a: int, b: int|
                        0 <= a < ib.len() && 0 <= b < ib[a].1@.len() && balance_key(x, s) == #[trigger] initial_key(ib, a, b);
                    lemma_balance_key_unique(x, s, ib[a].0@, ib[a].1@[b].0@);
                    assert(ib[a].1@[b].0@ == s);
                }
            }
        }
        let ghost m1 = ledger.store_view();
        proof {
            lemma_record_keys(Seq::empty(), Seq::empty());
            lemma_record_write_keeps_balances(m1, identity_key(), identity_view);
        }
        let identity_bytes = ledger.identity.to_vec();
        ledger.put_record(identity_key_bytes(), identity_bytes);
        proof {
            let m = ledger.store_view();
            assert forall|k: Seq<u8>|
                #[trigger] m.contains_key(k) <==> (k == symbols_key() || k == identity_key() || initial_key_of(ib, k)) by {
                if initial_key_of(ib, k) {
                    let (a, b) = choose|a: int, b: int|
                        0 <= a < ib.len() && 0 <= b < ib[a].1@.len() && k == #[trigger] initial_key(ib, a, b);
                    assert(m0.contains_key(initial_key(ib, a, b)));
                }
                if k != symbols_key() && k != identity_key() && m.contains_key(k) {
                    assert(m0.contains_key(k));
                }
            }
            assert forall|a: int, b: int|
                0 <= a < ib.len() && 0 <= b < ib[a].1@.len() implies m[#[trigger] initial_key(ib, a, b)]
                    == minimal_be(ib[a].1@[b].1 as nat) by {
                assert(m0.contains_key(initial_key(ib, a, b)));
                lemma_key_families(ib[a].0@, ib[a].1@[b].0@, Seq::empty());
                lemma_record_keys(Seq::empty(), Seq::empty());
            }
        }
        Ok(ledger)
    }

    /// A ledger over entries read back from durable storage, with the symbol
    /// table they hold. Its id space starts after `height << 32`. Fails with
    /// `Deserialization` when a counter is not 8 bytes or a balance does not
    /// fit 16 bytes.
    #[verifier::rlimit(100)]
    pub fn load(
        entries: Vec<(Vec<u8>, Vec<u8>)>,
        symbols: Vec<(Symbol, String)>,
        identity: Identity,
        next_account_id: u32,
        accounts: Vec<(Identity, Account)>,
        pending: Vec<(Vec<u8>, PendingMultisig)>,
        minters: Vec<(Symbol, Vec<Identity>)>,
        blockchain: bool,
    ) -> (r: Result<LedgerStorage, LedgerError>)
        ensures
            r is Err ==> r == Err::<LedgerStorage, LedgerError>(LedgerError::Deserialization),
            r is Err <==> (exists|i: int| 0 <= i < entries@.len() && !entry_fits(#[trigger] entries@[i].0@, entries@[i].1@))
                || !accounts_ok(identity@, next_account_id, accounts@) || !tokens_distinct(pending@)
                || !records_match(
                apply_writes(Map::<Seq<u8>, Seq<u8>>::empty(), puts_view(entries@)),
                accounts@,
                pending@,
                minters@,
            ) || !config_matches(
                apply_writes(Map::<Seq<u8>, Seq<u8>>::empty(), puts_view(entries@)),
                symbols_view(symbols@),
                identity@,
            ) || !log_counted(apply_writes(Map::<Seq<u8>, Seq<u8>>::empty(), puts_view(entries@))) || !log_fits(
                apply_writes(Map::<Seq<u8>, Seq<u8>>::empty(), puts_view(entries@)),
                counter_in(apply_writes(Map::<Seq<u8>, Seq<u8>>::empty(), puts_view(entries@)), height_key()),
            ),
            r matches Ok(l) ==> {
                &&& l.wf()
                &&& l.store_view() == apply_writes(Map::<Seq<u8>, Seq<u8>>::empty(), puts_view(entries@))
                &&& l.flushed_view() == l.store_view()
                &&& l.latest_tid_value() >= l.height() * pow256(4)
                &&& log_below(l.store_view(), l.latest_tid_value())
                &&& (l.latest_tid_value() == l.height() * pow256(4) || exists|k: Seq<u8>|
                    #[trigger] l.store_view().contains_key(k) && is_tx_key(k) && tx_key_value(k)
                        == l.latest_tid_value())
                &&& l.symbols_spec() == symbols_view(symbols@)
                &&& l.identity_spec() == identity@
                &&& l.next_account_id_spec() == next_account_id
                &&& l.accounts_spec() == accounts@
                &&& l.pending_multisig() == pending@
                &&& l.minters_spec() == minters@
                &&& (l.ids_left() <==> l.latest_tid_value() + 1 < (l.height() + 1) * pow256(4))
                &&& l.pending() == Seq::<(Seq<u8>, Option<Seq<u8>>)>::empty()
                &&& l.blockchain_spec() == blockchain
                &&& l.time_spec() is None
                &&& l.hash_spec() is None
            },
    {
        let ghost symbols_v = symbols@;
        let ghost identity_v = identity@;
        let ghost accounts_v = accounts@;
        let ghost pending_v = pending@;
        let ghost minters_v = minters@;
        if !check_accounts(&identity, next_account_id, &accounts) || !check_tokens(&pending) {
            return Err(LedgerError::Deserialization);
        }
        let mut i: usize = 0;
        while i < entries.len()
            invariant
                i <= entries@.len(),
                forall|j: int| 0 <= j < i ==> entry_fits(#[trigger] entries@[j].0@, entries@[j].1@),
            decreases entries.len() - i,
        {
            if !fits(&entries[i].0, &entries[i].1) {
                return Err(LedgerError::Deserialization);
            }
            i = i + 1;
        }
        let mut store = KvStore::new();
        proof {
            reveal_with_fuel(apply_writes, 1);
            assert(puts_view(entries@.subrange(0, 0)) =~= Seq::<(Seq<u8>, Option<Seq<u8>>)>::empty());
        }
        let mut k: usize = 0;
        while k < entries.len()
            invariant
                k <= entries@.len(),
                forall|j: int| 0 <= j < entries@.len() ==> entry_fits(#[trigger] entries@[j].0@, entries@[j].1@),
                store.wf(),
                store_wf(store@),
                store@ == apply_writes(Map::<Seq<u8>, Seq<u8>>::empty(), puts_view(entries@.subrange(0, k as int))),
            decreases entries.len() - k,
        {
            let key = crate::store::clone_bytes(&entries[k].0);
            let value = crate::store::clone_bytes(&entries[k].1);
            let ghost m0 = store@;
            let ghost kv = key@;
            let ghost vv = value@;
            let batch = vec![BatchEntry { key, op: Op::Put(value) }];
            proof {
                let bv = batch_view(batch@);
                reveal_with_fuel(apply_writes, 2);
                assert(bv.drop_last() =~= Seq::<(Seq<u8>, Option<Seq<u8>>)>::empty());
                assert(apply_writes(m0, bv) == m0.insert(kv, vv));
                assert(keys_ascending(bv));
            }
            let _ = store.apply(&batch);
            proof {
                let m = store@;
                assert(entry_fits(kv, vv));
                assert forall|x: Seq<u8>| #[trigger] m.contains_key(x) && is_balance_key(x) implies m[x].len() <= 16 by {
                    if x != kv {
                        assert(m0.contains_key(x));
                    }
                }
                let pv = puts_view(entries@.subrange(0, k + 1));
                assert(pv.drop_last() =~= puts_view(entries@.subrange(0, k as int)));
                assert(pv.last() == (kv, Some(vv)));
            }
            k = k + 1;
        }
        proof {
            assert(entries@.subrange(0, entries@.len() as int) =~= entries@);
        }
        if !check_records(&store, &accounts, &pending, &minters) {
            return Err(LedgerError::Deserialization);
        }
        if !check_config(&store, &symbols, &identity) {
            return Err(LedgerError::Deserialization);
        }
        let height = match store.get(&height_key_bytes()) {
            None => 0,
            Some(bytes) => be_to_u64(&bytes),
        };
        // Ids continue after the larger of `height << 32` and the largest id
        // in the log; a log id beyond the id space of `height` is refused.
        let ghost mut top_key: Seq<u8> = Seq::empty();
        let (latest_tid, ids_in_block) = match last_log_id(&store) {
            None => (TransactionId::first_of_height(height), 0u32),
            Some(t) => {
                proof {
                    top_key = crate::tid::transactions_root() + t@;
                    assert((crate::tid::transactions_root() + t@).subrange(14, 46) =~= t@);
                    assert(pow256(4) == 0x1_0000_0000) by {
                        reveal_with_fuel(pow256, 5);
                    }
                    assert(pow256(12) == 0x1_0000_0000_0000_0000_0000_0000) by {
                        reveal_with_fuel(pow256, 13);
                    }
                    if store@.contains_key(height_key()) {
                        crate::bytes::lemma_be_value_bound(store@[height_key()]);
                        assert(store@[height_key()].len() == 8);
                        assert(pow256(8) == 0x1_0000_0000_0000_0000) by {
                            reveal_with_fuel(pow256, 9);
                        }
                    }
                    assert((height as nat + 1) * pow256(4) <= pow256(12)) by (nonlinear_arith)
                        requires
                            height < 0x1_0000_0000_0000_0000,
                            pow256(4) == 0x1_0000_0000,
                            pow256(12) == 0x1_0000_0000_0000_0000_0000_0000,
                    ;
                }
                match split_id(&t) {
                    None => {
                        return Err(LedgerError::Deserialization);
                    },
                    Some((block, place)) => {
                        if block > height {
                            proof {
                                assert(block as nat * pow256(4) + place as nat >= (height as nat + 1) * pow256(4))
                                    by (nonlinear_arith)
                                    requires
                                        block as nat >= height as nat + 1,
                                ;
                            }
                            return Err(LedgerError::Deserialization);
                        }
                        proof {
                            assert(block as nat * pow256(4) + (place as nat) < (block as nat + 1) * pow256(4))
                                by (nonlinear_arith)
                                requires
                                    place < 0x1_0000_0000,
                                    pow256(4) == 0x1_0000_0000,
                            ;
                            assert((block as nat + 1) * pow256(4) <= (height as nat + 1) * pow256(4))
                                by (nonlinear_arith)
                                requires
                                    block <= height,
                            ;
                        }
                        if block < height {
                            proof {
                                assert((block as nat + 1) * pow256(4) <= height as nat * pow256(4))
                                    by (nonlinear_arith)
                                    requires
                                        block < height,
                                ;
                            }
                            (TransactionId::first_of_height(height), 0u32)
                        } else {
                            (TransactionId::from_bytes(t), place)
                        }
                    },
                }
            },
        };
        let count = match store.get(&transactions_count_key_bytes()) {
            None => 0,
            Some(bytes) => be_to_u64(&bytes),
        };
        if !check_count(&store, count) {
            return Err(LedgerError::Deserialization);
        }
        // What was read back is already durable.
        let _ = store.take_writes();
        let ghost m = store@;
        let ledger = LedgerStorage {
            symbols,
            persistent_store: store,
            blockchain,
            latest_tid,
            current_time: None,
            current_hash: None,
            flushed: Ghost(m),
            identity,
            next_account_id,
            accounts,
            multisig: pending,
            minters,
            ids_in_block,
            block_base: Ghost(height as nat),
        };
        proof {
            reveal_with_fuel(apply_writes, 1);
            assert(apply_writes(m, Seq::<(Seq<u8>, Option<Seq<u8>>)>::empty()) == m);
            assert(ledger.latest_tid.0@.len() <= 32);
            assert(log_below(m, be_value(ledger.latest_tid.0@)));
            assert(be_value(ledger.latest_tid.0@) == height as nat * pow256(4) + ids_in_block as nat);
            if be_value(ledger.latest_tid.0@) != height as nat * pow256(4) {
                assert(m.contains_key(top_key) && is_tx_key(top_key));
                assert(tx_key_value(top_key) == be_value(ledger.latest_tid.0@));
                assert(ledger.store_view().contains_key(top_key));
            }
            assert(ledger.height() == height as nat);
            assert(ledger.latest_tid_value() >= ledger.height() * pow256(4));
            assert(ledger.wf());
            assert(pow256(4) == 0x1_0000_0000) by {
                reveal_with_fuel(pow256, 5);
            }
            assert(ledger.store_view() == apply_writes(Map::<Seq<u8>, Seq<u8>>::empty(), puts_view(entries@)));
            assert(ledger.flushed_view() == ledger.store_view());
            assert(ledger.latest_tid_value() >= ledger.height() * pow256(4));
            assert(log_below(ledger.store_view(), ledger.latest_tid_value()));
            assert(ledger.symbols_spec() == symbols_view(symbols_v));
            assert(ledger.identity_spec() == identity_v);
            assert(ledger.accounts_spec() == accounts_v);
            assert(ledger.pending_multisig() == pending_v);
            assert(ledger.minters_spec() == minters_v);
            assert(ledger.ids_left() <==> ledger.latest_tid_value() + 1 < (ledger.height() + 1) * pow256(4));
            assert(ledger.pending() =~= Seq::<(Seq<u8>, Option<Seq<u8>>)>::empty());
        }
        Ok(ledger)
    }

    pub fn set_time(&mut self, time: u64)
        requires
            old(self).wf(),
        ensures
            final(self).wf(),
            final(self).time_spec() == Some(time),
            final(self).store_view() == old(self).store_view(),
            final(self).pending() == old(self).pending(),
            final(self).latest_tid_value() == old(self).latest_tid_value(),
            final(self).symbols_spec() == old(self).symbols_spec(),
            final(self).blockchain_spec() == old(self).blockchain_spec(),
            final(self).hash_spec() == old(self).hash_spec(),
            final(self).accounts_spec() == old(self).accounts_spec(),
            final(self).pending_multisig() == old(self).pending_multisig(),
    {
        self.current_time = Some(time);
    }

    /// Whether writes wait for a block commit (consensus mode) rather than
    /// being flushed after each operation (standalone mode).
    pub fn is_blockchain(&self) -> (r: bool)
        ensures
            r == self.blockchain_spec(),
    {
        self.blockchain
    }

    pub fn get_symbols(&self) -> (r: Vec<(Symbol, String)>)
        ensures
            symbols_view(r@) == self.symbols_spec(),
    {
        let mut r: Vec<(Symbol, String)> = Vec::new();
        let mut i: usize = 0;
        while i < self.symbols.len()
            invariant
                i <= self.symbols@.len(),
                symbols_view(r@) == symbols_view(self.symbols@.subrange(0, i as int)),
            decreases self.symbols.len() - i,
        {
            let entry = (self.symbols[i].0.duplicate(), self.symbols[i].1.clone());
            let ghost old_r = r@;
            proof {
                assert(entry.0@ == self.symbols@[i as int].0@);
                assert(entry.1@ == self.symbols@[i as int].1@);
            }
            r.push(entry);
            proof {
                let want = symbols_view(self.symbols@.subrange(0, i + 1));
                assert(symbols_view(self.symbols@.subrange(0, i as int)) =~= want.drop_last());
                assert forall|j: int| 0 <= j < i + 1 implies symbols_view(r@)[j] == want[j] by {
                    if j < i {
                        assert(r@[j] == old_r[j]);
                        assert(symbols_view(old_r)[j] == want.drop_last()[j]);
                    }
                }
                assert(symbols_view(r@) =~= want);
            }
            i = i + 1;
        }
        proof {
            assert(self.symbols@.subrange(0, self.symbols@.len() as int) =~= self.symbols@);
        }
        r
    }

    /// Reads a counter stored as 8 big-endian bytes; zero when absent.
    fn read_counter(&self, key: &Vec<u8>) -> (r: u64)
        requires
            self.wf(),
            key@ == height_key() || key@ == transactions_count_key(),
        ensures
            r as nat == counter_in(self.store_view(), key@),
    {
        match self.persistent_store.get(key) {
            None => 0,
            Some(bytes) => be_to_u64(&bytes),
        }
    }

    pub fn get_height(&self) -> (r: u64)
        requires
            self.wf(),
        ensures
            r as nat == self.height(),
    {
        self.read_counter(&height_key_bytes())
    }

    /// The number of records in the transaction log.
    pub fn nb_transactions(&self) -> (r: u64)
        requires
            self.wf(),
        ensures
            r as nat == self.transaction_count(),
            r as nat == log_keys(self.store_view()).len(),
    {
        self.read_counter(&transactions_count_key_bytes())
    }

    pub fn get_balance(&self, identity: &Identity, symbol: &Symbol) -> (r: TokenAmount)
        requires
            self.wf(),
        ensures
            r as nat == self.balance(identity@, symbol@),
    {
        if identity.is_anonymous() {
            0
        } else {
            let key = key_for_account(identity, symbol);
            proof {
                lemma_key_families(identity@, symbol@, Seq::empty());
            }
            match self.persistent_store.get(&key) {
                None => 0,
                Some(amount) => amount_from_bytes(&amount),
            }
        }
    }

    /// Moves `amount` of `symbol` from `from` to `to` and records the transfer
    /// in the transaction log under a fresh transaction id.
    #[verifier::rlimit(60)]
    pub fn send(&mut self, from: &Identity, to: &Identity, symbol: &Symbol, amount: TokenAmount) -> (r:
        Result<(), LedgerError>)
        requires
            old(self).wf(),
        ensures
            final(self).wf(),
            r == send_outcome(old(self), from@, to@, symbol@, amount),
            final(self).symbols_spec() == old(self).symbols_spec(),
            final(self).blockchain_spec() == old(self).blockchain_spec(),
            final(self).time_spec() == old(self).time_spec(),
            final(self).hash_spec() == old(self).hash_spec(),
            final(self).flushed_view() == old(self).flushed_view(),
            final(self).accounts_spec() == old(self).accounts_spec(),
            final(self).pending_multisig() == old(self).pending_multisig(),
            final(self).identity_spec() == old(self).identity_spec(),
            final(self).next_account_id_spec() == old(self).next_account_id_spec(),
            amount == 0 || from@ == to@ ==> r is Ok && *final(self) == *old(self),
            amount != 0 && from@ != to@ && (from@ == anonymous_bytes() || to@ == anonymous_bytes())
                ==> r == Err::<(), LedgerError>(LedgerError::AnonymousCannotHoldFunds) && *final(self)
                == *old(self),
            amount != 0 && from@ != to@ && from@ != anonymous_bytes() && to@ != anonymous_bytes()
                && amount > old(self).balance(from@, symbol@) ==> r == Err::<(), LedgerError>(
                LedgerError::InsufficientFunds,
            ) && *final(self) == *old(self),
            amount != 0 && from@ != to@ && from@ != anonymous_bytes() && to@ != anonymous_bytes()
                && amount <= old(self).balance(from@, symbol@) && (old(self).balance(to@, symbol@)
                + amount > u128::MAX || old(self).transaction_count() >= u64::MAX || !old(self).ids_left()) ==> r == Err::<
                (),
                LedgerError,
            >(LedgerError::Unknown) && *final(self) == *old(self),
            amount != 0 && from@ != to@ && from@ != anonymous_bytes() && to@ != anonymous_bytes()
                && amount <= old(self).balance(from@, symbol@) && old(self).balance(to@, symbol@)
                + amount <= u128::MAX && old(self).transaction_count() < u64::MAX && old(self).ids_left() ==> r is Ok,
            r is Ok ==> final(self).balance(from@, symbol@) + final(self).balance(to@, symbol@)
                == old(self).balance(from@, symbol@) + old(self).balance(to@, symbol@),
            r is Ok && amount != 0 && from@ != to@ ==> {
                &&& final(self).latest_tid_value() == old(self).latest_tid_value() + 1
                &&& !old(self).store_view().contains_key(transaction_key(final(self).latest_tid_bytes()))
                &&& final(self).transaction_count() == old(self).transaction_count() + 1
                &&& final(self).balance(from@, symbol@) == old(self).balance(from@, symbol@) - amount
                &&& final(self).balance(to@, symbol@) == old(self).balance(to@, symbol@) + amount
                &&& forall|x: Seq<u8>, s: Seq<u8>|
                    #![trigger final(self).balance(x, s)]
                    !(x == from@ && s == symbol@) && !(x == to@ && s == symbol@) ==> final(self).balance(
                        x,
                        s,
                    ) == old(self).balance(x, s)
                &&& exists|t: u64|
                    (old(self).time_spec() matches Some(now) ==> t == now) && final(self).store_view()
                        == old(self).store_view().insert(
                        balance_key(from@, symbol@),
                        minimal_be((old(self).balance(from@, symbol@) - amount) as nat),
                    ).insert(
                        balance_key(to@, symbol@),
                        minimal_be((old(self).balance(to@, symbol@) + amount) as nat),
                    ).insert(
                        transaction_key(final(self).latest_tid_bytes()),
                        send_record_cbor(
                            final(self).latest_tid_bytes(),
                            t,
                            from@,
                            to@,
                            symbol@,
                            amount as nat,
                        ),
                    ).insert(
                        transactions_count_key(),
                        be_bytes((old(self).transaction_count() + 1) as nat, 8),
                    )
            },
    {
        if amount == 0 || from.same_as(to) {
            return Ok(());
        }
        if to.is_anonymous() || from.is_anonymous() {
            return Err(LedgerError::AnonymousCannotHoldFunds);
        }
        let amount_from = self.get_balance(from, symbol);
        if amount > amount_from {
            return Err(LedgerError::InsufficientFunds);
        }
        let amount_to = self.get_balance(to, symbol);
        let count = self.nb_transactions();
        if amount_to > u128::MAX - amount || count == u64::MAX || self.ids_in_block == u32::MAX {
            return Err(LedgerError::Unknown);
        }
        let ghost m0 = self.store_view();
        // Keys in a batch must be sorted.
        let key_from = key_for_account(from, symbol);
        let key_to = key_for_account(to, symbol);
        proof {
            if key_from@ == key_to@ {
                lemma_balance_key_unique(from@, symbol@, to@, symbol@);
            }
        }
        let new_from = amount_from - amount;
        let new_to = amount_to + amount;
        let batch = sorted_pair(key_from, amount_to_bytes(new_from), key_to, amount_to_bytes(new_to));
        self.apply_batch(batch);
        let ghost m1 = self.store_view();
        proof {
            lemma_key_families(from@, symbol@, Seq::empty());
            lemma_key_families(to@, symbol@, Seq::empty());
            crate::codec::lemma_minimal_be(new_from as nat);
            let ma = m0.insert(balance_key(from@, symbol@), minimal_be(new_from as nat));
            lemma_log_kept(m0, balance_key(from@, symbol@), Some(minimal_be(new_from as nat)));
            lemma_log_kept(ma, balance_key(to@, symbol@), Some(minimal_be(new_to as nat)));
            assert forall|k: Seq<u8>| #[trigger] m1.contains_key(k) && is_balance_key(k) implies m1[k].len() <= 16 by {
                if k != balance_key(from@, symbol@) && k != balance_key(to@, symbol@) {
                    assert(m0.contains_key(k));
                }
            }
        }
        let id = self.new_transaction_id();
        let time = match self.current_time {
            Some(t) => t,
            None => wall_clock_secs(),
        };
        let ghost tid = id.0@;
        proof {
            lemma_key_families(Seq::empty(), Seq::empty(), tid);
            assert(!m0.contains_key(transaction_key(tid))) by {
                if m0.contains_key(transaction_key(tid)) {
                    assert(self.store_view().contains_key(transaction_key(tid)));
                }
            }
        }
        let transaction = Transaction {
            id,
            time,
            content: TransactionInfo::Send {
                from: from.duplicate(),
                to: to.duplicate(),
                symbol: symbol.duplicate(),
                amount,
            },
        };
        proof {
            assert(crate::transaction::transaction_cbor(transaction) =~= send_record_cbor(
                tid,
                time,
                from@,
                to@,
                symbol@,
                amount as nat,
            ));
        }
        self.add_transaction(transaction);
        proof {
            let m = self.store_view();
            lemma_key_families(from@, symbol@, tid);
            lemma_key_families(to@, symbol@, tid);
            crate::codec::lemma_minimal_be(new_from as nat);
            crate::codec::lemma_minimal_be(new_to as nat);
            assert(pow256(8) == 0x1_0000_0000_0000_0000) by {
                reveal_with_fuel(pow256, 9);
            }
            crate::bytes::lemma_be_bytes_value((count + 1) as nat, 8);
            assert forall|x: Seq<u8>, s: Seq<u8>|
                !(x == from@ && s == symbol@) && !(x == to@ && s == symbol@) implies #[trigger] balance_in(
                    m,
                    x,
                    s,
                ) == balance_in(m0, x, s) by {
                lemma_key_families(x, s, tid);
                if balance_key(x, s) == balance_key(from@, symbol@) {
                    lemma_balance_key_unique(x, s, from@, symbol@);
                }
                if balance_key(x, s) == balance_key(to@, symbol@) {
                    lemma_balance_key_unique(x, s, to@, symbol@);
                }
            }
            assert(balance_in(m, from@, symbol@) == new_from);
            assert(balance_in(m, to@, symbol@) == new_to);
            assert(tid == self.latest_tid_bytes());
            assert(m == m0.insert(
                balance_key(from@, symbol@),
                minimal_be(new_from as nat),
            ).insert(
                balance_key(to@, symbol@),
                minimal_be(new_to as nat),
            ).insert(
                transaction_key(tid),
                send_record_cbor(tid, time, from@, to@, symbol@, amount as nat),
            ).insert(
                transactions_count_key(),
                be_bytes((count + 1) as nat, 8),
            ));
        }
        Ok(())
    }

    /// Writes height + 1 and returns the height before.
    pub fn inc_height(&mut self) -> (r: u64)
        requires
            old(self).wf(),
            old(self).height() < u64::MAX,
        ensures
            final(self).wf(),
            r as nat == old(self).height(),
            final(self).height() == old(self).height() + 1,
            final(self).store_view() == old(self).store_view().insert(
                height_key(),
                be_bytes((old(self).height() + 1) as nat, 8),
            ),
            final(self).flushed_view() == old(self).flushed_view(),
            final(self).symbols_spec() == old(self).symbols_spec(),
            final(self).blockchain_spec() == old(self).blockchain_spec(),
            final(self).latest_tid_value() == final(self).height() * pow256(4),
            final(self).latest_tid_value() > old(self).latest_tid_value(),
            final(self).ids_left(),
            final(self).time_spec() == old(self).time_spec(),
            final(self).hash_spec() == old(self).hash_spec(),
            final(self).accounts_spec() == old(self).accounts_spec(),
            final(self).pending_multisig() == old(self).pending_multisig(),
    {
        let ghost v0 = self.latest_tid_value();
        let ghost base0 = self.block_base@;
        let ghost n0 = self.ids_in_block as nat;
        let current_height = self.get_height();
        let ghost m0 = self.store_view();
        let batch = vec![BatchEntry { key: height_key_bytes(), op: Op::Put(u64_to_be(current_height + 1)) }];
        proof {
            let bv = batch_view(batch@);
            reveal_with_fuel(apply_writes, 2);
            assert(bv.drop_last() =~= Seq::<(Seq<u8>, Option<Seq<u8>>)>::empty());
        }
        self.apply_batch(batch);
        proof {
            let m = self.store_view();
            lemma_key_families(Seq::empty(), Seq::empty(), Seq::empty());
            lemma_log_kept(m0, height_key(), Some(be_bytes((current_height + 1) as nat, 8)));
            assert(pow256(4) == 0x1_0000_0000) by {
                reveal_with_fuel(pow256, 5);
            }
            assert(v0 < (current_height as nat + 1) * pow256(4)) by (nonlinear_arith)
                requires
                    v0 == base0 * pow256(4) + n0,
                    base0 == current_height as nat,
                    n0 < pow256(4),
            ;
            assert forall|q: Seq<u8>| #[trigger] m.contains_key(q) && is_tx_key(q) implies tx_key_value(q)
                < (current_height as nat + 1) * pow256(4) by {
                assert(m0.contains_key(q));
            }
            assert(pow256(8) == 0x1_0000_0000_0000_0000) by {
                reveal_with_fuel(pow256, 9);
            }
            crate::bytes::lemma_be_bytes_value((current_height + 1) as nat, 8);
            assert forall|k: Seq<u8>| #[trigger] m.contains_key(k) && is_balance_key(k) implies m[k].len() <= 16 by {
                assert(m0.contains_key(k));
            }
        }
        // The id space of the new block starts after `new height << 32`.
        self.latest_tid = TransactionId::first_of_height(current_height + 1);
        self.ids_in_block = 0;
        self.block_base = Ghost((current_height + 1) as nat);
        current_height
    }

    /// Hands out the writes made since the last call (or commit) as one batch
    /// for durable storage: one write per key, the last one made, in strictly
    /// ascending key order. In standalone mode this follows every operation.
    pub fn take_writes(&mut self) -> (r: Vec<BatchEntry>)
        requires
            old(self).wf(),
        ensures
            final(self).wf(),
            apply_writes(old(self).flushed_view(), batch_view(r@)) == old(self).store_view(),
            keys_ascending(batch_view(r@)),
            final(self).flushed_view() == final(self).store_view(),
            final(self).pending() == Seq::<(Seq<u8>, Option<Seq<u8>>)>::empty(),
            final(self).store_view() == old(self).store_view(),
            final(self).ids_left() == old(self).ids_left(),
            final(self).identity_spec() == old(self).identity_spec(),
            final(self).next_account_id_spec() == old(self).next_account_id_spec(),
            final(self).accounts_spec() == old(self).accounts_spec(),
            final(self).pending_multisig() == old(self).pending_multisig(),
            final(self).symbols_spec() == old(self).symbols_spec(),
            final(self).blockchain_spec() == old(self).blockchain_spec(),
            final(self).latest_tid_value() == old(self).latest_tid_value(),
            final(self).time_spec() == old(self).time_spec(),
            final(self).hash_spec() is None,
    {
        let log = self.persistent_store.take_writes();
        let r = crate::store::sorted_writes(&log);
        // The stored root changes with these writes: the cached one is stale.
        self.current_hash = None;
        self.flushed = Ghost(self.persistent_store@);
        proof {
            assert(apply_writes(self.flushed@, Seq::<(Seq<u8>, Option<Seq<u8>>)>::empty()) == self.flushed@);
        }
        r
    }

    /// Closes the block: writes the new height, reserves the id space of the
    /// next block (its ids start after `new height << 32`) and hands out the
    /// writes of the block as one batch in ascending key order, for durable
    /// storage. The root hash of the stored result is then given to
    /// `record_root_hash`.
    pub fn commit(&mut self) -> (r: Vec<BatchEntry>)
        requires
            old(self).wf(),
            old(self).height() < u64::MAX,
        ensures
            final(self).wf(),
            final(self).height() == old(self).height() + 1,
            final(self).store_view() == old(self).store_view().insert(
                height_key(),
                be_bytes((old(self).height() + 1) as nat, 8),
            ),
            final(self).latest_tid_value() == final(self).height() * pow256(4),
            final(self).latest_tid_value() > old(self).latest_tid_value(),
            final(self).ids_left(),
            apply_writes(old(self).flushed_view(), batch_view(r@)) == final(self).store_view(),
            keys_ascending(batch_view(r@)),
            final(self).flushed_view() == final(self).store_view(),
            final(self).pending() == Seq::<(Seq<u8>, Option<Seq<u8>>)>::empty(),
            final(self).symbols_spec() == old(self).symbols_spec(),
            final(self).blockchain_spec() == old(self).blockchain_spec(),
            final(self).time_spec() == old(self).time_spec(),
            final(self).hash_spec() is None,
            final(self).accounts_spec() == old(self).accounts_spec(),
            final(self).pending_multisig() == old(self).pending_multisig(),
    {
        self.inc_height();
        self.take_writes()
    }

    /// Records the root hash of the block just stored and reports the commit.
    pub fn record_root_hash(&mut self, hash: Vec<u8>) -> (r: AbciCommitInfo)
        requires
            old(self).wf(),
        ensures
            final(self).wf(),
            final(self).hash_spec() == Some(hash@),
            r.retain_height == 0,
            r.hash@ == hash@,
            final(self).store_view() == old(self).store_view(),
            final(self).flushed_view() == old(self).flushed_view(),
            final(self).pending() == old(self).pending(),
            final(self).symbols_spec() == old(self).symbols_spec(),
            final(self).blockchain_spec() == old(self).blockchain_spec(),
            final(self).latest_tid_value() == old(self).latest_tid_value(),
            final(self).time_spec() == old(self).time_spec(),
            final(self).accounts_spec() == old(self).accounts_spec(),
            final(self).pending_multisig() == old(self).pending_multisig(),
    {
        let copy = crate::store::clone_bytes(&hash);
        self.current_hash = Some(hash);
        AbciCommitInfo { retain_height: 0, hash: copy }
    }

    /// Whether the store holds a balance entry for `id` in `symbol`.
    pub open spec fn has_balance_entry(&self, id: Seq<u8>, symbol: Seq<u8>) -> bool {
        self.store_view().contains_key(balance_key(id, symbol))
    }

    /// The balances of `identity` in every symbol of the table for which one is
    /// stored, in table order; nothing for the anonymous identity.
    fn get_all_balances(&self, identity: &Identity) -> (r: Vec<(Symbol, TokenAmount)>)
        requires
            self.wf(),
        ensures
            identity@ == anonymous_bytes() ==> r@.len() == 0,
            forall|i: int|
                0 <= i < r@.len() ==> symbol_listed(self.symbols_spec(), #[trigger] r@[i].0@)
                    && self.has_balance_entry(identity@, r@[i].0@) && r@[i].1 == self.balance(
                    identity@,
                    r@[i].0@,
                ),
            identity@ != anonymous_bytes() ==> forall|s: Seq<u8>|
                symbol_listed(self.symbols_spec(), s) && #[trigger] self.has_balance_entry(
                    identity@,
                    s,
                ) ==> exists|i: int| 0 <= i < r@.len() && #[trigger] r@[i].0@ == s,
    {
        let mut result: Vec<(Symbol, TokenAmount)> = Vec::new();
        if identity.is_anonymous() {
            // Anonymous cannot hold funds.
            return result;
        }
        let ghost sv = self.symbols_spec();
        let mut i: usize = 0;
        while i < self.symbols.len()
            invariant
                self.wf(),
                identity@ != anonymous_bytes(),
                sv == self.symbols_spec(),
                i <= self.symbols@.len(),
                sv.len() == self.symbols@.len(),
                forall|a: int|
                    0 <= a < result@.len() ==> symbol_listed(sv, #[trigger] result@[a].0@)
                        && self.has_balance_entry(identity@, result@[a].0@) && result@[a].1
                        == self.balance(identity@, result@[a].0@),
                forall|b: int|
                    0 <= b < i && #[trigger] self.has_balance_entry(identity@, sv[b].0) ==> exists|
                        a: int,
                    | 0 <= a < result@.len() && #[trigger] result@[a].0@ == sv[b].0,
            decreases self.symbols.len() - i,
        {
            let symbol = &self.symbols[i].0;
            let key = key_for_account(identity, symbol);
            proof {
                assert(sv[i as int].0 == symbol@);
                lemma_key_families(identity@, symbol@, Seq::empty());
            }
            match self.persistent_store.get(&key) {
                None => {},
                Some(value) => {
                    let ghost before = result@;
                    result.push((symbol.duplicate(), amount_from_bytes(&value)));
                    proof {
                        assert(result@[before.len() as int].0@ == sv[i as int].0);
                        assert forall|b: int|
                            0 <= b < i + 1 && #[trigger] self.has_balance_entry(identity@, sv[b].0)
                                implies exists|a: int| 0 <= a < result@.len() && #[trigger] result@[a].0@ == sv[b].0 by {
                            if b < i {
                                let a = choose|a: int| 0 <= a < before.len() && #[trigger] before[a].0@ == sv[b].0;
                                assert(result@[a] == before[a]);
                            }
                        }
                    }
                },
            }
            i = i + 1;
        }
        proof {
            assert forall|s: Seq<u8>|
                symbol_listed(sv, s) && #[trigger] self.has_balance_entry(identity@, s) implies exists|
                i: int,
            | 0 <= i < result@.len() && #[trigger] result@[i].0@ == s by {
                let b = choose|b: int| 0 <= b < sv.len() && #[trigger] sv[b].0 == s;
                assert(self.has_balance_entry(identity@, sv[b].0));
            }
        }
        result
    }

    /// The balances of `identity` restricted to `symbols`; an empty filter
    /// asks for every symbol of the table.
    pub fn get_multiple_balances(&self, identity: &Identity, symbols: &Vec<Symbol>) -> (r: Vec<
        (Symbol, TokenAmount),
    >)
        requires
            self.wf(),
        ensures
            identity@ == anonymous_bytes() ==> r@.len() == 0,
            forall|i: int|
                0 <= i < r@.len() ==> symbol_listed(self.symbols_spec(), #[trigger] r@[i].0@)
                    && self.has_balance_entry(identity@, r@[i].0@) && r@[i].1 == self.balance(
                    identity@,
                    r@[i].0@,
                ) && (symbols@.len() == 0 || in_filter(symbols@, r@[i].0@)),
            identity@ != anonymous_bytes() ==> forall|s: Seq<u8>|
                symbol_listed(self.symbols_spec(), s) && #[trigger] self.has_balance_entry(
                    identity@,
                    s,
                ) && (symbols@.len() == 0 || in_filter(symbols@, s))
                    ==> exists|i: int| 0 <= i < r@.len() && #[trigger] r@[i].0@ == s,
    {
        let all = self.get_all_balances(identity);
        if symbols.len() == 0 {
            return all;
        }
        let mut result: Vec<(Symbol, TokenAmount)> = Vec::new();
        let mut i: usize = 0;
        while i < all.len()
            invariant
                self.wf(),
                i <= all@.len(),
                symbols@.len() > 0,
                forall|a: int|
                    0 <= a < all@.len() ==> symbol_listed(self.symbols_spec(), #[trigger] all@[a].0@)
                        && self.has_balance_entry(identity@, all@[a].0@) && all@[a].1 == self.balance(
                        identity@,
                        all@[a].0@,
                    ),
                forall|a: int|
                    0 <= a < result@.len() ==> symbol_listed(self.symbols_spec(), #[trigger] result@[a].0@)
                        && self.has_balance_entry(identity@, result@[a].0@) && result@[a].1
                        == self.balance(identity@, result@[a].0@) && exists|k: int|
                        0 <= k < symbols@.len() && symbols@[k]@ == result@[a].0@,
                identity@ == anonymous_bytes() ==> all@.len() == 0,
                result@.len() <= i,
                forall|b: int|
                    0 <= b < i && in_filter(symbols@, #[trigger] all@[b].0@)
                        ==> exists|a: int| 0 <= a < result@.len() && #[trigger] result@[a].0@ == all@[b].0@,
            decreases all.len() - i,
        {
            if has_symbol_in(symbols, &all[i].0) {
                let ghost before = result@;
                result.push((all[i].0.duplicate(), all[i].1));
                proof {
                    assert forall|b: int|
                        0 <= b < i + 1 && in_filter(symbols@, #[trigger] all@[b].0@)
                            implies exists|a: int| 0 <= a < result@.len() && #[trigger] result@[a].0@ == all@[b].0@ by {
                        if b < i {
                            let a = choose|a: int| 0 <= a < before.len() && #[trigger] before[a].0@ == all@[b].0@;
                            assert(result@[a] == before[a]);
                        } else {
                            assert(result@[before.len() as int].0@ == all@[b].0@);
                        }
                    }
                }
            }
            i = i + 1;
        }
        proof {
            if identity@ != anonymous_bytes() {
                assert forall|s: Seq<u8>|
                    symbol_listed(self.symbols_spec(), s) && #[trigger] self.has_balance_entry(identity@, s)
                        && (symbols@.len() == 0 || in_filter(symbols@, s))
                        implies exists|i: int| 0 <= i < result@.len() && #[trigger] result@[i].0@ == s by {
                    let b = choose|b: int| 0 <= b < all@.len() && #[trigger] all@[b].0@ == s;
                    assert(in_filter(symbols@, all@[b].0@));
                }
            }
        }
        result
    }

    /// Scans the transaction log over `range` in the given order.
    pub fn iter(&self, range: CborRange, order: SortOrder) -> (r: LedgerIterator)
        requires
            self.wf(),
        ensures
            order != SortOrder::Descending ==> is_scan(
                r.remaining(),
                self.store_view(),
                lower_key(range.start),
                upper_key(range.end),
            ),
            order == SortOrder::Descending ==> is_scan(
                r.remaining().reverse(),
                self.store_view(),
                lower_key(range.start),
                upper_key(range.end),
            ),
    {
        LedgerIterator::scoped_by_id(&self.persistent_store, range, order)
    }

    /// Writes one record that is neither a balance nor a counter.
    fn put_record(&mut self, key: Vec<u8>, value: Vec<u8>)
        requires
            old(self).wf(),
            is_record_key(key@),
        ensures
            final(self).wf(),
            final(self).store_view() == old(self).store_view().insert(key@, value@),
            final(self).flushed == old(self).flushed,
            final(self).symbols == old(self).symbols,
            final(self).blockchain == old(self).blockchain,
            final(self).latest_tid == old(self).latest_tid,
            final(self).current_time == old(self).current_time,
            final(self).current_hash == old(self).current_hash,
            final(self).identity == old(self).identity,
            final(self).next_account_id == old(self).next_account_id,
            final(self).accounts == old(self).accounts,
            final(self).multisig == old(self).multisig,
            final(self).minters == old(self).minters,
            final(self).ids_in_block == old(self).ids_in_block,
            final(self).block_base == old(self).block_base,
    {
        let ghost m0 = self.store_view();
        let ghost kv = key@;
        let ghost vv = value@;
        let batch = vec![BatchEntry { key, op: Op::Put(value) }];
        proof {
            let bv = batch_view(batch@);
            reveal_with_fuel(apply_writes, 2);
            assert(bv.drop_last() =~= Seq::<(Seq<u8>, Option<Seq<u8>>)>::empty());
            assert(apply_writes(m0, bv) == m0.insert(kv, vv));
        }
        self.apply_batch(batch);
        proof {
            let m = self.store_view();
            assert forall|k: Seq<u8>| #[trigger] m.contains_key(k) && is_balance_key(k) implies m[k].len() <= 16 by {
                assert(m0.contains_key(k));
            }
            lemma_order_kept(m0, kv, Some(vv), self.latest_tid.0@);
            lemma_log_kept(m0, kv, Some(vv));
        }
    }

    /// Deletes one record that is neither a balance nor a counter.
    fn delete_record(&mut self, key: Vec<u8>)
        requires
            old(self).wf(),
            is_record_key(key@),
        ensures
            final(self).wf(),
            final(self).store_view() == old(self).store_view().remove(key@),
            final(self).flushed == old(self).flushed,
            final(self).symbols == old(self).symbols,
            final(self).blockchain == old(self).blockchain,
            final(self).latest_tid == old(self).latest_tid,
            final(self).current_time == old(self).current_time,
            final(self).current_hash == old(self).current_hash,
            final(self).identity == old(self).identity,
            final(self).next_account_id == old(self).next_account_id,
            final(self).accounts == old(self).accounts,
            final(self).multisig == old(self).multisig,
            final(self).minters == old(self).minters,
            final(self).ids_in_block == old(self).ids_in_block,
            final(self).block_base == old(self).block_base,
    {
        let ghost m0 = self.store_view();
        let ghost kv = key@;
        let batch = vec![BatchEntry { key, op: Op::Delete }];
        proof {
            let bv = batch_view(batch@);
            reveal_with_fuel(apply_writes, 2);
            assert(bv.drop_last() =~= Seq::<(Seq<u8>, Option<Seq<u8>>)>::empty());
            assert(apply_writes(m0, bv) == m0.remove(kv));
        }
        self.apply_batch(batch);
        proof {
            let m = self.store_view();
            assert forall|k: Seq<u8>| #[trigger] m.contains_key(k) && is_balance_key(k) implies m[k].len() <= 16 by {
                assert(m0.contains_key(k));
            }
            lemma_order_kept(m0, kv, None, self.latest_tid.0@);
            lemma_log_kept(m0, kv, None);
        }
    }

    fn find_account(&self, id: &Identity) -> (r: Option<usize>)
        requires
            self.wf(),
        ensures
            r matches Some(i) ==> i < self.accounts@.len() && self.accounts@[i as int].0@ == id@
                && self.account(id@) == Some(self.accounts@[i as int].1),
            r is None ==> self.account(id@) is None,
    {
        let mut i: usize = 0;
        while i < self.accounts.len()
            invariant
                self.wf(),
                i <= self.accounts@.len(),
                forall|j: int| 0 <= j < i ==> #[trigger] self.accounts@[j].0@ != id@,
            decreases self.accounts.len() - i,
        {
            if self.accounts[i].0.same_as(id) {
                proof {
                    lemma_account_in_at(self.accounts@, i as int);
                }
                return Some(i);
            }
            i = i + 1;
        }
        None
    }

    fn find_pending(&self, token: &Vec<u8>) -> (r: Option<usize>)
        requires
            self.wf(),
        ensures
            r matches Some(i) ==> i < self.multisig@.len() && self.multisig@[i as int].0@ == token@
                && self.multisig_at(token@) == Some(self.multisig@[i as int].1),
            r is None ==> self.multisig_at(token@) is None,
    {
        let mut i: usize = 0;
        while i < self.multisig.len()
            invariant
                self.wf(),
                i <= self.multisig@.len(),
                forall|j: int| 0 <= j < i ==> #[trigger] self.multisig@[j].0@ != token@,
            decreases self.multisig.len() - i,
        {
            if compare_bytes(&self.multisig[i].0, token) == 0 {
                proof {
                    lemma_pending_in_at(self.multisig@, i as int);
                }
                return Some(i);
            }
            i = i + 1;
        }
        None
    }

    /// Registers an account under a fresh sub-identity of the ledger's
    /// identity and returns that identity. Fails with `Unknown` once the
    /// 32-bit counter of sub-identities is spent.
    pub fn add_account(&mut self, account: Account) -> (r: Result<Identity, LedgerError>)
        requires
            old(self).wf(),
        ensures
            final(self).wf(),
            final(self).pending_multisig() == old(self).pending_multisig(),
            forall|x: Seq<u8>, s: Seq<u8>| #[trigger] final(self).balance(x, s) == old(self).balance(x, s),
            final(self).latest_tid_value() == old(self).latest_tid_value(),
            final(self).identity_spec() == old(self).identity_spec(),
            old(self).next_account_id_spec() == u32::MAX ==> r == Err::<Identity, LedgerError>(
                LedgerError::Unknown,
            ) && final(self).accounts_spec() == old(self).accounts_spec()
                && final(self).store_view() == old(self).store_view()
                && final(self).next_account_id_spec() == old(self).next_account_id_spec(),
            old(self).next_account_id_spec() < u32::MAX ==> (r matches Ok(id) && id@ == subresource_bytes(
                old(self).identity_spec(),
                old(self).next_account_id_spec() as u32,
            ) && final(self).next_account_id_spec() == old(self).next_account_id_spec() + 1
                && final(self).account(id@) == Some(account) && old(self).account(id@) is None
                && final(self).store_view() == old(self).store_view().insert(account_key(id@), account_cbor(account)).insert(
                account_id_key(),
                be_bytes(old(self).next_account_id_spec() + 1, 4),
            )
                && forall|x: Seq<u8>| x != id@ ==> #[trigger] final(self).account(x) == old(self).account(x)),
    {
        if self.next_account_id == u32::MAX {
            return Err(LedgerError::Unknown);
        }
        let n = self.next_account_id;
        let id = self.identity.with_subresource_id(n);
        let ghost old_accounts = self.accounts@;
        proof {
            assert forall|j: int| 0 <= j < old_accounts.len() implies #[trigger] old_accounts[j].0@ != id@ by {
                assert(allocated_id(self.identity@, n, old_accounts[j].0@));
                let m = choose|m: u32| m < n && old_accounts[j].0@ == #[trigger] subresource_bytes(self.identity@, m);
                if old_accounts[j].0@ == id@ {
                    crate::identity::lemma_subresource_injective(self.identity@, m, n);
                }
            }
        }
        let record = encode_account(&account);
        let ghost m0 = self.store_view();
        proof {
            lemma_record_keys(id@, Seq::empty());
        }
        self.put_record(account_key_bytes(&id), record);
        self.put_record(account_id_key_bytes(), crate::codec::u32_to_be(n + 1));
        proof {
            lemma_record_write_keeps_balances(m0, account_key(id@), account_cbor(account));
            lemma_record_write_keeps_balances(m0.insert(account_key(id@), account_cbor(account)), account_id_key(), be_bytes((n + 1) as nat, 4));
        }
        self.accounts.push((id.duplicate(), account));
        self.next_account_id = n + 1;
        proof {
            let s = self.accounts@;
            let last = s.len() - 1;
            assert forall|i: int| 0 <= i < s.len() implies allocated_id(self.identity@, self.next_account_id, #[trigger] s[i].0@) by {
                if i == last {
                    assert(s[i].0@ == subresource_bytes(self.identity@, n));
                } else {
                    assert(s[i] == old_accounts[i]);
                    assert(allocated_id(self.identity@, n, old_accounts[i].0@));
                    let m = choose|m: u32| m < n && old_accounts[i].0@ == #[trigger] subresource_bytes(self.identity@, m);
                    assert(m < self.next_account_id);
                }
            }
            assert forall|a: int, b: int| 0 <= a < b < s.len() implies #[trigger] s[a].0@ != #[trigger] s[b].0@ by {
                if b == last {
                    assert(s[a] == old_accounts[a]);
                } else {
                    assert(s[a] == old_accounts[a]);
                    assert(s[b] == old_accounts[b]);
                }
            }
            lemma_account_in_at(s, last);
            assert forall|x: Seq<u8>| x != id@ implies #[trigger] account_in(s, x) == account_in(old_accounts, x) by {
                if exists|k: int| 0 <= k < old_accounts.len() && #[trigger] old_accounts[k].0@ == x {
                    let k = choose|k: int| 0 <= k < old_accounts.len() && #[trigger] old_accounts[k].0@ == x;
                    lemma_account_in_at(old_accounts, k);
                    assert(s[k] == old_accounts[k]);
                    lemma_account_in_at(s, k);
                } else {
                    assert forall|k: int| 0 <= k < s.len() implies #[trigger] s[k].0@ != x by {
                        if k < last {
                            assert(s[k] == old_accounts[k]);
                        }
                    }
                }
            }
        }
        Ok(id)
    }

    /// The account registered under `id`, if any.
    pub fn get_account(&self, id: &Identity) -> (r: Option<&Account>)
        requires
            self.wf(),
        ensures
            r matches Some(a) ==> self.account(id@) == Some(*a),
            r is None ==> self.account(id@) is None,
    {
        match self.find_account(id) {
            Some(i) => Some(&self.accounts[i].1),
            None => None,
        }
    }

    /// Replaces the record of an existing account; fails with
    /// `UnknownAccount` when there is none. Authorisation is the caller's.
    pub fn commit_account(&mut self, id: &Identity, account: Account) -> (r: Result<(), LedgerError>)
        requires
            old(self).wf(),
        ensures
            final(self).wf(),
            final(self).pending_multisig() == old(self).pending_multisig(),
            forall|x: Seq<u8>, s: Seq<u8>| #[trigger] final(self).balance(x, s) == old(self).balance(x, s),
            final(self).latest_tid_value() == old(self).latest_tid_value(),
            final(self).next_account_id_spec() == old(self).next_account_id_spec(),
            old(self).account(id@) is None ==> r == Err::<(), LedgerError>(LedgerError::UnknownAccount)
                && final(self).accounts_spec() == old(self).accounts_spec()
                && final(self).store_view() == old(self).store_view(),
            old(self).account(id@) is Some ==> r is Ok && final(self).account(id@) == Some(account)
                && final(self).store_view() == old(self).store_view().insert(account_key(id@), account_cbor(account))
                && forall|x: Seq<u8>| x != id@ ==> #[trigger] final(self).account(x) == old(self).account(x),
    {
        match self.find_account(id) {
            None => Err(LedgerError::UnknownAccount),
            Some(i) => {
                let record = encode_account(&account);
                let ghost m0 = self.store_view();
                proof {
                    lemma_record_keys(id@, Seq::empty());
                    lemma_record_write_keeps_balances(m0, account_key(id@), account_cbor(account));
                }
                self.put_record(account_key_bytes(id), record);
                let ghost old_accounts = self.accounts@;
                let key = self.accounts[i].0.duplicate();
                self.accounts.set(i, (key, account));
                proof {
                    let s = self.accounts@;
                    assert forall|j: int| 0 <= j < s.len() implies allocated_id(self.identity@, self.next_account_id, #[trigger] s[j].0@) by {
                        assert(s[j].0@ == old_accounts[j].0@);
                    }
                    assert forall|a: int, b: int| 0 <= a < b < s.len() implies #[trigger] s[a].0@ != #[trigger] s[b].0@ by {
                        assert(s[a].0@ == old_accounts[a].0@);
                        assert(s[b].0@ == old_accounts[b].0@);
                    }
                    lemma_account_in_at(s, i as int);
                    assert forall|x: Seq<u8>| x != id@ implies #[trigger] account_in(s, x) == account_in(old_accounts, x) by {
                        if exists|k: int| 0 <= k < old_accounts.len() && #[trigger] old_accounts[k].0@ == x {
                            let k = choose|k: int| 0 <= k < old_accounts.len() && #[trigger] old_accounts[k].0@ == x;
                            lemma_account_in_at(old_accounts, k);
                            assert(s[k] == old_accounts[k]);
                            lemma_account_in_at(s, k);
                        } else {
                            assert forall|k: int| 0 <= k < s.len() implies #[trigger] s[k].0@ != x by {
                                assert(s[k].0@ == old_accounts[k].0@);
                            }
                        }
                    }
                }
                Ok(())
            },
        }
    }

    /// What running the transfer of a multisig transaction did to the
    /// balances: moved them when it succeeded, nothing otherwise.
    pub open spec fn transfer_done(&self, before: &LedgerStorage, t: TransactionInfo, ok: bool) -> bool {
        match t {
            TransactionInfo::Send { from, to, symbol, amount } => {
                &&& ok ==> self.balance(from@, symbol@) + self.balance(to@, symbol@)
                    == before.balance(from@, symbol@) + before.balance(to@, symbol@)
                &&& ok && amount != 0 && from@ != to@ ==> self.balance(from@, symbol@)
                    == before.balance(from@, symbol@) - amount && self.balance(to@, symbol@)
                    == before.balance(to@, symbol@) + amount
                &&& !ok ==> forall|x: Seq<u8>, s: Seq<u8>| #[trigger] self.balance(x, s) == before.balance(x, s)
            },
            _ => !ok && forall|x: Seq<u8>, s: Seq<u8>| #[trigger] self.balance(x, s) == before.balance(x, s),
        }
    }

    /// The outcome of running the transfer of a multisig transaction: the
    /// sender on success, else the transfer's error; only transfers run.
    pub open spec fn transfer_outcome(
        &self,
        before: &LedgerStorage,
        t: TransactionInfo,
        r: Result<Identity, LedgerError>,
    ) -> bool {
        &&& self.transfer_done(before, t, r is Ok)
        &&& r matches Ok(o) ==> (t matches TransactionInfo::Send { from, .. } && o@ == from@)
        &&& (r is Ok <==> run_result(before, t) is Ok)
        &&& (run_result(before, t) matches Err(e) ==> r == Err::<Identity, LedgerError>(e))
    }

    /// Runs the pending multisig transaction at position `i`: its record goes
    /// first, then its transfer is made; the transfer's error fails the run.
    fn execute_internal(&mut self, i: usize) -> (r: Result<Identity, LedgerError>)
        requires
            old(self).wf(),
            i < old(self).pending_multisig().len(),
        ensures
            final(self).wf(),
            final(self).multisig_at(old(self).pending_multisig()[i as int].0@) is None,
            forall|t: Seq<u8>|
                t != old(self).pending_multisig()[i as int].0@ ==> #[trigger] final(self).multisig_at(t)
                    == old(self).multisig_at(t),
            final(self).accounts_spec() == old(self).accounts_spec(),
            final(self).transfer_outcome(old(self), old(self).pending_multisig()[i as int].1.transaction, r),
            r is Err ==> final(self).store_view() == old(self).store_view().remove(
                multisig_key(old(self).pending_multisig()[i as int].0@),
            ),
    {
        let ghost s0 = self.multisig@;
        let ghost before = *self;
        let (token, record) = self.multisig.remove(i);
        proof {
            lemma_pending_remove(s0, i as int);
            lemma_record_keys(Seq::empty(), token@);
            lemma_record_write_keeps_balances(before.store_view(), multisig_key(token@), Seq::empty());
            assert(record == s0[i as int].1);
        }
        self.delete_record(multisig_key_bytes(&token));
        let ghost mid = *self;
        match record.transaction {
            TransactionInfo::Send { from, to, symbol, amount } => {
                let res = self.send(&from, &to, &symbol, amount);
                proof {
                    assert(forall|x: Seq<u8>, y: Seq<u8>| #[trigger] mid.balance(x, y) == before.balance(x, y));
                    assert(mid.transaction_count() == before.transaction_count());
                    assert(mid.balance(from@, symbol@) == before.balance(from@, symbol@));
                    assert(mid.balance(to@, symbol@) == before.balance(to@, symbol@));
                }
                match res {
                    Ok(()) => Ok(from),
                    Err(e) => Err(e),
                }
            },
            _ => Err(LedgerError::TransactionTypeUnsupported),
        }
    }

    /// Submits a multisig transaction for `sender` and returns its token, the
    /// bytes of a fresh transaction id. Policy values that the caller gives
    /// need the owner role; missing ones come from the account, then from the
    /// engine's defaults. The timeout is at most 185 days.
    pub fn create_multisig_transaction(&mut self, sender: &Identity, arg: SubmitTransactionArgs) -> (r:
        Result<Vec<u8>, LedgerError>)
        requires
            old(self).wf(),
        ensures
            final(self).wf(),
            final(self).accounts_spec() == old(self).accounts_spec(),
            forall|x: Seq<u8>, s: Seq<u8>| #[trigger] final(self).balance(x, s) == old(self).balance(x, s),
            r is Err ==> final(self).store_view() == old(self).store_view(),
            submit_account(arg) is None ==> r == Err::<Vec<u8>, LedgerError>(LedgerError::InvalidTransaction),
            ({
                let account_id = submit_account(arg).unwrap();
                let acct = old(self).account(account_id);
                let owner = acct matches Some(a) && account_has_role(a, sender@, Role::Owner);
                let submit = acct matches Some(a) && account_has_role(a, sender@, Role::CanMultisigSubmit);
                let feature = match acct {
                    Some(a) => multisig_feature_of(a),
                    None => None,
                };
                let threshold = resolve_spec(owner, arg.threshold, match feature {
                    Some(f) => f.threshold,
                    None => None,
                }, MULTISIG_DEFAULT_THRESHOLD);
                let timeout = resolve_spec(owner, arg.timeout_in_secs, match feature {
                    Some(f) => f.timeout_in_secs,
                    None => None,
                }, MULTISIG_DEFAULT_TIMEOUT_IN_SECS);
                let auto = resolve_spec(owner, arg.execute_automatically, match feature {
                    Some(f) => f.execute_automatically,
                    None => None,
                }, MULTISIG_DEFAULT_EXECUTE_AUTOMATICALLY);
                &&& submit_account(arg) is Some && !sender_matches(arg.transaction, account_id) ==> r == Err::<Vec<u8>, LedgerError>(LedgerError::InvalidTransaction)
                &&& submit_account(arg) is Some && sender_matches(arg.transaction, account_id) && acct is None ==> r == Err::<Vec<u8>, LedgerError>(
                    LedgerError::UnknownAccount,
                )
                &&& submit_account(arg) is Some && sender_matches(arg.transaction, account_id) && acct is Some && !owner && !submit ==> r == Err::<
                    Vec<u8>,
                    LedgerError,
                >(LedgerError::UserNeedsRole(Role::CanMultisigSubmit))
                &&& submit_account(arg) is Some && sender_matches(arg.transaction, account_id) && acct is Some && (owner || submit) && (threshold is Err
                    || timeout is Err || auto is Err) ==> r == Err::<Vec<u8>, LedgerError>(
                    LedgerError::UserNeedsRole(Role::Owner),
                )
                &&& submit_account(arg) is Some && sender_matches(arg.transaction, account_id) && acct is Some && (owner || submit) && threshold == Ok::<
                    u64,
                    LedgerError,
                >(0u64) && timeout is Ok && auto is Ok ==> r == Err::<Vec<u8>, LedgerError>(
                    LedgerError::InvalidTransaction,
                )
                &&& submit_account(arg) is Some && sender_matches(arg.transaction, account_id) && acct is Some
                    && (owner || submit) && (threshold matches Ok(t) && t >= 1) && timeout is Ok && auto is Ok
                    && !old(self).ids_left() ==> r == Err::<Vec<u8>, LedgerError>(LedgerError::Unknown)
                &&& submit_account(arg) is Some && sender_matches(arg.transaction, account_id) && acct is Some
                    && (owner || submit) && (threshold matches Ok(t) && t >= 1) && timeout is Ok && auto is Ok
                    && old(self).ids_left() ==> r is Ok
                &&& r is Err ==> final(self).pending_multisig() == old(self).pending_multisig()
                    && final(self).latest_tid_value() == old(self).latest_tid_value()
                &&& r matches Ok(token) ==> {
                    &&& submit_account(arg) is Some && sender_matches(arg.transaction, account_id)
                    &&& acct is Some
                    &&& owner || submit
                    &&& token@ == final(self).latest_tid_bytes()
                    &&& final(self).latest_tid_value() == old(self).latest_tid_value() + 1
                &&& !old(self).store_view().contains_key(transaction_key(final(self).latest_tid_bytes()))
                    &&& final(self).multisig_at(token@) matches Some(p) && {
                        &&& final(self).store_view() == old(self).store_view().insert(multisig_key(token@), pending_cbor(p))
                        &&& p.account@ == account_id
                        &&& p.submitter@ == sender@
                        &&& threshold == Ok::<u64, LedgerError>(p.threshold) && p.threshold >= 1
                        &&& auto == Ok::<bool, LedgerError>(p.execute_automatically)
                        &&& timeout is Ok
                        &&& (old(self).time_spec() matches Some(now) ==> p.timeout == deadline(now, timeout.unwrap()))
                        &&& deadline_reachable(p.timeout, timeout.unwrap())
                        &&& p.transaction == arg.transaction
                        &&& p.memo == arg.memo
                        &&& forall|x: Seq<u8>|
                            #[trigger] is_approver(p.approvers@, x) <==> (account_has_role(
                                acct.unwrap(),
                                x,
                                Role::CanMultisigApprove,
                            ) || x == sender@)
                        &&& forall|j: int|
                            0 <= j < p.approvers@.len() ==> (#[trigger] p.approvers@[j].approved
                                <==> p.approvers@[j].identity@ == sender@)
                    }
                    &&& forall|t: Seq<u8>| t != token@ ==> #[trigger] final(self).multisig_at(t)
                        == old(self).multisig_at(t)
                }
            }),
    {
        let account_id = match &arg.account {
            Some(a) => a.duplicate(),
            None => match &arg.transaction {
                TransactionInfo::Send { from, .. } => from.duplicate(),
                _ => return Err(LedgerError::InvalidTransaction),
            },
        };
        match &arg.transaction {
            TransactionInfo::Send { from, .. } => {
                if !from.same_as(&account_id) {
                    return Err(LedgerError::InvalidTransaction);
                }
            },
            _ => {},
        }
        let idx = match self.find_account(&account_id) {
            Some(i) => i,
            None => return Err(LedgerError::UnknownAccount),
        };
        let account = &self.accounts[idx].1;
        let is_owner = has_role(account, sender, Role::Owner);
        if !is_owner && !has_role(account, sender, Role::CanMultisigSubmit) {
            return Err(LedgerError::UserNeedsRole(Role::CanMultisigSubmit));
        }
        let (default_threshold, default_timeout, default_auto) = match multisig_feature(account) {
            Some(f) => (f.threshold, f.timeout_in_secs, f.execute_automatically),
            None => (None, None, None),
        };
        let threshold = match resolve_u64(is_owner, arg.threshold, default_threshold, MULTISIG_DEFAULT_THRESHOLD) {
            Ok(v) => v,
            Err(e) => return Err(e),
        };
        let timeout_in_secs = match resolve_u64(is_owner, arg.timeout_in_secs, default_timeout, MULTISIG_DEFAULT_TIMEOUT_IN_SECS) {
            Ok(v) => v,
            Err(e) => return Err(e),
        };
        let execute_automatically = match resolve_bool(is_owner, arg.execute_automatically, default_auto, MULTISIG_DEFAULT_EXECUTE_AUTOMATICALLY) {
            Ok(v) => v,
            Err(e) => return Err(e),
        };
        if threshold == 0 {
            return Err(LedgerError::InvalidTransaction);
        }
        if self.ids_in_block == u32::MAX {
            return Err(LedgerError::Unknown);
        }
        let lifetime = timeout_in_secs;
        let timeout_in_secs = if timeout_in_secs > MULTISIG_MAXIMUM_TIMEOUT_IN_SECS {
            MULTISIG_MAXIMUM_TIMEOUT_IN_SECS
        } else {
            timeout_in_secs
        };
        let approvers = build_approvers(account, sender);
        let now = match self.current_time {
            Some(t) => t,
            None => wall_clock_secs(),
        };
        let timeout = if now > u64::MAX - timeout_in_secs {
            u64::MAX
        } else {
            now + timeout_in_secs
        };
        proof {
            assert(timeout == deadline(now, lifetime));
        }
        let tid = self.new_transaction_id();
        let token = tid.0;
        let record = PendingMultisig {
            account: account_id,
            memo: arg.memo,
            transaction: arg.transaction,
            submitter: sender.duplicate(),
            approvers,
            threshold,
            execute_automatically,
            timeout,
        };
        let bytes = encode_pending(&record);
        let key = multisig_key_bytes(&token);
        let ghost m0 = self.store_view();
        proof {
            lemma_record_keys(Seq::empty(), token@);
            lemma_record_write_keeps_balances(m0, multisig_key(token@), pending_cbor(record));
        }
        self.put_record(key, bytes);
        let ghost s0 = self.multisig@;
        match self.find_pending(&token) {
            Some(i) => {
                self.multisig.set(i, (crate::store::clone_bytes(&token), record));
                proof {
                    lemma_pending_update(s0, i as int, self.multisig@[i as int]);
                    assert(self.multisig@ == s0.update(i as int, self.multisig@[i as int]));
                }
            },
            None => {
                self.multisig.push((crate::store::clone_bytes(&token), record));
                proof {
                    let u = self.multisig@;
                    let last = u.len() - 1;
                    assert forall|a: int, b: int| 0 <= a < b < u.len() implies #[trigger] u[a].0@ != #[trigger] u[b].0@ by {
                        if b == last {
                            assert(u[a] == s0[a]);
                        } else {
                            assert(u[a] == s0[a]);
                            assert(u[b] == s0[b]);
                        }
                    }
                    lemma_pending_in_at(u, last);
                    assert forall|t: Seq<u8>| t != token@ implies #[trigger] pending_in(u, t) == pending_in(s0, t) by {
                        if exists|k: int| 0 <= k < s0.len() && #[trigger] s0[k].0@ == t {
                            let k = choose|k: int| 0 <= k < s0.len() && #[trigger] s0[k].0@ == t;
                            lemma_pending_in_at(s0, k);
                            assert(u[k] == s0[k]);
                            lemma_pending_in_at(u, k);
                        } else {
                            assert forall|k: int| 0 <= k < u.len() implies #[trigger] u[k].0@ != t by {
                                if k < last {
                                    assert(u[k] == s0[k]);
                                }
                            }
                        }
                    }
                }
            },
        }
        proof {
            assert(self.multisig_at(token@).unwrap().timeout == deadline(now, lifetime));
            assert(deadline_reachable(deadline(now, lifetime), lifetime));
        }
        Ok(token)
    }

    /// Looks a pending multisig transaction up by its token.
    pub fn get_multisig_info(&self, token: &Vec<u8>) -> (r: Result<&PendingMultisig, LedgerError>)
        requires
            self.wf(),
        ensures
            self.multisig_at(token@) is None ==> r == Err::<&PendingMultisig, LedgerError>(
                LedgerError::TransactionCannotBeFound,
            ),
            r matches Ok(p) ==> self.multisig_at(token@) == Some(*p),
            self.multisig_at(token@) is Some ==> r is Ok,
    {
        match self.find_pending(token) {
            Some(i) => Ok(&self.multisig[i].1),
            None => Err(LedgerError::TransactionCannotBeFound),
        }
    }

    /// The checks shared by approve and revoke, then the update of the
    /// sender's approval to `v`. Returns the position of the record.
    fn update_approval(&mut self, sender: &Identity, token: &Vec<u8>, v: bool) -> (r: Result<usize, LedgerError>)
        requires
            old(self).wf(),
        ensures
            final(self).wf(),
            final(self).accounts_spec() == old(self).accounts_spec(),
            final(self).transaction_count() == old(self).transaction_count(),
            final(self).ids_left() == old(self).ids_left(),
            forall|x: Seq<u8>, s: Seq<u8>| #[trigger] final(self).balance(x, s) == old(self).balance(x, s),
            r is Err ==> final(self).store_view() == old(self).store_view(),
            final(self).latest_tid_value() == old(self).latest_tid_value(),
            approval_checks(old(self), sender@, token@) matches Err(e) ==> r == Err::<usize, LedgerError>(e)
                && final(self).pending_multisig() == old(self).pending_multisig(),
            approval_checks(old(self), sender@, token@) is Ok ==> r is Ok,
            r matches Ok(i) ==> i < final(self).pending_multisig().len()
                && final(self).pending_multisig()[i as int].0@ == token@
                && final(self).multisig_at(token@) == Some(final(self).pending_multisig()[i as int].1)
                && approval_updated(old(self).multisig_at(token@).unwrap(), final(self).pending_multisig()[i as int].1, sender@, v)
                && final(self).store_view() == old(self).store_view().insert(
                multisig_key(token@),
                pending_cbor(final(self).pending_multisig()[i as int].1),
            ),
            forall|t: Seq<u8>| t != token@ ==> #[trigger] final(self).multisig_at(t) == old(self).multisig_at(t),
    {
        let i = match self.find_pending(token) {
            Some(i) => i,
            None => return Err(LedgerError::TransactionCannotBeFound),
        };
        let a = match self.find_account(&self.multisig[i].1.account) {
            Some(a) => a,
            None => return Err(LedgerError::UnknownAccount),
        };
        if !has_role(&self.accounts[a].1, sender, Role::CanMultisigApprove) {
            return Err(LedgerError::UserNeedsRole(Role::CanMultisigApprove));
        }
        if !find_approver(&self.multisig[i].1.approvers, sender) {
            return Err(LedgerError::UserCannotApproveTransaction);
        }
        let ghost s0 = self.multisig@;
        let (tok, mut record) = self.multisig.remove(i);
        let _ = set_approval(&mut record.approvers, sender, v);
        self.multisig.insert(i, (tok, record));
        proof {
            assert(self.multisig@ =~= s0.update(i as int, self.multisig@[i as int]));
            lemma_pending_update(s0, i as int, self.multisig@[i as int]);
        }
        let bytes = encode_pending(&self.multisig[i].1);
        let ghost m0 = self.store_view();
        proof {
            lemma_record_keys(Seq::empty(), token@);
            lemma_record_write_keeps_balances(m0, multisig_key(token@), pending_cbor(self.multisig@[i as int].1));
        }
        self.put_record(multisig_key_bytes(token), bytes);
        Ok(i)
    }

    /// Approves a pending multisig transaction for `sender`. When the record
    /// executes automatically and now has enough approvals, it is executed;
    /// the result says whether it was.
    pub fn approve_multisig(&mut self, sender: &Identity, token: &Vec<u8>) -> (r: Result<bool, LedgerError>)
        requires
            old(self).wf(),
        ensures
            final(self).wf(),
            final(self).accounts_spec() == old(self).accounts_spec(),
            approval_checks(old(self), sender@, token@) matches Err(e) ==> r == Err::<bool, LedgerError>(e)
                && final(self).pending_multisig() == old(self).pending_multisig()
                && final(self).store_view() == old(self).store_view(),
            approval_checks(old(self), sender@, token@) is Ok ==> {
                let p = old(self).multisig_at(token@).unwrap();
                let n = approved_count_with(p.approvers@, sender@, true);
                &&& p.execute_automatically && n >= p.threshold ==> {
                    &&& final(self).multisig_at(token@) is None
                    &&& r is Ok ==> r == Ok::<bool, LedgerError>(true)
                    &&& final(self).transfer_done(old(self), p.transaction, r is Ok)
                    &&& (r is Ok <==> run_result(old(self), p.transaction) is Ok)
                    &&& (run_result(old(self), p.transaction) matches Err(e) ==> r == Err::<bool, LedgerError>(e))
                }
                &&& !(p.execute_automatically && n >= p.threshold) ==> {
                    &&& r == Ok::<bool, LedgerError>(false)
                    &&& (final(self).multisig_at(token@) matches Some(q) && approval_updated(p, q, sender@, true)
                        && final(self).store_view() == old(self).store_view().insert(multisig_key(token@), pending_cbor(q)))
                }
            },
            forall|t: Seq<u8>| t != token@ ==> #[trigger] final(self).multisig_at(t) == old(self).multisig_at(t),
    {
        let ghost before = *self;
        let i = match self.update_approval(sender, token, true) {
            Ok(i) => i,
            Err(e) => return Err(e),
        };
        let count = count_approved(&self.multisig[i].1.approvers);
        proof {
            let p = before.multisig_at(token@).unwrap();
            let q = self.multisig@[i as int].1;
            lemma_approved_count_with(p.approvers@, q.approvers@, sender@, true);
        }
        if self.multisig[i].1.execute_automatically && count >= self.multisig[i].1.threshold {
            match self.execute_internal(i) {
                Ok(_) => Ok(true),
                Err(e) => Err(e),
            }
        } else {
            Ok(false)
        }
    }

    /// Withdraws the approval of `sender` from a pending multisig transaction.
    pub fn revoke_multisig(&mut self, sender: &Identity, token: &Vec<u8>) -> (r: Result<(), LedgerError>)
        requires
            old(self).wf(),
        ensures
            final(self).wf(),
            final(self).accounts_spec() == old(self).accounts_spec(),
            forall|x: Seq<u8>, s: Seq<u8>| #[trigger] final(self).balance(x, s) == old(self).balance(x, s),
            r is Err ==> final(self).store_view() == old(self).store_view(),
            approval_checks(old(self), sender@, token@) matches Err(e) ==> r == Err::<(), LedgerError>(e)
                && final(self).pending_multisig() == old(self).pending_multisig(),
            approval_checks(old(self), sender@, token@) is Ok ==> r is Ok && (final(self).multisig_at(token@) matches Some(q)
                && approval_updated(old(self).multisig_at(token@).unwrap(), q, sender@, false)
                && final(self).store_view() == old(self).store_view().insert(multisig_key(token@), pending_cbor(q))),
            forall|t: Seq<u8>| t != token@ ==> #[trigger] final(self).multisig_at(t) == old(self).multisig_at(t),
    {
        match self.update_approval(sender, token, false) {
            Ok(_) => Ok(()),
            Err(e) => Err(e),
        }
    }

    /// Executes a pending multisig transaction that has enough approvals.
    /// Only an owner of the account or the submitter may.
    pub fn execute_multisig(&mut self, sender: &Identity, token: &Vec<u8>) -> (r: Result<Identity, LedgerError>)
        requires
            old(self).wf(),
        ensures
            final(self).wf(),
            final(self).accounts_spec() == old(self).accounts_spec(),
            execute_checks(old(self), sender@, token@) matches Err(e) ==> r == Err::<Identity, LedgerError>(e)
                && final(self).pending_multisig() == old(self).pending_multisig()
                && final(self).store_view() == old(self).store_view(),
            execute_checks(old(self), sender@, token@) is Ok ==> final(self).multisig_at(token@) is None
                && final(self).transfer_outcome(old(self), old(self).multisig_at(token@).unwrap().transaction, r),
            forall|t: Seq<u8>| t != token@ ==> #[trigger] final(self).multisig_at(t) == old(self).multisig_at(t),
    {
        let i = match self.find_pending(token) {
            Some(i) => i,
            None => return Err(LedgerError::TransactionCannotBeFound),
        };
        let a = match self.find_account(&self.multisig[i].1.account) {
            Some(a) => a,
            None => return Err(LedgerError::UnknownAccount),
        };
        if !has_role(&self.accounts[a].1, sender, Role::Owner) && !sender.same_as(&self.multisig[i].1.submitter) {
            return Err(LedgerError::UserNeedsRole(Role::CanMultisigApprove));
        }
        if count_approved(&self.multisig[i].1.approvers) < self.multisig[i].1.threshold {
            return Err(LedgerError::CannotExecuteTransaction);
        }
        self.execute_internal(i)
    }

    /// Withdraws a pending multisig transaction. Only an owner of the account
    /// or the submitter may.
    pub fn withdraw_multisig(&mut self, sender: &Identity, token: &Vec<u8>) -> (r: Result<(), LedgerError>)
        requires
            old(self).wf(),
        ensures
            final(self).wf(),
            final(self).accounts_spec() == old(self).accounts_spec(),
            forall|x: Seq<u8>, s: Seq<u8>| #[trigger] final(self).balance(x, s) == old(self).balance(x, s),
            r is Err ==> final(self).store_view() == old(self).store_view(),
            withdraw_checks(old(self), sender@, token@) matches Err(e) ==> r == Err::<(), LedgerError>(e)
                && final(self).pending_multisig() == old(self).pending_multisig(),
            withdraw_checks(old(self), sender@, token@) is Ok ==> r is Ok && final(self).multisig_at(token@) is None
                && final(self).store_view() == old(self).store_view().remove(multisig_key(token@)),
            forall|t: Seq<u8>| t != token@ ==> #[trigger] final(self).multisig_at(t) == old(self).multisig_at(t),
    {
        let i = match self.find_pending(token) {
            Some(i) => i,
            None => return Err(LedgerError::TransactionCannotBeFound),
        };
        let a = match self.find_account(&self.multisig[i].1.account) {
            Some(a) => a,
            None => return Err(LedgerError::UnknownAccount),
        };
        if !has_role(&self.accounts[a].1, sender, Role::Owner) && !sender.same_as(&self.multisig[i].1.submitter) {
            return Err(LedgerError::UserNeedsRole(Role::Owner));
        }
        let ghost s0 = self.multisig@;
        let ghost m0 = self.store_view();
        proof {
            lemma_record_keys(Seq::empty(), token@);
            lemma_record_write_keeps_balances(m0, multisig_key(token@), Seq::empty());
        }
        self.delete_record(multisig_key_bytes(token));
        let _ = self.multisig.remove(i);
        proof {
            lemma_pending_remove(s0, i as int);
        }
        Ok(())
    }

    /// Sets the multisig defaults of an account; only an owner may. Values
    /// given replace the account's, values left out keep them.
    pub fn multisig_set_defaults(
        &mut self,
        sender: &Identity,
        account_id: &Identity,
        threshold: Option<u64>,
        timeout_in_secs: Option<u64>,
        execute_automatically: Option<bool>,
    ) -> (r: Result<(), LedgerError>)
        requires
            old(self).wf(),
        ensures
            final(self).wf(),
            final(self).pending_multisig() == old(self).pending_multisig(),
            forall|x: Seq<u8>, s: Seq<u8>| #[trigger] final(self).balance(x, s) == old(self).balance(x, s),
            r is Err ==> final(self).store_view() == old(self).store_view(),
            old(self).account(account_id@) is None ==> r == Err::<(), LedgerError>(LedgerError::UnknownAccount)
                && final(self).accounts_spec() == old(self).accounts_spec(),
            old(self).account(account_id@) matches Some(a) && !account_has_role(a, sender@, Role::Owner)
                ==> r == Err::<(), LedgerError>(LedgerError::UserNeedsRole(Role::Owner))
                && final(self).accounts_spec() == old(self).accounts_spec(),
            ({
                let a = old(self).account(account_id@).unwrap();
                old(self).account(account_id@) is Some && account_has_role(a, sender@, Role::Owner) ==> {
                &&& r is Ok
                &&& final(self).account(account_id@) matches Some(b) && b.roles == a.roles
                    && final(self).store_view() == old(self).store_view().insert(account_key(account_id@), account_cbor(b)) && (
                multisig_feature_of(b) matches Some(f) && f.threshold == (match threshold {
                    Some(v) => Some(v),
                    None => match multisig_feature_of(a) {
                        Some(g) => g.threshold,
                        None => None,
                    },
                }) && f.timeout_in_secs == (match timeout_in_secs {
                    Some(v) => Some(v),
                    None => match multisig_feature_of(a) {
                        Some(g) => g.timeout_in_secs,
                        None => None,
                    },
                }) && f.execute_automatically == (match execute_automatically {
                    Some(v) => Some(v),
                    None => match multisig_feature_of(a) {
                        Some(g) => g.execute_automatically,
                        None => None,
                    },
                }))
                &&& forall|x: Seq<u8>| x != account_id@ ==> #[trigger] final(self).account(x) == old(self).account(x)
            }
            }),
    {
        let i = match self.find_account(account_id) {
            Some(i) => i,
            None => return Err(LedgerError::UnknownAccount),
        };
        if !has_role(&self.accounts[i].1, sender, Role::Owner) {
            return Err(LedgerError::UserNeedsRole(Role::Owner));
        }
        let (old_threshold, old_timeout, old_auto) = match multisig_feature(&self.accounts[i].1) {
            Some(f) => (f.threshold, f.timeout_in_secs, f.execute_automatically),
            None => (None, None, None),
        };
        let feature = MultisigFeature {
            threshold: match threshold {
                Some(v) => Some(v),
                None => old_threshold,
            },
            timeout_in_secs: match timeout_in_secs {
                Some(v) => Some(v),
                None => old_timeout,
            },
            execute_automatically: match execute_automatically {
                Some(v) => Some(v),
                None => old_auto,
            },
        };
        let ghost old_accounts = self.accounts@;
        let (key, mut account) = self.accounts.remove(i);
        account.features = vec![AccountFeature::Multisig(feature)];
        self.accounts.insert(i, (key, account));
        proof {
            let s = self.accounts@;
            assert(s =~= old_accounts.update(i as int, s[i as int]));
            assert forall|j: int| 0 <= j < s.len() implies allocated_id(self.identity@, self.next_account_id, #[trigger] s[j].0@) by {
                assert(s[j].0@ == old_accounts[j].0@);
            }
            assert forall|a: int, b: int| 0 <= a < b < s.len() implies #[trigger] s[a].0@ != #[trigger] s[b].0@ by {
                assert(s[a].0@ == old_accounts[a].0@);
                assert(s[b].0@ == old_accounts[b].0@);
            }
            lemma_account_in_at(s, i as int);
            assert forall|x: Seq<u8>| x != account_id@ implies #[trigger] account_in(s, x) == account_in(old_accounts, x) by {
                if exists|k: int| 0 <= k < old_accounts.len() && #[trigger] old_accounts[k].0@ == x {
                    let k = choose|k: int| 0 <= k < old_accounts.len() && #[trigger] old_accounts[k].0@ == x;
                    lemma_account_in_at(old_accounts, k);
                    assert(s[k] == old_accounts[k]);
                    lemma_account_in_at(s, k);
                } else {
                    assert forall|k: int| 0 <= k < s.len() implies #[trigger] s[k].0@ != x by {
                        assert(s[k].0@ == old_accounts[k].0@);
                    }
                }
            }
        }
        let record = encode_account(&self.accounts[i].1);
        let ghost m0 = self.store_view();
        proof {
            lemma_record_keys(account_id@, Seq::empty());
            lemma_record_write_keeps_balances(m0, account_key(account_id@), account_cbor(self.accounts@[i as int].1));
        }
        self.put_record(account_key_bytes(account_id), record);
        Ok(())
    }

    pub closed spec fn minters_spec(&self) -> Seq<(Symbol, Vec<Identity>)> {
        self.minters@
    }

    /// Sets who may mint each symbol, and stores it under `/config/minters`.
    pub fn set_minters(&mut self, minters: Vec<(Symbol, Vec<Identity>)>)
        requires
            old(self).wf(),
        ensures
            final(self).wf(),
            final(self).minters_spec() == minters@,
            final(self).store_view() == old(self).store_view().insert(minters_key(), minters_cbor(minters@)),
            forall|x: Seq<u8>, s: Seq<u8>| #[trigger] final(self).balance(x, s) == old(self).balance(x, s),
            final(self).height() == old(self).height(),
            final(self).transaction_count() == old(self).transaction_count(),
            final(self).latest_tid_value() == old(self).latest_tid_value(),
            final(self).accounts_spec() == old(self).accounts_spec(),
            final(self).pending_multisig() == old(self).pending_multisig(),
    {
        let bytes = encode_minters(&minters);
        let ghost m0 = self.store_view();
        proof {
            lemma_record_keys(Seq::empty(), Seq::empty());
            lemma_record_write_keeps_balances(m0, minters_key(), minters_cbor(minters@));
        }
        self.put_record(minters_key_bytes(), bytes);
        self.minters = minters;
    }

    /// Whether `id` may mint `symbol`.
    pub fn can_mint(&self, id: &Identity, symbol: &Symbol) -> (r: bool)
        ensures
            r <==> exists|i: int, j: int|
                #![trigger self.minters_spec()[i].1@[j]]
                0 <= i < self.minters_spec().len() && self.minters_spec()[i].0@ == symbol@ && 0 <= j
                    < self.minters_spec()[i].1@.len() && self.minters_spec()[i].1@[j]@ == id@,
    {
        let mut i: usize = 0;
        while i < self.minters.len()
            invariant
                i <= self.minters@.len(),
                forall|a: int, j: int|
                    #![trigger self.minters@[a].1@[j]]
                    0 <= a < i && self.minters@[a].0@ == symbol@ && 0 <= j < self.minters@[a].1@.len()
                        ==> self.minters@[a].1@[j]@ != id@,
            decreases self.minters.len() - i,
        {
            if self.minters[i].0.same_as(symbol) {
                let list = &self.minters[i].1;
                let mut k: usize = 0;
                while k < list.len()
                    invariant
                        i < self.minters@.len(),
                        list@ == self.minters@[i as int].1@,
                        self.minters@[i as int].0@ == symbol@,
                        k <= list@.len(),
                        forall|j: int| #![trigger list@[j]] 0 <= j < k ==> list@[j]@ != id@,
                    decreases list.len() - k,
                {
                    if list[k].same_as(id) {
                        proof {
                            assert(self.minters@[i as int].1@[k as int]@ == id@);
                            assert(self.minters_spec()[i as int].1@[k as int]@ == id@);
                        }
                        return true;
                    }
                    k = k + 1;
                }
            }
            i = i + 1;
        }
        false
    }

    /// Creates `amount` of `symbol` for `to` and records it in the log.
    pub fn mint(&mut self, to: &Identity, symbol: &Symbol, amount: TokenAmount) -> (r: Result<(), LedgerError>)
        requires
            old(self).wf(),
        ensures
            final(self).wf(),
            final(self).accounts_spec() == old(self).accounts_spec(),
            final(self).pending_multisig() == old(self).pending_multisig(),
            amount == 0 ==> r is Ok && *final(self) == *old(self),
            amount != 0 && to@ == anonymous_bytes() ==> r == Err::<(), LedgerError>(
                LedgerError::AnonymousCannotHoldFunds,
            ) && *final(self) == *old(self),
            amount != 0 && to@ != anonymous_bytes() && (old(self).balance(to@, symbol@) + amount > u128::MAX
                || old(self).transaction_count() >= u64::MAX || !old(self).ids_left()) ==> r == Err::<(), LedgerError>(
                LedgerError::Unknown,
            ) && *final(self) == *old(self),
            amount != 0 && to@ != anonymous_bytes() && old(self).balance(to@, symbol@) + amount <= u128::MAX
                && old(self).transaction_count() < u64::MAX && old(self).ids_left() ==> {
                &&& r is Ok
                &&& final(self).balance(to@, symbol@) == old(self).balance(to@, symbol@) + amount
                &&& forall|x: Seq<u8>, s: Seq<u8>|
                    #![trigger final(self).balance(x, s)]
                    !(x == to@ && s == symbol@) ==> final(self).balance(x, s) == old(self).balance(x, s)
                &&& final(self).latest_tid_value() == old(self).latest_tid_value() + 1
                &&& !old(self).store_view().contains_key(transaction_key(final(self).latest_tid_bytes()))
                &&& final(self).transaction_count() == old(self).transaction_count() + 1
                &&& exists|t: u64|
                    (old(self).time_spec() matches Some(now) ==> t == now) && final(self).store_view()
                        == old(self).store_view().insert(
                        balance_key(to@, symbol@),
                        minimal_be((old(self).balance(to@, symbol@) + amount) as nat),
                    ).insert(
                        transaction_key(final(self).latest_tid_bytes()),
                        supply_record_cbor(1, final(self).latest_tid_bytes(), t, to@, symbol@, amount as nat),
                    ).insert(
                        transactions_count_key(),
                        be_bytes((old(self).transaction_count() + 1) as nat, 8),
                    )
            },
    {
        if amount == 0 {
            return Ok(());
        }
        if to.is_anonymous() {
            return Err(LedgerError::AnonymousCannotHoldFunds);
        }
        let balance = self.get_balance(to, symbol);
        let count = self.nb_transactions();
        if balance > u128::MAX - amount || count == u64::MAX || self.ids_in_block == u32::MAX {
            return Err(LedgerError::Unknown);
        }
        let new_balance = balance + amount;
        self.write_supply(to, symbol, new_balance, amount, true);
        Ok(())
    }

    /// Destroys `amount` of `symbol` held by `from` and records it in the log.
    pub fn burn(&mut self, from: &Identity, symbol: &Symbol, amount: TokenAmount) -> (r: Result<(), LedgerError>)
        requires
            old(self).wf(),
        ensures
            final(self).wf(),
            final(self).accounts_spec() == old(self).accounts_spec(),
            final(self).pending_multisig() == old(self).pending_multisig(),
            amount == 0 ==> r is Ok && *final(self) == *old(self),
            amount != 0 && from@ == anonymous_bytes() ==> r == Err::<(), LedgerError>(
                LedgerError::AnonymousCannotHoldFunds,
            ) && *final(self) == *old(self),
            amount != 0 && from@ != anonymous_bytes() && amount > old(self).balance(from@, symbol@)
                ==> r == Err::<(), LedgerError>(LedgerError::InsufficientFunds) && *final(self) == *old(self),
            amount != 0 && from@ != anonymous_bytes() && amount <= old(self).balance(from@, symbol@)
                && (old(self).transaction_count() >= u64::MAX || !old(self).ids_left()) ==> r == Err::<(), LedgerError>(
                LedgerError::Unknown,
            ) && *final(self) == *old(self),
            amount != 0 && from@ != anonymous_bytes() && amount <= old(self).balance(from@, symbol@)
                && old(self).transaction_count() < u64::MAX && old(self).ids_left() ==> {
                &&& r is Ok
                &&& final(self).balance(from@, symbol@) == old(self).balance(from@, symbol@) - amount
                &&& forall|x: Seq<u8>, s: Seq<u8>|
                    #![trigger final(self).balance(x, s)]
                    !(x == from@ && s == symbol@) ==> final(self).balance(x, s) == old(self).balance(x, s)
                &&& final(self).latest_tid_value() == old(self).latest_tid_value() + 1
                &&& !old(self).store_view().contains_key(transaction_key(final(self).latest_tid_bytes()))
                &&& final(self).transaction_count() == old(self).transaction_count() + 1
                &&& exists|t: u64|
                    (old(self).time_spec() matches Some(now) ==> t == now) && final(self).store_view()
                        == old(self).store_view().insert(
                        balance_key(from@, symbol@),
                        minimal_be((old(self).balance(from@, symbol@) - amount) as nat),
                    ).insert(
                        transaction_key(final(self).latest_tid_bytes()),
                        supply_record_cbor(2, final(self).latest_tid_bytes(), t, from@, symbol@, amount as nat),
                    ).insert(
                        transactions_count_key(),
                        be_bytes((old(self).transaction_count() + 1) as nat, 8),
                    )
            },
    {
        if amount == 0 {
            return Ok(());
        }
        if from.is_anonymous() {
            return Err(LedgerError::AnonymousCannotHoldFunds);
        }
        let balance = self.get_balance(from, symbol);
        if amount > balance {
            return Err(LedgerError::InsufficientFunds);
        }
        let count = self.nb_transactions();
        if count == u64::MAX || self.ids_in_block == u32::MAX {
            return Err(LedgerError::Unknown);
        }
        self.write_supply(from, symbol, balance - amount, amount, false);
        Ok(())
    }

    /// Writes a new balance of `account` and logs the mint (or burn) of `amount`.
    fn write_supply(&mut self, account: &Identity, symbol: &Symbol, new_balance: u128, amount: u128, minted: bool)
        requires
            old(self).wf(),
            account@ != anonymous_bytes(),
            old(self).transaction_count() < u64::MAX,
            old(self).ids_left(),
        ensures
            final(self).wf(),
            final(self).accounts_spec() == old(self).accounts_spec(),
            final(self).pending_multisig() == old(self).pending_multisig(),
            final(self).balance(account@, symbol@) == new_balance,
            forall|x: Seq<u8>, s: Seq<u8>|
                #![trigger final(self).balance(x, s)]
                !(x == account@ && s == symbol@) ==> final(self).balance(x, s) == old(self).balance(x, s),
            final(self).latest_tid_value() == old(self).latest_tid_value() + 1,
            !old(self).store_view().contains_key(transaction_key(final(self).latest_tid_bytes())),
            final(self).transaction_count() == old(self).transaction_count() + 1,
            exists|t: u64|
                (old(self).time_spec() matches Some(now) ==> t == now) && final(self).store_view()
                    == old(self).store_view().insert(
                    balance_key(account@, symbol@),
                    minimal_be(new_balance as nat),
                ).insert(
                    transaction_key(final(self).latest_tid_bytes()),
                    supply_record_cbor(supply_kind(minted), final(self).latest_tid_bytes(), t, account@, symbol@, amount as nat),
                ).insert(
                    transactions_count_key(),
                    be_bytes((old(self).transaction_count() + 1) as nat, 8),
                ),
    {
        let count = self.nb_transactions();
        let ghost m0 = self.store_view();
        let key = key_for_account(account, symbol);
        let ghost kv = key@;
        let value = amount_to_bytes(new_balance);
        let ghost vv = value@;
        let batch = vec![BatchEntry { key, op: Op::Put(value) }];
        proof {
            let bv = batch_view(batch@);
            reveal_with_fuel(apply_writes, 2);
            assert(bv.drop_last() =~= Seq::<(Seq<u8>, Option<Seq<u8>>)>::empty());
            assert(apply_writes(m0, bv) == m0.insert(kv, vv));
        }
        self.apply_batch(batch);
        let ghost m1 = self.store_view();
        proof {
            lemma_key_families(account@, symbol@, Seq::empty());
            lemma_log_kept(m0, kv, Some(vv));
            assert forall|k: Seq<u8>| #[trigger] m1.contains_key(k) && is_balance_key(k) implies m1[k].len() <= 16 by {
                if k != kv {
                    assert(m0.contains_key(k));
                }
            }
        }
        let id = self.new_transaction_id();
        let time = match self.current_time {
            Some(t) => t,
            None => wall_clock_secs(),
        };
        let ghost tid = id.0@;
        proof {
            lemma_key_families(Seq::empty(), Seq::empty(), tid);
            assert(!m0.contains_key(transaction_key(tid))) by {
                if m0.contains_key(transaction_key(tid)) {
                    assert(self.store_view().contains_key(transaction_key(tid)));
                }
            }
        }
        let content = if minted {
            TransactionInfo::Mint { account: account.duplicate(), symbol: symbol.duplicate(), amount }
        } else {
            TransactionInfo::Burn { account: account.duplicate(), symbol: symbol.duplicate(), amount }
        };
        let transaction = Transaction { id, time, content };
        proof {
            assert(crate::transaction::transaction_cbor(transaction) =~= supply_record_cbor(
                supply_kind(minted),
                tid,
                time,
                account@,
                symbol@,
                amount as nat,
            ));
        }
        self.add_transaction(transaction);
        proof {
            let m = self.store_view();
            lemma_key_families(account@, symbol@, tid);
            crate::codec::lemma_minimal_be(new_balance as nat);
            assert(pow256(8) == 0x1_0000_0000_0000_0000) by {
                reveal_with_fuel(pow256, 9);
            }
            crate::bytes::lemma_be_bytes_value((count + 1) as nat, 8);
            assert forall|x: Seq<u8>, s: Seq<u8>|
                !(x == account@ && s == symbol@) implies #[trigger] balance_in(m, x, s) == balance_in(m0, x, s) by {
                lemma_key_families(x, s, tid);
                if balance_key(x, s) == balance_key(account@, symbol@) {
                    lemma_balance_key_unique(x, s, account@, symbol@);
                }
            }
            assert(balance_in(m, account@, symbol@) == new_balance);
            assert(tid == self.latest_tid_bytes());
            assert(m == m0.insert(balance_key(account@, symbol@), minimal_be(new_balance as nat)).insert(
                transaction_key(tid),
                supply_record_cbor(supply_kind(minted), tid, time, account@, symbol@, amount as nat),
            ).insert(transactions_count_key(), be_bytes((count + 1) as nat, 8)));
        }
    }

    /// The root hash recorded since writes were last handed out, or empty when
    /// none was (the durable store's root then holds).
    pub fn hash(&self) -> (r: Vec<u8>)
        ensures
            self.hash_spec() matches Some(h) ==> r@ == h,
            self.hash_spec() is None ==> r@ == Seq::<u8>::empty(),
    {
        match &self.current_hash {
            Some(h) => crate::store::clone_bytes(h),
            None => Vec::new(),
        }
    }
}

} // verus!

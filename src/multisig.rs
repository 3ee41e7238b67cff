use vstd::prelude::*;

use crate::identity::Identity;
use crate::storage::LedgerError;
use crate::codec::{cbor_bytes, cbor_head, push_cbor_bytes, push_cbor_head};
use crate::transaction::{content_cbor, push_content, TransactionInfo};

verus! {

/// Roles an identity can hold on an account.
#[derive(PartialEq, Eq, Structural, Debug, Clone, Copy)]
pub enum Role {
    Owner,
    CanMultisigSubmit,
    CanMultisigApprove,
}

/// Default threshold of a multisig transaction.
pub const MULTISIG_DEFAULT_THRESHOLD: u64 = 1;

/// Default lifetime of a multisig transaction, in seconds.
pub const MULTISIG_DEFAULT_TIMEOUT_IN_SECS: u64 = 86_400;

/// Longest lifetime of a multisig transaction, in seconds (185 days).
pub const MULTISIG_MAXIMUM_TIMEOUT_IN_SECS: u64 = 15_984_000;

/// Whether a multisig transaction runs as soon as it has enough approvals, by default.
pub const MULTISIG_DEFAULT_EXECUTE_AUTOMATICALLY: bool = false;

/// The multisig defaults of an account; a missing value falls back to the
/// engine's default.
pub struct MultisigFeature {
    pub threshold: Option<u64>,
    pub timeout_in_secs: Option<u64>,
    pub execute_automatically: Option<bool>,
}

/// The features an account can carry.
pub enum AccountFeature {
    Multisig(MultisigFeature),
}

/// An account: the roles of each identity on it, and its features.
pub struct Account {
    pub roles: Vec<(Identity, Vec<Role>)>,
    pub features: Vec<AccountFeature>,
}

/// One approver of a pending multisig transaction.
pub struct ApproverInfo {
    pub identity: Identity,
    pub approved: bool,
}

/// A multisig transaction waiting for approvals.
pub struct PendingMultisig {
    pub account: Identity,
    pub memo: Option<String>,
    pub transaction: TransactionInfo,
    pub submitter: Identity,
    pub approvers: Vec<ApproverInfo>,
    pub threshold: u64,
    pub execute_automatically: bool,
    /// Seconds since the Unix epoch after which the transaction has expired.
    pub timeout: u64,
}

/// What a caller asks for when submitting a multisig transaction.
pub struct SubmitTransactionArgs {
    pub account: Option<Identity>,
    pub memo: Option<String>,
    pub transaction: TransactionInfo,
    pub threshold: Option<u64>,
    pub timeout_in_secs: Option<u64>,
    pub execute_automatically: Option<bool>,
}

/// Whether `roles` lists `role`.
pub open spec fn roles_hold(roles: Seq<Role>, role: Role) -> bool {
    exists|i: int| 0 <= i < roles.len() && roles[i] == role
}

/// Whether the account gives `id` the role `role`.
pub open spec fn account_has_role(a: Account, id: Seq<u8>, role: Role) -> bool {
    exists|i: int|
        0 <= i < a.roles@.len() && #[trigger] a.roles@[i].0@ == id && roles_hold(a.roles@[i].1@, role)
}

/// The multisig defaults that the account carries, if any.
pub open spec fn multisig_feature_of(a: Account) -> Option<MultisigFeature> {
    first_multisig(a.features@)
}

/// The first feature, when there is one: the multisig defaults.
pub open spec fn first_multisig(f: Seq<AccountFeature>) -> Option<MultisigFeature> {
    if f.len() == 0 {
        None
    } else {
        match f[0] {
            AccountFeature::Multisig(m) => Some(m),
        }
    }
}

/// How many approvers have approved.
pub open spec fn approved_count(a: Seq<ApproverInfo>) -> nat
    decreases a.len(),
{
    if a.len() == 0 {
        0
    } else {
        approved_count(a.drop_last()) + if a.last().approved {
            1nat
        } else {
            0nat
        }
    }
}

/// Whether `id` is among the approvers.
pub open spec fn is_approver(a: Seq<ApproverInfo>, id: Seq<u8>) -> bool {
    exists|i: int| 0 <= i < a.len() && #[trigger] a[i].identity@ == id
}

/// Whether the account gives `id` the role `role`.
pub fn has_role(account: &Account, id: &Identity, role: Role) -> (r: bool)
    ensures
        r <==> account_has_role(*account, id@, role),
{
    let mut i: usize = 0;
    while i < account.roles.len()
        invariant
            i <= account.roles@.len(),
            forall|j: int|
                0 <= j < i && #[trigger] account.roles@[j].0@ == id@ ==> !roles_hold(account.roles@[j].1@, role),
        decreases account.roles.len() - i,
    {
        if account.roles[i].0.same_as(id) {
            let roles = &account.roles[i].1;
            let mut k: usize = 0;
            while k < roles.len()
                invariant
                    i < account.roles@.len(),
                    account.roles@[i as int].0@ == id@,
                    k <= roles@.len(),
                    roles@ == account.roles@[i as int].1@,
                    forall|j: int| 0 <= j < k ==> roles@[j] != role,
                decreases roles.len() - k,
            {
                if roles[k] == role {
                    proof {
                        assert(roles_hold(account.roles@[i as int].1@, role));
                    }
                    return true;
                }
                k = k + 1;
            }
        }
        i = i + 1;
    }
    false
}

/// The multisig defaults that the account carries, if any.
pub fn multisig_feature(account: &Account) -> (r: Option<&MultisigFeature>)
    ensures
        match multisig_feature_of(*account) {
            Some(m) => r == Some(&m),
            None => r is None,
        },
{
    if account.features.len() == 0 {
        None
    } else {
        match &account.features[0] {
            AccountFeature::Multisig(m) => Some(m),
        }
    }
}

/// One policy value of a submission: a value the caller gives needs the owner
/// role; otherwise the account's default, otherwise the engine's.
pub open spec fn resolve_spec<T>(is_owner: bool, given: Option<T>, account_default: Option<T>, engine_default: T) -> Result<T, LedgerError> {
    match given {
        Some(v) => if is_owner {
            Ok(v)
        } else {
            Err(LedgerError::UserNeedsRole(Role::Owner))
        },
        None => match account_default {
            Some(d) => Ok(d),
            None => Ok(engine_default),
        },
    }
}

pub fn resolve_u64(is_owner: bool, given: Option<u64>, account_default: Option<u64>, engine_default: u64) -> (r: Result<u64, LedgerError>)
    ensures
        r == resolve_spec(is_owner, given, account_default, engine_default),
{
    match given {
        Some(v) => if is_owner {
            Ok(v)
        } else {
            Err(LedgerError::UserNeedsRole(Role::Owner))
        },
        None => match account_default {
            Some(d) => Ok(d),
            None => Ok(engine_default),
        },
    }
}

pub fn resolve_bool(is_owner: bool, given: Option<bool>, account_default: Option<bool>, engine_default: bool) -> (r: Result<bool, LedgerError>)
    ensures
        r == resolve_spec(is_owner, given, account_default, engine_default),
{
    match given {
        Some(v) => if is_owner {
            Ok(v)
        } else {
            Err(LedgerError::UserNeedsRole(Role::Owner))
        },
        None => match account_default {
            Some(d) => Ok(d),
            None => Ok(engine_default),
        },
    }
}

/// Counts the approvals.
pub fn count_approved(approvers: &Vec<ApproverInfo>) -> (r: u64)
    ensures
        r as nat == approved_count(approvers@),
{
    let mut n: u64 = 0;
    let mut i: usize = 0;
    while i < approvers.len()
        invariant
            i <= approvers@.len(),
            n as nat == approved_count(approvers@.subrange(0, i as int)),
            n <= i,
        decreases approvers.len() - i,
    {
        proof {
            assert(approvers@.subrange(0, i + 1).drop_last() =~= approvers@.subrange(0, i as int));
        }
        if approvers[i].approved {
            n = n + 1;
        }
        i = i + 1;
    }
    proof {
        assert(approvers@.subrange(0, approvers@.len() as int) =~= approvers@);
    }
    n
}

/// Sets the approval of `id`; fails when `id` is not an approver.
pub fn set_approval(approvers: &mut Vec<ApproverInfo>, id: &Identity, approved: bool) -> (r: Result<(), LedgerError>)
    ensures
        r is Ok <==> is_approver(old(approvers)@, id@),
        r is Err ==> r == Err::<(), LedgerError>(LedgerError::UserCannotApproveTransaction) && final(approvers)@ == old(approvers)@,
        r is Ok ==> final(approvers)@.len() == old(approvers)@.len() && forall|j: int|
            #![trigger final(approvers)@[j]]
            0 <= j < old(approvers)@.len() ==> final(approvers)@[j].identity@ == old(approvers)@[j].identity@
                && (old(approvers)@[j].identity@ == id@ ==> final(approvers)@[j].approved == approved)
                && (old(approvers)@[j].identity@ != id@ ==> final(approvers)@[j].approved
                == old(approvers)@[j].approved),
{
    let mut found = false;
    let mut i: usize = 0;
    while i < approvers.len()
        invariant
            i <= approvers@.len(),
            approvers@.len() == old(approvers)@.len(),
            found <==> exists|j: int| 0 <= j < i && #[trigger] old(approvers)@[j].identity@ == id@,
            forall|j: int|
                #![trigger approvers@[j]]
                0 <= j < approvers@.len() ==> approvers@[j].identity@ == old(approvers)@[j].identity@
                    && (j < i && old(approvers)@[j].identity@ == id@ ==> approvers@[j].approved == approved)
                    && (!(j < i && old(approvers)@[j].identity@ == id@) ==> approvers@[j].approved
                    == old(approvers)@[j].approved),
            !found ==> approvers@ == old(approvers)@,
        decreases approvers.len() - i,
    {
        let ghost before = approvers@;
        if approvers[i].identity.same_as(id) {
            let entry = ApproverInfo { identity: approvers[i].identity.duplicate(), approved };
            let ghost ev = entry;
            assert(ev.identity@ == before[i as int].identity@);
            approvers.set(i, entry);
            found = true;
            proof {
                assert(approvers@ == before.update(i as int, ev));
                assert(approvers@[i as int].identity@ == old(approvers)@[i as int].identity@);
                assert(approvers@[i as int].approved == approved);
                assert(old(approvers)@[i as int].identity@ == id@);
                assert forall|j: int|
                    #![trigger approvers@[j]]
                    0 <= j < approvers@.len() implies approvers@[j].identity@
                    == old(approvers)@[j].identity@ && (j < i + 1 && old(approvers)@[j].identity@ == id@
                    ==> approvers@[j].approved == approved) && (!(j < i + 1 && old(approvers)@[j].identity@
                    == id@) ==> approvers@[j].approved == old(approvers)@[j].approved) by {
                    if j != i {
                        assert(approvers@[j] == before[j]);
                        assert(before[j].identity@ == old(approvers)@[j].identity@);
                    } else {
                        assert(approvers@[j].identity@ == old(approvers)@[j].identity@);
                        assert(approvers@[j].approved == approved);
                    }
                }
            }
        } else {
            proof {
                assert(old(approvers)@[i as int].identity@ != id@);
                assert forall|j: int|
                    #![trigger approvers@[j]]
                    0 <= j < approvers@.len() implies approvers@[j].identity@
                    == old(approvers)@[j].identity@ && (j < i + 1 && old(approvers)@[j].identity@ == id@
                    ==> approvers@[j].approved == approved) && (!(j < i + 1 && old(approvers)@[j].identity@
                    == id@) ==> approvers@[j].approved == old(approvers)@[j].approved) by {
                    assert(approvers@[j] == before[j]);
                }
                if found {
                    let w = choose|j: int| 0 <= j < i && #[trigger] old(approvers)@[j].identity@ == id@;
                    assert(0 <= w < i + 1);
                }
            }
        }
        i = i + 1;
    }
    if found {
        Ok(())
    } else {
        Err(LedgerError::UserCannotApproveTransaction)
    }
}

/// Whether `id` is among the approvers.
pub fn find_approver(approvers: &Vec<ApproverInfo>, id: &Identity) -> (r: bool)
    ensures
        r <==> is_approver(approvers@, id@),
{
    let mut i: usize = 0;
    while i < approvers.len()
        invariant
            i <= approvers@.len(),
            forall|j: int| 0 <= j < i ==> #[trigger] approvers@[j].identity@ != id@,
        decreases approvers.len() - i,
    {
        if approvers[i].identity.same_as(id) {
            return true;
        }
        i = i + 1;
    }
    false
}

/// The approver map of a new multisig transaction: every identity that the
/// account gives `canMultisigApprove`, not yet approved, and the submitter,
/// approved.
pub fn build_approvers(account: &Account, submitter: &Identity) -> (r: Vec<ApproverInfo>)
    ensures
        forall|x: Seq<u8>|
            #[trigger] is_approver(r@, x) <==> (account_has_role(*account, x, Role::CanMultisigApprove)
                || x == submitter@),
        forall|j: int| 0 <= j < r@.len() ==> (#[trigger] r@[j].approved <==> r@[j].identity@ == submitter@),
{
    let mut r: Vec<ApproverInfo> = Vec::new();
    r.push(ApproverInfo { identity: submitter.duplicate(), approved: true });
    let mut i: usize = 0;
    while i < account.roles.len()
        invariant
            i <= account.roles@.len(),
            r@.len() > 0,
            r@[0].identity@ == submitter@,
            forall|j: int| 0 <= j < r@.len() ==> (#[trigger] r@[j].approved <==> r@[j].identity@ == submitter@),
            forall|x: Seq<u8>|
                #[trigger] is_approver(r@, x) <==> (x == submitter@ || exists|k: int|
                    0 <= k < i && #[trigger] account.roles@[k].0@ == x && roles_hold(
                        account.roles@[k].1@,
                        Role::CanMultisigApprove,
                    )),
        decreases account.roles.len() - i,
    {
        let id = &account.roles[i].0;
        let ghost before = r@;
        if has_role_in(&account.roles[i].1, Role::CanMultisigApprove) && !find_approver(&r, id) {
            r.push(ApproverInfo { identity: id.duplicate(), approved: false });
            proof {
                if id@ == submitter@ {
                    assert(is_approver(before, submitter@)) by {
                        assert(before[0].identity@ == submitter@);
                    }
                }
            }
        }
        proof {
            assert forall|x: Seq<u8>|
                #[trigger] is_approver(r@, x) <==> (x == submitter@ || exists|k: int|
                    0 <= k < i + 1 && #[trigger] account.roles@[k].0@ == x && roles_hold(
                        account.roles@[k].1@,
                        Role::CanMultisigApprove,
                    )) by {
                if is_approver(r@, x) {
                    let j = choose|j: int| 0 <= j < r@.len() && #[trigger] r@[j].identity@ == x;
                    if j < before.len() {
                        assert(before[j] == r@[j]);
                        assert(is_approver(before, x));
                    } else {
                        assert(account.roles@[i as int].0@ == x);
                    }
                }
                if x == submitter@ {
                    assert(r@[0].identity@ == x);
                } else if exists|k: int|
                    0 <= k < i + 1 && #[trigger] account.roles@[k].0@ == x && roles_hold(
                        account.roles@[k].1@,
                        Role::CanMultisigApprove,
                    ) {
                    let k = choose|k: int|
                        0 <= k < i + 1 && #[trigger] account.roles@[k].0@ == x && roles_hold(
                            account.roles@[k].1@,
                            Role::CanMultisigApprove,
                        );
                    if k < i {
                        assert(is_approver(before, x));
                        let j = choose|j: int| 0 <= j < before.len() && #[trigger] before[j].identity@ == x;
                        assert(r@[j] == before[j]);
                    } else {
                        if is_approver(before, x) {
                            let j = choose|j: int| 0 <= j < before.len() && #[trigger] before[j].identity@ == x;
                            assert(r@[j] == before[j]);
                        } else {
                            assert(r@[before.len() as int].identity@ == x);
                        }
                    }
                }
            }
        }
        i = i + 1;
    }
    proof {
        assert forall|x: Seq<u8>|
            #[trigger] is_approver(r@, x) <==> (account_has_role(*account, x, Role::CanMultisigApprove)
                || x == submitter@) by {
            if account_has_role(*account, x, Role::CanMultisigApprove) {
                let k = choose|k: int|
                    0 <= k < account.roles@.len() && #[trigger] account.roles@[k].0@ == x && roles_hold(
                        account.roles@[k].1@,
                        Role::CanMultisigApprove,
                    );
                assert(account.roles@[k].0@ == x);
            }
        }
    }
    r
}

/// Whether a role list holds `role`.
fn has_role_in(roles: &Vec<Role>, role: Role) -> (r: bool)
    ensures
        r <==> roles_hold(roles@, role),
{
    let mut k: usize = 0;
    while k < roles.len()
        invariant
            k <= roles@.len(),
            forall|j: int| 0 <= j < k ==> roles@[j] != role,
        decreases roles.len() - k,
    {
        if roles[k] == role {
            return true;
        }
        k = k + 1;
    }
    false
}

/// How many approvers would have approved once `id` is set to `v`.
pub open spec fn approved_count_with(a: Seq<ApproverInfo>, id: Seq<u8>, v: bool) -> nat
    decreases a.len(),
{
    if a.len() == 0 {
        0
    } else {
        approved_count_with(a.drop_last(), id, v) + if (if a.last().identity@ == id {
            v
        } else {
            a.last().approved
        }) {
            1nat
        } else {
            0nat
        }
    }
}

/// Counting after an update of the approval of `id` to `v`.
pub proof fn lemma_approved_count_with(a: Seq<ApproverInfo>, b: Seq<ApproverInfo>, id: Seq<u8>, v: bool)
    requires
        a.len() == b.len(),
        forall|j: int|
            #![trigger b[j]]
            0 <= j < a.len() ==> b[j].identity@ == a[j].identity@ && (a[j].identity@ == id ==> b[j].approved == v)
                && (a[j].identity@ != id ==> b[j].approved == a[j].approved),
    ensures
        approved_count(b) == approved_count_with(a, id, v),
    decreases a.len(),
{
    if a.len() > 0 {
        let n = a.len() - 1;
        assert(b.drop_last().len() == a.drop_last().len());
        assert forall|j: int|
            #![trigger b.drop_last()[j]]
            0 <= j < a.drop_last().len() implies b.drop_last()[j].identity@ == a.drop_last()[j].identity@
                && (a.drop_last()[j].identity@ == id ==> b.drop_last()[j].approved == v)
                && (a.drop_last()[j].identity@ != id ==> b.drop_last()[j].approved == a.drop_last()[j].approved) by {
            assert(b.drop_last()[j] == b[j]);
            assert(a.drop_last()[j] == a[j]);
        }
        lemma_approved_count_with(a.drop_last(), b.drop_last(), id, v);
        assert(b[n].identity@ == a[n].identity@);
    }
}

/// The code of a role in stored accounts.
pub open spec fn role_code(r: Role) -> u64 {
    match r {
        Role::Owner => 0,
        Role::CanMultisigSubmit => 1,
        Role::CanMultisigApprove => 2,
    }
}

pub open spec fn role_list_cbor(rs: Seq<Role>) -> Seq<u8>
    decreases rs.len(),
{
    if rs.len() == 0 {
        Seq::empty()
    } else {
        role_list_cbor(rs.drop_last()) + cbor_head(0, role_code(rs.last()))
    }
}

pub open spec fn role_entries_cbor(s: Seq<(Identity, Vec<Role>)>) -> Seq<u8>
    decreases s.len(),
{
    if s.len() == 0 {
        Seq::empty()
    } else {
        role_entries_cbor(s.drop_last()) + cbor_bytes(s.last().0@) + cbor_head(4, s.last().1@.len() as u64)
            + role_list_cbor(s.last().1@)
    }
}

/// CBOR `null`, or the value.
pub open spec fn opt_u64_cbor(o: Option<u64>) -> Seq<u8> {
    match o {
        Some(v) => cbor_head(0, v),
        None => seq![0xf6u8],
    }
}

pub open spec fn bool_cbor(b: bool) -> Seq<u8> {
    if b {
        seq![0xf5u8]
    } else {
        seq![0xf4u8]
    }
}

pub open spec fn opt_bool_cbor(o: Option<bool>) -> Seq<u8> {
    match o {
        Some(v) => bool_cbor(v),
        None => seq![0xf6u8],
    }
}

/// A feature: an array of the feature id (0, multisig) and its payload.
pub open spec fn feature_cbor(f: AccountFeature) -> Seq<u8> {
    match f {
        AccountFeature::Multisig(m) => cbor_head(4, 4) + cbor_head(0, 0) + opt_u64_cbor(m.threshold)
            + opt_u64_cbor(m.timeout_in_secs) + opt_bool_cbor(m.execute_automatically),
    }
}

pub open spec fn feature_entries_cbor(s: Seq<AccountFeature>) -> Seq<u8>
    decreases s.len(),
{
    if s.len() == 0 {
        Seq::empty()
    } else {
        feature_entries_cbor(s.drop_last()) + feature_cbor(s.last())
    }
}

/// The stored form of an account: a CBOR map with field 0 the roles (a map
/// from identity to role codes) and field 1 the features.
pub open spec fn account_cbor(a: Account) -> Seq<u8> {
    cbor_head(5, 2) + cbor_head(0, 0) + cbor_head(5, a.roles@.len() as u64) + role_entries_cbor(a.roles@)
        + cbor_head(0, 1) + cbor_head(4, a.features@.len() as u64) + feature_entries_cbor(a.features@)
}

pub open spec fn approver_entries_cbor(s: Seq<ApproverInfo>) -> Seq<u8>
    decreases s.len(),
{
    if s.len() == 0 {
        Seq::empty()
    } else {
        approver_entries_cbor(s.drop_last()) + cbor_bytes(s.last().identity@) + bool_cbor(s.last().approved)
    }
}

pub open spec fn opt_text_cbor(o: Option<String>) -> Seq<u8> {
    match o {
        Some(t) => cbor_head(3, vstd::utf8::encode_utf8(t@).len() as u64) + vstd::utf8::encode_utf8(t@),
        None => seq![0xf6u8],
    }
}

/// The stored form of a pending multisig transaction: a CBOR map with
/// fields 0 account, 1 memo, 2 content, 3 submitter, 4 approvers (identity
/// to approval), 5 threshold, 6 automatic execution, 7 timeout.
pub open spec fn pending_cbor(p: PendingMultisig) -> Seq<u8> {
    cbor_head(5, 8) + cbor_head(0, 0) + cbor_bytes(p.account@) + cbor_head(0, 1) + opt_text_cbor(p.memo)
        + cbor_head(0, 2) + content_cbor(p.transaction) + cbor_head(0, 3) + cbor_bytes(p.submitter@)
        + cbor_head(0, 4) + cbor_head(5, p.approvers@.len() as u64) + approver_entries_cbor(p.approvers@)
        + cbor_head(0, 5) + cbor_head(0, p.threshold) + cbor_head(0, 6) + bool_cbor(p.execute_automatically)
        + cbor_head(0, 7) + cbor_head(0, p.timeout)
}

fn push_bytes(out: &mut Vec<u8>, b: &[u8])
    ensures
        final(out)@ == old(out)@ + b@,
{
    let ghost head = out@;
    let mut i: usize = 0;
    while i < b.len()
        invariant
            i <= b@.len(),
            out@ == head + b@.subrange(0, i as int),
        decreases b.len() - i,
    {
        out.push(b[i]);
        proof {
            assert(out@ =~= head + b@.subrange(0, i + 1));
        }
        i = i + 1;
    }
    proof {
        assert(b@.subrange(0, b@.len() as int) =~= b@);
    }
}

fn push_bool(out: &mut Vec<u8>, b: bool)
    ensures
        final(out)@ == old(out)@ + bool_cbor(b),
{
    if b {
        out.push(0xf5u8);
    } else {
        out.push(0xf4u8);
    }
    proof {
        assert(final(out)@ =~= old(out)@ + bool_cbor(b));
    }
}

fn push_opt_u64(out: &mut Vec<u8>, o: Option<u64>)
    ensures
        final(out)@ == old(out)@ + opt_u64_cbor(o),
{
    match o {
        Some(v) => push_cbor_head(out, 0, v),
        None => {
            out.push(0xf6u8);
            proof {
                assert(final(out)@ =~= old(out)@ + opt_u64_cbor(o));
            }
        },
    }
}

fn role_code_exec(r: Role) -> (c: u64)
    ensures
        c == role_code(r),
{
    match r {
        Role::Owner => 0,
        Role::CanMultisigSubmit => 1,
        Role::CanMultisigApprove => 2,
    }
}

/// Encodes an account for `/accounts/<id>`.
pub fn encode_account(a: &Account) -> (r: Vec<u8>)
    ensures
        r@ == account_cbor(*a),
{
    let mut out: Vec<u8> = Vec::new();
    push_cbor_head(&mut out, 5, 2);
    push_cbor_head(&mut out, 0, 0);
    push_cbor_head(&mut out, 5, a.roles.len() as u64);
    let ghost head = out@;
    let mut i: usize = 0;
    while i < a.roles.len()
        invariant
            i <= a.roles@.len(),
            out@ == head + role_entries_cbor(a.roles@.subrange(0, i as int)),
        decreases a.roles.len() - i,
    {
        let ghost before = out@;
        push_cbor_bytes(&mut out, &a.roles[i].0.to_vec());
        let roles = &a.roles[i].1;
        push_cbor_head(&mut out, 4, roles.len() as u64);
        let ghost mid = out@;
        let mut k: usize = 0;
        while k < roles.len()
            invariant
                k <= roles@.len(),
                out@ == mid + role_list_cbor(roles@.subrange(0, k as int)),
            decreases roles.len() - k,
        {
            push_cbor_head(&mut out, 0, role_code_exec(roles[k]));
            proof {
                assert(roles@.subrange(0, k + 1).drop_last() =~= roles@.subrange(0, k as int));
                assert(out@ =~= mid + role_list_cbor(roles@.subrange(0, k + 1)));
            }
            k = k + 1;
        }
        proof {
            assert(roles@.subrange(0, roles@.len() as int) =~= roles@);
            let sub = a.roles@.subrange(0, i + 1);
            assert(sub.drop_last() =~= a.roles@.subrange(0, i as int));
            assert(out@ =~= head + role_entries_cbor(sub));
        }
        i = i + 1;
    }
    proof {
        assert(a.roles@.subrange(0, a.roles@.len() as int) =~= a.roles@);
    }
    push_cbor_head(&mut out, 0, 1);
    push_cbor_head(&mut out, 4, a.features.len() as u64);
    let ghost head2 = out@;
    let mut j: usize = 0;
    while j < a.features.len()
        invariant
            j <= a.features@.len(),
            out@ == head2 + feature_entries_cbor(a.features@.subrange(0, j as int)),
        decreases a.features.len() - j,
    {
        let ghost before = out@;
        match &a.features[j] {
            AccountFeature::Multisig(m) => {
                push_cbor_head(&mut out, 4, 4);
                push_cbor_head(&mut out, 0, 0);
                push_opt_u64(&mut out, m.threshold);
                push_opt_u64(&mut out, m.timeout_in_secs);
                match m.execute_automatically {
                    Some(v) => push_bool(&mut out, v),
                    None => out.push(0xf6u8),
                }
            },
        }
        proof {
            let sub = a.features@.subrange(0, j + 1);
            assert(sub.drop_last() =~= a.features@.subrange(0, j as int));
            assert(out@ =~= before + feature_cbor(a.features@[j as int]));
            assert(out@ =~= head2 + feature_entries_cbor(sub));
        }
        j = j + 1;
    }
    proof {
        assert(a.features@.subrange(0, a.features@.len() as int) =~= a.features@);
        assert(out@ =~= account_cbor(*a));
    }
    out
}

/// Encodes a pending multisig transaction for `/multisig/<token>`.
pub fn encode_pending(p: &PendingMultisig) -> (r: Vec<u8>)
    ensures
        r@ == pending_cbor(*p),
{
    let mut out: Vec<u8> = Vec::new();
    push_cbor_head(&mut out, 5, 8);
    push_cbor_head(&mut out, 0, 0);
    push_cbor_bytes(&mut out, &p.account.to_vec());
    push_cbor_head(&mut out, 0, 1);
    match &p.memo {
        Some(t) => {
            let b: &[u8] = t.as_str().as_bytes();
            push_cbor_head(&mut out, 3, b.len() as u64);
            push_bytes(&mut out, b);
        },
        None => out.push(0xf6u8),
    }
    push_cbor_head(&mut out, 0, 2);
    push_content(&mut out, &p.transaction);
    push_cbor_head(&mut out, 0, 3);
    push_cbor_bytes(&mut out, &p.submitter.to_vec());
    push_cbor_head(&mut out, 0, 4);
    push_cbor_head(&mut out, 5, p.approvers.len() as u64);
    let ghost head = out@;
    let mut i: usize = 0;
    while i < p.approvers.len()
        invariant
            i <= p.approvers@.len(),
            out@ == head + approver_entries_cbor(p.approvers@.subrange(0, i as int)),
        decreases p.approvers.len() - i,
    {
        push_cbor_bytes(&mut out, &p.approvers[i].identity.to_vec());
        push_bool(&mut out, p.approvers[i].approved);
        proof {
            let sub = p.approvers@.subrange(0, i + 1);
            assert(sub.drop_last() =~= p.approvers@.subrange(0, i as int));
            assert(out@ =~= head + approver_entries_cbor(sub));
        }
        i = i + 1;
    }
    proof {
        assert(p.approvers@.subrange(0, p.approvers@.len() as int) =~= p.approvers@);
    }
    push_cbor_head(&mut out, 0, 5);
    push_cbor_head(&mut out, 0, p.threshold);
    push_cbor_head(&mut out, 0, 6);
    push_bool(&mut out, p.execute_automatically);
    push_cbor_head(&mut out, 0, 7);
    push_cbor_head(&mut out, 0, p.timeout);
    proof {
        assert(out@ =~= pending_cbor(*p));
    }
    out
}

} // verus!

use many_ledger::identity::Identity;
use many_ledger::multisig::{
    Account, AccountFeature, MultisigFeature, PendingMultisig, Role, SubmitTransactionArgs,
    MULTISIG_DEFAULT_EXECUTE_AUTOMATICALLY, MULTISIG_DEFAULT_TIMEOUT_IN_SECS,
};
use many_ledger::storage::{LedgerError, LedgerStorage};
use many_ledger::transaction::TransactionInfo;

fn identity(n: u8) -> Identity {
    Identity::from_bytes(vec![1, n])
}

fn mfk() -> Identity {
    Identity::from_bytes(vec![2, 77, 70, 75])
}

struct SetupWithAccount {
    module_impl: LedgerStorage,
    id: Identity,
    account_id: Identity,
}

/// A ledger with an account owned by identity 1, where identity 2 may approve
/// and identity 3 may submit and approve, with a threshold of 3.
fn setup_with_account() -> SetupWithAccount {
    let id = identity(1);
    let mut module_impl = LedgerStorage::new(
        vec![(mfk(), "MyFirstKoin".to_string())],
        vec![],
        Identity::from_bytes(vec![9]),
        false,
    )
    .unwrap();
    module_impl.set_time(1_000_000);
    let account = Account {
        roles: vec![
            (id.duplicate(), vec![Role::Owner, Role::CanMultisigApprove]),
            (identity(2), vec![Role::CanMultisigApprove]),
            (identity(3), vec![Role::CanMultisigSubmit, Role::CanMultisigApprove]),
        ],
        features: vec![AccountFeature::Multisig(MultisigFeature {
            threshold: Some(3),
            timeout_in_secs: Some(MULTISIG_DEFAULT_TIMEOUT_IN_SECS),
            execute_automatically: Some(MULTISIG_DEFAULT_EXECUTE_AUTOMATICALLY),
        })],
    };
    let account_id = module_impl.add_account(account).unwrap();
    SetupWithAccount { module_impl, id, account_id }
}

fn send_from(account_id: &Identity) -> TransactionInfo {
    TransactionInfo::Send {
        from: account_id.duplicate(),
        to: identity(4),
        symbol: mfk(),
        amount: 10,
    }
}

fn submit_args(
    account_id: &Identity,
    execute_automatically: Option<bool>,
) -> SubmitTransactionArgs {
    SubmitTransactionArgs {
        account: Some(account_id.duplicate()),
        memo: Some("Foo".to_string()),
        transaction: send_from(account_id),
        threshold: None,
        timeout_in_secs: None,
        execute_automatically,
    }
}

fn get_approbation(info: &PendingMultisig, id: &Identity) -> bool {
    match info.approvers.iter().find(|a| a.identity == *id) {
        Some(a) => a.approved,
        None => panic!("Can't verify approbation; ID not found"),
    }
}

/// The same account, holding 10 000 MFK from genesis.
fn funded_setup() -> SetupWithAccount {
    let id = identity(1);
    let parent = Identity::from_bytes(vec![9]);
    let account_id = parent.with_subresource_id(0);
    let mut module_impl = LedgerStorage::new(
        vec![(mfk(), "MyFirstKoin".to_string())],
        vec![(account_id.duplicate(), vec![(mfk(), 10_000)])],
        parent,
        false,
    )
    .unwrap();
    module_impl.set_time(1_000_000);
    let account = Account {
        roles: vec![
            (id.duplicate(), vec![Role::Owner, Role::CanMultisigApprove]),
            (identity(2), vec![Role::CanMultisigApprove]),
            (identity(3), vec![Role::CanMultisigSubmit, Role::CanMultisigApprove]),
        ],
        features: vec![AccountFeature::Multisig(MultisigFeature {
            threshold: Some(3),
            timeout_in_secs: None,
            execute_automatically: None,
        })],
    };
    let added = module_impl.add_account(account).unwrap();
    assert_eq!(added, account_id);
    SetupWithAccount { module_impl, id, account_id }
}

#[test]
/// Verify owner can submit a transaction
fn submit_transaction() {
    let SetupWithAccount { mut module_impl, id, account_id } = setup_with_account();
    let result = module_impl.create_multisig_transaction(&id, submit_args(&account_id, None));
    assert!(result.is_ok());
    let token = result.unwrap();

    let tx_info = module_impl.get_multisig_info(&token).unwrap();
    assert_eq!(tx_info.memo, Some("Foo".to_string()));
    match &tx_info.transaction {
        TransactionInfo::Send { from, to, symbol, amount } => {
            assert_eq!(*from, account_id);
            assert_eq!(*to, identity(4));
            assert_eq!(*symbol, mfk());
            assert_eq!(*amount, 10);
        },
        _ => panic!("the stored transaction is not the submitted transfer"),
    }
    assert_eq!(tx_info.submitter, id);
    assert!(get_approbation(tx_info, &id));
    assert_eq!(tx_info.threshold, 3);
    assert!(!tx_info.execute_automatically);
    assert_eq!(tx_info.timeout, 1_000_000 + MULTISIG_DEFAULT_TIMEOUT_IN_SECS);
}

#[test]
/// Verify identity with `canMultisigSubmit` can submit a transaction
fn submit_transaction_valid_role() {
    let SetupWithAccount { mut module_impl, account_id, .. } = setup_with_account();
    let result = module_impl.create_multisig_transaction(&identity(3), submit_args(&account_id, None));
    assert!(result.is_ok());
}

#[test]
/// Verify identity with `canMultisigApprove` can't submit a transaction
fn submit_transaction_invalid_role() {
    let SetupWithAccount { mut module_impl, account_id, .. } = setup_with_account();
    let result = module_impl.create_multisig_transaction(&identity(2), submit_args(&account_id, None));
    assert!(result.is_err());
    assert!(matches!(result.unwrap_err(), LedgerError::UserNeedsRole(_)));
}

#[test]
/// Verify owner can set new defaults
fn set_defaults() {
    let SetupWithAccount { mut module_impl, id, account_id } = setup_with_account();
    let result = module_impl.multisig_set_defaults(&id, &account_id, Some(1), Some(12), Some(true));
    assert!(result.is_ok());

    let account = module_impl.get_account(&account_id).unwrap();
    let AccountFeature::Multisig(arguments) = &account.features[0];
    assert_eq!(arguments.threshold, Some(1));
    assert_eq!(arguments.timeout_in_secs, Some(12));
    assert_eq!(arguments.execute_automatically, Some(true));
}

#[test]
fn set_defaults_invalid_user() {
    for seed in [4u8, 5, 200] {
        let SetupWithAccount { mut module_impl, account_id, .. } = setup_with_account();
        let result =
            module_impl.multisig_set_defaults(&identity(seed), &account_id, Some(1), Some(12), Some(true));
        assert_eq!(result, Err(LedgerError::UserNeedsRole(Role::Owner)));
        let account = module_impl.get_account(&account_id).unwrap();
        let AccountFeature::Multisig(arguments) = &account.features[0];
        assert_eq!(arguments.threshold, Some(3));
        assert_eq!(arguments.timeout_in_secs, Some(MULTISIG_DEFAULT_TIMEOUT_IN_SECS));
        assert_eq!(arguments.execute_automatically, Some(MULTISIG_DEFAULT_EXECUTE_AUTOMATICALLY));
    }
}

#[test]
/// Verify identity with `canMultisigApprove` and identity with `canMultisigSubmit` can approve a transaction
fn approve() {
    let SetupWithAccount { mut module_impl, id, account_id } = setup_with_account();
    let result = module_impl.create_multisig_transaction(&id, submit_args(&account_id, None));
    assert!(result.is_ok());
    let token = result.unwrap();
    let info = module_impl.get_multisig_info(&token).unwrap();
    assert!(get_approbation(info, &id));
    assert_eq!(info.threshold, 3);

    let result = module_impl.approve_multisig(&identity(2), &token);
    assert!(result.is_ok());
    assert!(get_approbation(module_impl.get_multisig_info(&token).unwrap(), &identity(2)));

    let result = module_impl.approve_multisig(&identity(3), &token);
    assert!(result.is_ok());
    assert!(get_approbation(module_impl.get_multisig_info(&token).unwrap(), &identity(3)));
}

#[test]
fn approve_without_role() {
    let SetupWithAccount { mut module_impl, id, account_id } = setup_with_account();
    let token = module_impl.create_multisig_transaction(&id, submit_args(&account_id, None)).unwrap();
    let result = module_impl.approve_multisig(&identity(6), &token);
    assert_eq!(result, Err(LedgerError::UserNeedsRole(Role::CanMultisigApprove)));
    let result = module_impl.revoke_multisig(&identity(6), &token);
    assert_eq!(result, Err(LedgerError::UserNeedsRole(Role::CanMultisigApprove)));
}

#[test]
fn approve_unknown_token() {
    let SetupWithAccount { mut module_impl, .. } = setup_with_account();
    let result = module_impl.approve_multisig(&identity(2), &vec![1, 2, 3]);
    assert_eq!(result, Err(LedgerError::TransactionCannotBeFound));
}

#[test]
/// Verify identity with `owner`, `canMultisigSubmit` and `canMultisigApprove` can revoke a transaction
fn revoke() {
    let SetupWithAccount { mut module_impl, id, account_id } = setup_with_account();
    let result = module_impl.create_multisig_transaction(&id, submit_args(&account_id, None));
    assert!(result.is_ok());
    let token = result.unwrap();
    let info = module_impl.get_multisig_info(&token).unwrap();
    assert!(get_approbation(info, &id));
    assert_eq!(info.threshold, 3);

    for i in [id.duplicate(), identity(2), identity(3)] {
        let result = module_impl.approve_multisig(&i, &token);
        assert!(result.is_ok());
        assert!(get_approbation(module_impl.get_multisig_info(&token).unwrap(), &i));

        let result = module_impl.revoke_multisig(&i, &token);
        assert!(result.is_ok());
        assert!(!get_approbation(module_impl.get_multisig_info(&token).unwrap(), &i));
    }
}

#[test]
/// Verify identities with `owner` and `canMultisigSubmit` can withdraw a transaction
fn withdraw() {
    let SetupWithAccount { mut module_impl, id, account_id } = setup_with_account();
    for i in [id.duplicate(), identity(3)] {
        let result = module_impl.create_multisig_transaction(&i, submit_args(&account_id, None));
        assert!(result.is_ok());
        let token = result.unwrap();

        let result = module_impl.withdraw_multisig(&i, &token);
        assert!(result.is_ok());
        let result = module_impl.get_multisig_info(&token);
        assert!(result.is_err());
        assert!(matches!(result, Err(LedgerError::TransactionCannotBeFound)));
    }
}

#[test]
fn withdraw_without_rights() {
    let SetupWithAccount { mut module_impl, id, account_id } = setup_with_account();
    let token = module_impl.create_multisig_transaction(&id, submit_args(&account_id, None)).unwrap();
    for i in [identity(2), identity(6)] {
        let result = module_impl.withdraw_multisig(&i, &token);
        assert_eq!(result, Err(LedgerError::UserNeedsRole(Role::Owner)));
    }
    assert!(module_impl.get_multisig_info(&token).is_ok());
}

#[test]
fn execute_manually_after_threshold() {
    let SetupWithAccount { mut module_impl, id, account_id } = funded_setup();
    let token = module_impl.create_multisig_transaction(&id, submit_args(&account_id, Some(false))).unwrap();
    assert_eq!(
        module_impl.execute_multisig(&id, &token).map(|_| ()),
        Err(LedgerError::CannotExecuteTransaction)
    );
    for i in [id.duplicate(), identity(2), identity(3)] {
        assert_eq!(module_impl.approve_multisig(&i, &token), Ok(false));
    }
    assert_eq!(
        module_impl.execute_multisig(&identity(3), &token).map(|_| ()),
        Err(LedgerError::UserNeedsRole(Role::CanMultisigApprove))
    );
    let from = module_impl.execute_multisig(&id, &token).unwrap();
    assert_eq!(from, account_id);
    assert_eq!(module_impl.get_balance(&identity(4), &mfk()), 10);
    assert_eq!(module_impl.get_balance(&account_id, &mfk()), 9_990);
    assert!(matches!(
        module_impl.execute_multisig(&id, &token),
        Err(LedgerError::TransactionCannotBeFound)
    ));
}

#[test]
fn execute_automatically_on_last_approval() {
    let SetupWithAccount { mut module_impl, id, account_id } = funded_setup();
    let token = module_impl.create_multisig_transaction(&id, submit_args(&account_id, Some(true))).unwrap();
    assert_eq!(module_impl.approve_multisig(&identity(2), &token), Ok(false));
    assert_eq!(module_impl.approve_multisig(&identity(3), &token), Ok(true));
    assert_eq!(module_impl.get_balance(&identity(4), &mfk()), 10);
    assert!(matches!(
        module_impl.get_multisig_info(&token),
        Err(LedgerError::TransactionCannotBeFound)
    ));
}

#[test]
fn submit_overrides_need_owner() {
    let SetupWithAccount { mut module_impl, id, account_id } = setup_with_account();
    let mut args = submit_args(&account_id, None);
    args.threshold = Some(5);
    assert_eq!(
        module_impl.create_multisig_transaction(&identity(3), args),
        Err(LedgerError::UserNeedsRole(Role::Owner))
    );
    let mut args = submit_args(&account_id, None);
    args.threshold = Some(5);
    args.timeout_in_secs = Some(u64::MAX);
    let token = module_impl.create_multisig_transaction(&id, args).unwrap();
    let info = module_impl.get_multisig_info(&token).unwrap();
    assert_eq!(info.threshold, 5);
    assert_eq!(info.timeout, 1_000_000 + 15_984_000);
}

#[test]
fn submit_checks_account_and_sender() {
    let SetupWithAccount { mut module_impl, id, account_id } = setup_with_account();
    let mut args = submit_args(&account_id, None);
    args.account = Some(identity(7));
    assert_eq!(module_impl.create_multisig_transaction(&id, args), Err(LedgerError::InvalidTransaction));
    let args = SubmitTransactionArgs {
        account: None,
        memo: None,
        transaction: send_from(&identity(7)),
        threshold: None,
        timeout_in_secs: None,
        execute_automatically: None,
    };
    assert_eq!(module_impl.create_multisig_transaction(&id, args), Err(LedgerError::UnknownAccount));
    let mut args = submit_args(&account_id, None);
    args.threshold = Some(0);
    assert_eq!(module_impl.create_multisig_transaction(&id, args), Err(LedgerError::InvalidTransaction));
}

#[test]
fn accounts_get_fresh_identities() {
    let SetupWithAccount { mut module_impl, account_id, .. } = setup_with_account();
    let second = module_impl
        .add_account(Account { roles: vec![], features: vec![] })
        .unwrap();
    assert!(second != account_id);
    assert_eq!(second, Identity::from_bytes(vec![9]).with_subresource_id(1));
    assert!(module_impl.get_account(&identity(8)).is_none());
    assert_eq!(
        module_impl.commit_account(&identity(8), Account { roles: vec![], features: vec![] }),
        Err(LedgerError::UnknownAccount)
    );
    assert_eq!(
        module_impl.commit_account(&second, Account { roles: vec![], features: vec![] }),
        Ok(())
    );
}

#[test]
fn records_are_stored() {
    let SetupWithAccount { mut module_impl, id, account_id } = setup_with_account();
    let writes = module_impl.take_writes();
    let mut account_key = b"/accounts/".to_vec();
    account_key.extend_from_slice(&account_id.text());
    let account_bytes = writes
        .iter()
        .rev()
        .find(|w| w.key == account_key)
        .map(|w| match &w.op {
            many_ledger::store::Op::Put(v) => v.clone(),
            many_ledger::store::Op::Delete => panic!("account deleted"),
        })
        .expect("account stored");
    let mut d = minicbor::Decoder::new(&account_bytes);
    assert_eq!(d.map().unwrap(), Some(2));
    assert_eq!(d.u64().unwrap(), 0);
    assert_eq!(d.map().unwrap(), Some(3));
    assert_eq!(d.bytes().unwrap(), &[1, 1]);
    assert_eq!(d.array().unwrap(), Some(2));
    assert_eq!(d.u64().unwrap(), 0);
    assert_eq!(d.u64().unwrap(), 2);
    assert!(writes.iter().any(|w| w.key == b"/config/account_id".to_vec()));

    let token = module_impl.create_multisig_transaction(&id, submit_args(&account_id, None)).unwrap();
    let writes = module_impl.take_writes();
    let mut key = b"/multisig/".to_vec();
    key.extend_from_slice(&token);
    let bytes = match &writes.iter().find(|w| w.key == key).expect("record stored").op {
        many_ledger::store::Op::Put(v) => v.clone(),
        many_ledger::store::Op::Delete => panic!("record deleted"),
    };
    let mut d = minicbor::Decoder::new(&bytes);
    assert_eq!(d.map().unwrap(), Some(8));
    assert_eq!(d.u64().unwrap(), 0);
    assert_eq!(d.bytes().unwrap(), account_id.to_vec().as_slice());
    assert_eq!(d.u64().unwrap(), 1);
    assert_eq!(d.str().unwrap(), "Foo");

    assert_eq!(module_impl.withdraw_multisig(&id, &token), Ok(()));
    let writes = module_impl.take_writes();
    assert!(writes
        .iter()
        .any(|w| w.key == key && matches!(w.op, many_ledger::store::Op::Delete)));
}

#[test]
fn non_transfer_is_not_executed() {
    let SetupWithAccount { mut module_impl, id, account_id } = funded_setup();
    let args = SubmitTransactionArgs {
        account: Some(account_id.duplicate()),
        memo: None,
        transaction: TransactionInfo::Mint { account: account_id.duplicate(), symbol: mfk(), amount: 5 },
        threshold: Some(1),
        timeout_in_secs: None,
        execute_automatically: None,
    };
    let token = module_impl.create_multisig_transaction(&id, args).unwrap();
    assert_eq!(
        module_impl.execute_multisig(&id, &token).map(|_| ()),
        Err(LedgerError::TransactionTypeUnsupported)
    );
    assert_eq!(module_impl.get_balance(&account_id, &mfk()), 10_000);
    let args = SubmitTransactionArgs {
        account: None,
        memo: None,
        transaction: TransactionInfo::Burn { account: account_id.duplicate(), symbol: mfk(), amount: 5 },
        threshold: None,
        timeout_in_secs: None,
        execute_automatically: None,
    };
    assert_eq!(module_impl.create_multisig_transaction(&id, args), Err(LedgerError::InvalidTransaction));
}

#[test]
/// Verify identity not part of the account can't approve a transaction
fn approve_invalid() {
    let SetupWithAccount { mut module_impl, id, account_id } = setup_with_account();
    let result = module_impl.create_multisig_transaction(&id, submit_args(&account_id, None));
    assert!(result.is_ok());
    let token = result.unwrap();
    let info = module_impl.get_multisig_info(&token).unwrap();
    assert!(get_approbation(info, &id));
    assert_eq!(info.threshold, 3);

    let result = module_impl.approve_multisig(&identity(6), &token);
    assert!(result.is_err());
    assert_eq!(result.unwrap_err(), LedgerError::UserNeedsRole(Role::CanMultisigApprove));
}

#[test]
/// Verify identity not part of the account can't revoke a transaction
fn revoke_invalid() {
    let SetupWithAccount { mut module_impl, id, account_id } = setup_with_account();
    let result = module_impl.create_multisig_transaction(&id, submit_args(&account_id, None));
    assert!(result.is_ok());
    let token = result.unwrap();
    assert!(get_approbation(module_impl.get_multisig_info(&token).unwrap(), &id));

    let result = module_impl.revoke_multisig(&identity(6), &token);
    assert!(result.is_err());
    assert_eq!(result.unwrap_err(), LedgerError::UserNeedsRole(Role::CanMultisigApprove));
}

#[test]
/// Verify identity with `canMultisigApprove` and identity not part of the account can't withdraw a transaction
fn withdraw_invalid() {
    let SetupWithAccount { mut module_impl, id, account_id } = setup_with_account();
    let result = module_impl.create_multisig_transaction(&id, submit_args(&account_id, None));
    assert!(result.is_ok());
    let token = result.unwrap();
    for i in [identity(2), identity(6)] {
        let result = module_impl.withdraw_multisig(&i, &token);
        assert!(result.is_err());
        assert_eq!(result.unwrap_err(), LedgerError::UserNeedsRole(Role::Owner));
    }
}

use many_ledger::bytes::{be_to_u64, compare_bytes, u64_to_be};
use many_ledger::codec::{amount_from_bytes, amount_to_bytes, push_cbor_head, u32_to_be};
use many_ledger::identity::Identity;
use many_ledger::iter::{CborRange, SortOrder, TidBound};
use many_ledger::keys::key_for_account;
use many_ledger::storage::{LedgerError, LedgerStorage};
use many_ledger::store::{BatchEntry, KvStore, Op, StoreError};
use many_ledger::tid::{key_for_transaction, TransactionId};

fn identity(n: u8) -> Identity {
    Identity::from_bytes(vec![1, n])
}

fn mfk() -> Identity {
    Identity::from_bytes(vec![2, 77, 70, 75])
}

fn genesis(blockchain: bool) -> LedgerStorage {
    LedgerStorage::new(
        vec![(mfk(), "MyFirstKoin".to_string())],
        vec![(identity(1), vec![(mfk(), 100)])],
        Identity::from_bytes(vec![9]),
        blockchain,
    )
    .unwrap()
}

#[test]
fn transaction_key_size() {
    let golden_size = key_for_transaction(TransactionId::from_u64(0)).len();

    assert_eq!(golden_size, key_for_transaction(TransactionId::from_u64(u64::MAX)).len());

    // Test at 1 byte, 2 bytes and 4 bytes boundaries.
    for i in [u8::MAX as u64, u16::MAX as u64, u32::MAX as u64] {
        assert_eq!(golden_size, key_for_transaction(TransactionId::from_u64(i - 1)).len());
        assert_eq!(golden_size, key_for_transaction(TransactionId::from_u64(i)).len());
        assert_eq!(golden_size, key_for_transaction(TransactionId::from_u64(i + 1)).len());
    }

    assert_eq!(
        golden_size,
        key_for_transaction(TransactionId::from_bytes(b"012345678901234567890123456789".to_vec())).len()
    );

    // Trim the Tx ID if it's too long.
    assert_eq!(
        golden_size,
        key_for_transaction(TransactionId::from_bytes(
            b"0123456789012345678901234567890123456789".to_vec()
        ))
        .len()
    );
    assert_eq!(
        key_for_transaction(TransactionId::from_bytes(b"01234567890123456789012345678901".to_vec())).len(),
        key_for_transaction(TransactionId::from_bytes(
            b"0123456789012345678901234567890123456789012345678901234567890123456789".to_vec()
        ))
        .len()
    )
}

#[test]
fn transaction_key_layout() {
    let key = key_for_transaction(TransactionId::from_bytes(vec![1, 2]));
    assert_eq!(key.len(), 46);
    assert_eq!(&key[..14], b"/transactions/");
    assert!(key[14..44].iter().all(|b| *b == 0));
    assert_eq!(&key[44..], &[1, 2]);
    let long: Vec<u8> = (0..40).collect();
    let key = key_for_transaction(TransactionId::from_bytes(long.clone()));
    assert_eq!(&key[14..], &long[..32]);
}

#[test]
fn transaction_keys_follow_id_order() {
    let mut previous = key_for_transaction(TransactionId::from_u64(0));
    for v in [1u64, 255, 256, 65_535, 65_536, u32::MAX as u64, 1 << 32, u64::MAX] {
        let key = key_for_transaction(TransactionId::from_u64(v));
        assert!(previous < key);
        previous = key;
    }
}

#[test]
fn increment_carries() {
    let id = TransactionId::from_bytes(vec![0x01, 0xff, 0xff]).increment();
    assert_eq!(id.0, vec![0x02, 0x00, 0x00]);
    let id = TransactionId::from_bytes(vec![0xff, 0xff]).increment();
    assert_eq!(id.0, vec![0x01, 0x00, 0x00]);
    let id = TransactionId::from_bytes(vec![]).increment();
    assert_eq!(id.0, vec![0x01]);
    let id = TransactionId::from_u64(41).increment();
    assert_eq!(id.0, 42u64.to_be_bytes().to_vec());
}

#[test]
fn first_id_of_a_height() {
    let id = TransactionId::first_of_height(3);
    let mut expected = 3u64.to_be_bytes().to_vec();
    expected.extend_from_slice(&[0, 0, 0, 0]);
    assert_eq!(id.0, expected);
}

#[test]
fn scalar_codecs() {
    assert_eq!(u64_to_be(0x0102_0304_0506_0708), vec![1, 2, 3, 4, 5, 6, 7, 8]);
    assert_eq!(be_to_u64(&vec![0, 0, 0, 0, 0, 0, 1, 0]), 256);
    assert_eq!(u32_to_be(0x0a0b_0c0d), vec![10, 11, 12, 13]);
    assert_eq!(amount_to_bytes(0), Vec::<u8>::new());
    assert_eq!(amount_to_bytes(256), vec![1, 0]);
    assert_eq!(amount_to_bytes(u128::MAX), vec![0xff; 16]);
    assert_eq!(amount_from_bytes(&vec![1, 0]), 256);
    assert_eq!(amount_from_bytes(&vec![]), 0);
    assert_eq!(amount_from_bytes(&vec![0]), 0);
}

#[test]
fn cbor_heads() {
    let mut out = Vec::new();
    push_cbor_head(&mut out, 0, 23);
    push_cbor_head(&mut out, 0, 24);
    push_cbor_head(&mut out, 2, 500);
    push_cbor_head(&mut out, 0, 1 << 40);
    assert_eq!(
        out,
        vec![0x17, 0x18, 24, 0x59, 0x01, 0xf4, 0x1b, 0, 0, 1, 0, 0, 0, 0, 0]
    );
}

#[test]
fn bytewise_compare() {
    assert_eq!(compare_bytes(&vec![1, 2], &vec![1, 3]), -1);
    assert_eq!(compare_bytes(&vec![1, 2], &vec![1, 2]), 0);
    assert_eq!(compare_bytes(&vec![1, 2, 0], &vec![1, 2]), 1);
    assert_eq!(compare_bytes(&vec![], &vec![0]), -1);
}

#[test]
fn identity_text_and_sub_identities() {
    let id = Identity::from_bytes(vec![0xab, 0x01]);
    assert_eq!(id.text(), b"mab01".to_vec());
    assert!(Identity::anonymous().is_anonymous());
    assert!(!id.is_anonymous());
    let sub = id.with_subresource_id(5);
    assert_eq!(sub.to_vec(), vec![0x80, 0xab, 0x01, 0, 0, 0, 5]);
    assert!(id.with_subresource_id(1) != id.with_subresource_id(2));
}

#[test]
fn balance_key_text() {
    let key = key_for_account(&Identity::from_bytes(vec![1]), &Identity::from_bytes(vec![0x4d]));
    assert_eq!(key, b"/balances/m01/m4d".to_vec());
}

#[test]
fn store_refuses_unsorted_batches() {
    let mut store = KvStore::new();
    let batch = vec![
        BatchEntry { key: vec![2], op: Op::Put(vec![1]) },
        BatchEntry { key: vec![1], op: Op::Put(vec![2]) },
    ];
    assert_eq!(store.apply(&batch), Err(StoreError::UnsortedBatch));
    assert_eq!(store.get(&vec![2]), None);
    let dup = vec![
        BatchEntry { key: vec![1], op: Op::Put(vec![1]) },
        BatchEntry { key: vec![1], op: Op::Put(vec![2]) },
    ];
    assert_eq!(store.apply(&dup), Err(StoreError::UnsortedBatch));
    let batch = vec![
        BatchEntry { key: vec![1], op: Op::Put(vec![10]) },
        BatchEntry { key: vec![2], op: Op::Put(vec![20]) },
        BatchEntry { key: vec![3], op: Op::Put(vec![30]) },
    ];
    assert_eq!(store.apply(&batch), Ok(()));
    assert_eq!(store.apply(&vec![BatchEntry { key: vec![2], op: Op::Delete }]), Ok(()));
    assert_eq!(store.get(&vec![1]), Some(vec![10]));
    assert_eq!(store.get(&vec![2]), None);
    let range = store.range(&vec![0], &vec![3]);
    assert_eq!(range, vec![(vec![1], vec![10])]);
    assert_eq!(store.take_writes().len(), 4);
    assert_eq!(store.take_writes().len(), 0);
}

#[test]
fn genesis_balances() {
    let ledger = genesis(false);
    assert_eq!(ledger.get_balance(&identity(1), &mfk()), 100);
    assert_eq!(ledger.get_balance(&identity(2), &mfk()), 0);
    assert_eq!(ledger.get_balance(&Identity::anonymous(), &mfk()), 0);
    assert_eq!(ledger.get_height(), 0);
    assert_eq!(ledger.nb_transactions(), 0);
    assert_eq!(ledger.hash(), Vec::<u8>::new());
    let symbols = ledger.get_symbols();
    assert_eq!(symbols.len(), 1);
    assert_eq!(symbols[0].1, "MyFirstKoin");
}

#[test]
fn genesis_unknown_symbol() {
    let r = LedgerStorage::new(
        vec![(mfk(), "MyFirstKoin".to_string())],
        vec![(identity(1), vec![(Identity::from_bytes(vec![3]), 5)])],
        Identity::from_bytes(vec![9]),
        false,
    );
    assert!(matches!(r, Err(LedgerError::UnknownSymbol)));
}

#[test]
fn genesis_writes_symbol_table() {
    let mut ledger = genesis(false);
    let writes = ledger.take_writes();
    let table = writes
        .iter()
        .find(|w| w.key == b"/config/symbols".to_vec())
        .expect("symbol table written");
    let bytes = match &table.op {
        Op::Put(v) => v.clone(),
        Op::Delete => panic!("symbol table deleted"),
    };
    let mut d = minicbor::Decoder::new(&bytes);
    assert_eq!(d.map().unwrap(), Some(1));
    assert_eq!(d.bytes().unwrap(), &[2, 77, 70, 75]);
    assert_eq!(d.str().unwrap(), "MyFirstKoin");
    let identity = writes
        .iter()
        .find(|w| w.key == b"/config/identity".to_vec())
        .expect("identity written");
    assert!(matches!(&identity.op, Op::Put(v) if *v == vec![9]));
}

#[test]
fn send_moves_funds_and_logs() {
    let mut ledger = genesis(true);
    ledger.set_time(1_000);
    assert_eq!(ledger.send(&identity(1), &identity(2), &mfk(), 30), Ok(()));
    let info = ledger.commit();
    assert!(!info.is_empty());
    let commit = ledger.record_root_hash(vec![7, 7]);
    assert_eq!(commit.retain_height, 0);
    assert_eq!(commit.hash, vec![7, 7]);
    assert_eq!(ledger.hash(), vec![7, 7]);
    assert_eq!(ledger.get_balance(&identity(1), &mfk()), 70);
    assert_eq!(ledger.get_balance(&identity(2), &mfk()), 30);
    assert_eq!(ledger.nb_transactions(), 1);
    assert_eq!(ledger.get_height(), 1);

    let unbounded = CborRange { start: TidBound::Unbounded, end: TidBound::Unbounded };
    let mut it = ledger.iter(unbounded, SortOrder::Ascending);
    let (key, value) = it.next().expect("one record");
    assert!(it.next().is_none());
    assert_eq!(key, key_for_transaction(TransactionId::from_u64(1)));

    let mut d = minicbor::Decoder::new(&value);
    assert_eq!(d.map().unwrap(), Some(3));
    assert_eq!(d.u64().unwrap(), 0);
    assert_eq!(d.bytes().unwrap(), &1u64.to_be_bytes());
    assert_eq!(d.u64().unwrap(), 1);
    assert_eq!(d.tag().unwrap().as_u64(), 1);
    assert_eq!(d.u64().unwrap(), 1_000);
    assert_eq!(d.u64().unwrap(), 2);
    assert_eq!(d.array().unwrap(), Some(5));
    assert_eq!(d.u64().unwrap(), 0);
    assert_eq!(d.bytes().unwrap(), &[1, 1]);
    assert_eq!(d.bytes().unwrap(), &[1, 2]);
    assert_eq!(d.bytes().unwrap(), &[2, 77, 70, 75]);
    assert_eq!(d.tag().unwrap().as_u64(), 2);
    assert_eq!(d.bytes().unwrap(), &[30]);
}

#[test]
fn send_insufficient_funds_changes_nothing() {
    let mut ledger = genesis(false);
    assert_eq!(ledger.send(&identity(1), &identity(2), &mfk(), 30), Ok(()));
    ledger.take_writes();
    assert_eq!(
        ledger.send(&identity(1), &identity(2), &mfk(), 1000),
        Err(LedgerError::InsufficientFunds)
    );
    assert_eq!(ledger.get_balance(&identity(1), &mfk()), 70);
    assert_eq!(ledger.get_balance(&identity(2), &mfk()), 30);
    assert_eq!(ledger.take_writes().len(), 0);
    assert_eq!(ledger.nb_transactions(), 1);
}

#[test]
fn send_noop_and_anonymous() {
    let mut ledger = genesis(false);
    ledger.take_writes();
    assert_eq!(ledger.send(&identity(1), &identity(2), &mfk(), 0), Ok(()));
    assert_eq!(ledger.send(&identity(1), &identity(1), &mfk(), 10), Ok(()));
    assert_eq!(ledger.take_writes().len(), 0);
    assert_eq!(ledger.nb_transactions(), 0);
    assert_eq!(
        ledger.send(&identity(1), &Identity::anonymous(), &mfk(), 10),
        Err(LedgerError::AnonymousCannotHoldFunds)
    );
    assert_eq!(
        ledger.send(&Identity::anonymous(), &identity(1), &mfk(), 10),
        Err(LedgerError::AnonymousCannotHoldFunds)
    );
    assert_eq!(ledger.get_balance(&identity(1), &mfk()), 100);
}

#[test]
fn send_conserves_total() {
    let mut ledger = genesis(false);
    for (amount, to) in [(10u128, 2u8), (25, 3), (65, 2)] {
        let before = ledger.get_balance(&identity(1), &mfk()) + ledger.get_balance(&identity(to), &mfk());
        assert_eq!(ledger.send(&identity(1), &identity(to), &mfk(), amount), Ok(()));
        let after = ledger.get_balance(&identity(1), &mfk()) + ledger.get_balance(&identity(to), &mfk());
        assert_eq!(before, after);
    }
    assert_eq!(ledger.get_balance(&identity(1), &mfk()), 0);
    assert_eq!(ledger.nb_transactions(), 3);
}

#[test]
fn send_overflow_is_refused() {
    let mut ledger = LedgerStorage::new(
        vec![(mfk(), "MyFirstKoin".to_string())],
        vec![(identity(1), vec![(mfk(), 10)]), (identity(2), vec![(mfk(), u128::MAX)])],
        Identity::from_bytes(vec![9]),
        false,
    )
    .unwrap();
    assert_eq!(ledger.send(&identity(1), &identity(2), &mfk(), 1), Err(LedgerError::Unknown));
}

#[test]
fn multiple_balances_filter() {
    let other = Identity::from_bytes(vec![2, 1]);
    let ledger = LedgerStorage::new(
        vec![(mfk(), "MyFirstKoin".to_string()), (other.duplicate(), "Other".to_string())],
        vec![(identity(1), vec![(mfk(), 100), (other.duplicate(), 5)])],
        Identity::from_bytes(vec![9]),
        false,
    )
    .unwrap();
    let all = ledger.get_multiple_balances(&identity(1), &vec![]);
    assert_eq!(all.len(), 2);
    let some = ledger.get_multiple_balances(&identity(1), &vec![other.duplicate()]);
    assert_eq!(some.len(), 1);
    assert_eq!(some[0].0, other);
    assert_eq!(some[0].1, 5);
    assert_eq!(ledger.get_multiple_balances(&Identity::anonymous(), &vec![]).len(), 0);
    assert_eq!(ledger.get_multiple_balances(&identity(2), &vec![]).len(), 0);
}

#[test]
fn iterator_bounds_and_orders() {
    let mut ledger = genesis(false);
    for _ in 0..4 {
        assert_eq!(ledger.send(&identity(1), &identity(2), &mfk(), 1), Ok(()));
    }
    let ids = |range: CborRange, order: SortOrder| -> Vec<Vec<u8>> {
        let mut it = ledger.iter(range, order);
        let mut out = Vec::new();
        while let Some((k, _)) = it.next() {
            out.push(k);
        }
        out
    };
    let key = |v: u64| key_for_transaction(TransactionId::from_u64(v));
    let all = ids(CborRange { start: TidBound::Unbounded, end: TidBound::Unbounded }, SortOrder::Indeterminate);
    assert_eq!(all, vec![key(1), key(2), key(3), key(4)]);
    let desc = ids(CborRange { start: TidBound::Unbounded, end: TidBound::Unbounded }, SortOrder::Descending);
    assert_eq!(desc, vec![key(4), key(3), key(2), key(1)]);
    let inc = ids(
        CborRange {
            start: TidBound::Included(TransactionId::from_u64(2)),
            end: TidBound::Included(TransactionId::from_u64(3)),
        },
        SortOrder::Ascending,
    );
    assert_eq!(inc, vec![key(2), key(3)]);
    let exc = ids(
        CborRange {
            start: TidBound::Excluded(TransactionId::from_u64(1)),
            end: TidBound::Excluded(TransactionId::from_u64(4)),
        },
        SortOrder::Ascending,
    );
    assert_eq!(exc, vec![key(2), key(3)]);
}

#[test]
fn commit_reserves_next_block_ids() {
    let mut ledger = genesis(true);
    assert_eq!(ledger.send(&identity(1), &identity(2), &mfk(), 1), Ok(()));
    ledger.commit();
    assert_eq!(ledger.send(&identity(1), &identity(2), &mfk(), 1), Ok(()));
    let mut it = ledger.iter(
        CborRange {
            start: TidBound::Excluded(TransactionId::from_u64(1)),
            end: TidBound::Unbounded,
        },
        SortOrder::Ascending,
    );
    let (k, _) = it.next().unwrap();
    assert_eq!(k, key_for_transaction(TransactionId::from_u64((1u64 << 32) + 1)));
    let writes = ledger.commit();
    assert!(writes.iter().any(|w| w.key == b"/height".to_vec()));
    assert_eq!(ledger.get_height(), 2);
}

#[test]
fn load_restores_state() {
    let mut ledger = genesis(true);
    assert_eq!(ledger.send(&identity(1), &identity(2), &mfk(), 40), Ok(()));
    let mut entries: Vec<(Vec<u8>, Vec<u8>)> = Vec::new();
    for w in ledger.take_writes().into_iter().chain(ledger.commit()) {
        if let Op::Put(v) = w.op {
            entries.retain(|(k, _)| *k != w.key);
            entries.push((w.key, v));
        }
    }
    let mut loaded = LedgerStorage::load(
        entries,
        vec![(mfk(), "MyFirstKoin".to_string())],
        Identity::from_bytes(vec![9]),
        0,
        vec![],
        vec![],
        vec![],
        true,
    )
    .unwrap();
    assert_eq!(loaded.get_balance(&identity(1), &mfk()), 60);
    assert_eq!(loaded.get_balance(&identity(2), &mfk()), 40);
    assert_eq!(loaded.get_height(), 1);
    assert_eq!(loaded.nb_transactions(), 1);
    assert_eq!(loaded.take_writes().len(), 0);
    assert_eq!(loaded.send(&identity(2), &identity(1), &mfk(), 1), Ok(()));
    let mut it = loaded.iter(
        CborRange { start: TidBound::Excluded(TransactionId::from_u64(1)), end: TidBound::Unbounded },
        SortOrder::Ascending,
    );
    let (k, _) = it.next().unwrap();
    assert_eq!(k, key_for_transaction(TransactionId::from_u64((1u64 << 32) + 1)));
}

#[test]
fn load_refuses_bad_widths() {
    let r = LedgerStorage::load(
        vec![(b"/height".to_vec(), vec![1, 2, 3])],
        vec![],
        Identity::from_bytes(vec![9]),
        0,
        vec![],
        vec![],
        vec![],
        false,
    );
    assert!(matches!(r, Err(LedgerError::Deserialization)));
    let r = LedgerStorage::load(
        vec![(b"/balances/m01/m02".to_vec(), vec![1; 17])],
        vec![],
        Identity::from_bytes(vec![9]),
        0,
        vec![],
        vec![],
        vec![],
        false,
    );
    assert!(matches!(r, Err(LedgerError::Deserialization)));
}

#[test]
fn mint_and_burn() {
    let mut ledger = genesis(false);
    assert!(!ledger.can_mint(&identity(1), &mfk()));
    ledger.set_minters(vec![(mfk(), vec![identity(1)])]);
    assert!(ledger.can_mint(&identity(1), &mfk()));
    assert!(!ledger.can_mint(&identity(2), &mfk()));
    assert_eq!(ledger.mint(&identity(2), &mfk(), 50), Ok(()));
    assert_eq!(ledger.get_balance(&identity(2), &mfk()), 50);
    assert_eq!(ledger.burn(&identity(2), &mfk(), 60), Err(LedgerError::InsufficientFunds));
    assert_eq!(ledger.burn(&identity(2), &mfk(), 20), Ok(()));
    assert_eq!(ledger.get_balance(&identity(2), &mfk()), 30);
    assert_eq!(ledger.mint(&Identity::anonymous(), &mfk(), 1), Err(LedgerError::AnonymousCannotHoldFunds));
    assert_eq!(ledger.mint(&identity(1), &mfk(), u128::MAX), Err(LedgerError::Unknown));
    assert_eq!(ledger.nb_transactions(), 2);
    assert_eq!(ledger.mint(&identity(2), &mfk(), 0), Ok(()));
    assert_eq!(ledger.nb_transactions(), 2);
}

#[test]
fn minters_survive_load() {
    let mut ledger = genesis(true);
    ledger.set_minters(vec![(mfk(), vec![identity(1)])]);
    let mut entries: Vec<(Vec<u8>, Vec<u8>)> = Vec::new();
    for w in ledger.take_writes() {
        if let Op::Put(v) = w.op {
            entries.retain(|(k, _)| *k != w.key);
            entries.push((w.key, v));
        }
    }
    let load = |minters: Vec<(Identity, Vec<Identity>)>| {
        LedgerStorage::load(
            entries.clone(),
            vec![(mfk(), "MyFirstKoin".to_string())],
            Identity::from_bytes(vec![9]),
            0,
            vec![],
            vec![],
            minters,
            true,
        )
    };
    assert!(matches!(load(vec![]), Err(LedgerError::Deserialization)));
    let loaded = load(vec![(mfk(), vec![identity(1)])]).unwrap();
    assert!(loaded.can_mint(&identity(1), &mfk()));
    assert!(!loaded.can_mint(&identity(2), &mfk()));
}

#[test]
fn load_continues_after_the_largest_id() {
    let r = LedgerStorage::load(
        vec![
            (key_for_transaction(TransactionId::from_u64(5)), vec![0xa0]),
            (b"/transactions_count".to_vec(), 1u64.to_be_bytes().to_vec()),
        ],
        vec![],
        Identity::from_bytes(vec![9]),
        0,
        vec![],
        vec![],
        vec![],
        false,
    );
    let mut ledger = r.unwrap();
    assert_eq!(ledger.nb_transactions(), 1);
    assert_eq!(ledger.mint(&identity(1), &mfk(), 1), Ok(()));
    let ids = |l: &LedgerStorage| -> Vec<Vec<u8>> {
        let mut it = l.iter(CborRange { start: TidBound::Unbounded, end: TidBound::Unbounded }, SortOrder::Ascending);
        let mut out = Vec::new();
        while let Some((k, _)) = it.next() {
            out.push(k);
        }
        out
    };
    assert_eq!(
        ids(&ledger),
        vec![key_for_transaction(TransactionId::from_u64(5)), key_for_transaction(TransactionId::from_u64(6))]
    );
}

#[test]
fn load_refuses_ids_beyond_the_height() {
    let r = LedgerStorage::load(
        vec![
            (key_for_transaction(TransactionId::from_u64((1u64 << 32) + 5)), vec![0xa0]),
            (b"/transactions_count".to_vec(), 1u64.to_be_bytes().to_vec()),
        ],
        vec![],
        Identity::from_bytes(vec![9]),
        0,
        vec![],
        vec![],
        vec![],
        false,
    );
    assert!(matches!(r, Err(LedgerError::Deserialization)));
    let r = LedgerStorage::load(
        vec![
            (key_for_transaction(TransactionId::from_u64((1u64 << 32) + 5)), vec![0xa0]),
            (b"/height".to_vec(), 1u64.to_be_bytes().to_vec()),
            (b"/transactions_count".to_vec(), 1u64.to_be_bytes().to_vec()),
        ],
        vec![],
        Identity::from_bytes(vec![9]),
        0,
        vec![],
        vec![],
        vec![],
        false,
    );
    assert!(r.is_ok());
}

#[test]
fn standalone_ledger_reloads_after_a_send() {
    let mut ledger = genesis(false);
    assert_eq!(ledger.send(&identity(1), &identity(2), &mfk(), 30), Ok(()));
    let mut entries: Vec<(Vec<u8>, Vec<u8>)> = Vec::new();
    for w in ledger.take_writes() {
        if let Op::Put(v) = w.op {
            entries.retain(|(k, _)| *k != w.key);
            entries.push((w.key, v));
        }
    }
    let mut loaded = LedgerStorage::load(
        entries,
        vec![(mfk(), "MyFirstKoin".to_string())],
        Identity::from_bytes(vec![9]),
        0,
        vec![],
        vec![],
        vec![],
        false,
    )
    .unwrap();
    assert_eq!(loaded.get_height(), 0);
    assert_eq!(loaded.get_balance(&identity(2), &mfk()), 30);
    assert_eq!(loaded.send(&identity(2), &identity(1), &mfk(), 5), Ok(()));
    assert_eq!(loaded.nb_transactions(), 2);
    let mut it = loaded.iter(
        CborRange { start: TidBound::Excluded(TransactionId::from_u64(1)), end: TidBound::Unbounded },
        SortOrder::Ascending,
    );
    let (k, _) = it.next().unwrap();
    assert_eq!(k, key_for_transaction(TransactionId::from_u64(2)));
}

#[test]
fn load_refuses_a_wrong_count() {
    let r = LedgerStorage::load(
        vec![
            (key_for_transaction(TransactionId::from_u64(5)), vec![0xa0]),
            (b"/height".to_vec(), 1u64.to_be_bytes().to_vec()),
            (b"/transactions_count".to_vec(), 2u64.to_be_bytes().to_vec()),
        ],
        vec![],
        Identity::from_bytes(vec![9]),
        0,
        vec![],
        vec![],
        vec![],
        false,
    );
    assert!(matches!(r, Err(LedgerError::Deserialization)));
}

#[test]
fn flush_clears_the_recorded_root() {
    let mut ledger = genesis(true);
    ledger.commit();
    ledger.record_root_hash(vec![1, 2, 3]);
    assert_eq!(ledger.hash(), vec![1, 2, 3]);
    assert_eq!(ledger.send(&identity(1), &identity(2), &mfk(), 5), Ok(()));
    ledger.take_writes();
    assert_eq!(ledger.hash(), Vec::<u8>::new());
}

#[test]
fn handed_out_writes_are_sorted_and_unique() {
    let mut ledger = genesis(true);
    assert_eq!(ledger.send(&identity(1), &identity(2), &mfk(), 1), Ok(()));
    assert_eq!(ledger.send(&identity(1), &identity(2), &mfk(), 1), Ok(()));
    let writes = ledger.commit();
    for pair in writes.windows(2) {
        assert!(pair[0].key < pair[1].key);
    }
    let balance_key = key_for_account(&identity(2), &mfk());
    let last = writes.iter().find(|w| w.key == balance_key).unwrap();
    assert!(matches!(&last.op, Op::Put(v) if *v == vec![2]));
}

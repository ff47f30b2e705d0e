use rpc_account_store::addr::Address;
use rpc_account_store::record::AccountRecord;
use rpc_account_store::store::{CommitmentLevel, Instruction, RpcAccountStore};

fn addr(b: u8) -> Address {
    Address::from_bytes(vec![b; 32]).unwrap()
}

fn record(balance: u64, data: Vec<u8>, owner: u8) -> AccountRecord {
    AccountRecord::new(balance, data, addr(owner), false, 7)
}

#[test]
fn defaults_are_strict_and_validating() {
    let store = RpcAccountStore::new();
    assert!(!store.allow_missing);
    assert!(store.validate_programs);
    assert!(store.commitment == CommitmentLevel::Confirmed);
    assert_eq!(store.cache.len(), 0);
}

#[test]
fn commitment_is_kept() {
    let store = RpcAccountStore::new_with_commitment(CommitmentLevel::Finalized);
    assert!(store.commitment == CommitmentLevel::Finalized);
}

#[test]
fn builder_flags_flip() {
    let store = RpcAccountStore::new().allow_missing_accounts().skip_program_validation();
    assert!(store.allow_missing);
    assert!(!store.validate_programs);
}

#[test]
fn missing_keys_dedups_and_skips_cached() {
    let mut store = RpcAccountStore::new();
    store.cache.put(addr(3), record(1, vec![], 9));
    let keys = vec![addr(1), addr(2), addr(1), addr(3), addr(2)];
    let missing = store.missing_keys(&keys);
    assert_eq!(missing.len(), 2);
    assert_eq!(missing[0].as_bytes(), addr(1).as_bytes());
    assert_eq!(missing[1].as_bytes(), addr(2).as_bytes());
}

#[test]
fn fetch_twice_is_a_no_op() {
    let mut store = RpcAccountStore::new();
    let keys = vec![addr(1), addr(2)];
    let missing = store.missing_keys(&keys);
    assert_eq!(missing.len(), 2);
    let results = vec![
        Some(record(10, vec![1, 2], 5)),
        Some(record(20, vec![3], 6)),
    ];
    store.store_fetch_results(&missing, &results).unwrap();
    // The same address set plans no further requests.
    let missing_again = store.missing_keys(&keys);
    assert_eq!(missing_again.len(), 0);
    // And the records read back unchanged.
    let r1 = store.cache.get(&addr(1)).unwrap();
    assert_eq!(r1.balance, 10);
    assert_eq!(r1.data, vec![1, 2]);
    let r2 = store.cache.get(&addr(2)).unwrap();
    assert_eq!(r2.balance, 20);
}

#[test]
fn strict_mode_fails_on_first_missing_account() {
    let mut store = RpcAccountStore::new();
    let keys = vec![addr(1), addr(2)];
    let results = vec![Some(record(10, vec![], 5)), None];
    let err = store.store_fetch_results(&keys, &results).unwrap_err();
    match err {
        rpc_account_store::errors::RpcError::AccountNotFound(a) => {
            assert_eq!(a.as_bytes(), addr(2).as_bytes());
        }
        other => panic!("unexpected error: {:?}", other),
    }
}

#[test]
fn permissive_mode_materializes_zero_records() {
    let mut store = RpcAccountStore::new().allow_missing_accounts();
    let keys = vec![addr(9)];
    let results = vec![None];
    store.store_fetch_results(&keys, &results).unwrap();
    let r = store.cache.get(&addr(9)).unwrap();
    assert_eq!(r.balance, 0);
    assert!(r.data.is_empty());
    assert_eq!(r.owner.as_bytes(), &vec![0u8; 32]);
    assert!(!r.executable);
    assert_eq!(r.metadata_epoch, 0);
}

#[test]
fn with_accounts_overwrites_whole_records() {
    let store = RpcAccountStore::new().with_accounts(&vec![
        (addr(1), record(10, vec![1], 5)),
        (addr(1), record(20, vec![2], 6)),
    ]);
    assert_eq!(store.cache.len(), 1);
    let r = store.cache.get(&addr(1)).unwrap();
    assert_eq!(r.balance, 20);
    assert_eq!(r.data, vec![2]);
}

#[test]
fn instruction_keys_keep_reference_order() {
    let ix = Instruction { accounts: vec![addr(5), addr(1), addr(5)] };
    let keys = rpc_account_store::store::instruction_keys(&ix);
    assert_eq!(keys.len(), 3);
    assert_eq!(keys[0].as_bytes(), addr(5).as_bytes());
    assert_eq!(keys[1].as_bytes(), addr(1).as_bytes());
    assert_eq!(keys[2].as_bytes(), addr(5).as_bytes());
}

#[test]
fn instructions_sharing_a_key_fetch_it_once() {
    let store = RpcAccountStore::new();
    let ixs = vec![
        Instruction { accounts: vec![addr(1), addr(2)] },
        Instruction { accounts: vec![addr(2), addr(3)] },
        Instruction { accounts: vec![addr(2)] },
    ];
    let keys = rpc_account_store::store::instructions_keys(&ixs);
    assert_eq!(keys.len(), 5);
    let missing = store.missing_keys(&keys);
    assert_eq!(missing.len(), 3);
    assert_eq!(missing[0].as_bytes(), addr(1).as_bytes());
    assert_eq!(missing[1].as_bytes(), addr(2).as_bytes());
    assert_eq!(missing[2].as_bytes(), addr(3).as_bytes());
}

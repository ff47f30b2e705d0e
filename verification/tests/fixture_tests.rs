use rpc_account_store::addr::Address;
use rpc_account_store::cache::AccountCache;
use rpc_account_store::errors::{FixtureReason, RpcError};
use rpc_account_store::fixture::{decode_fixture, encode_fixture, FixtureMeta};
use rpc_account_store::record::AccountRecord;

fn addr(b: u8) -> Address {
    Address::from_bytes(vec![b; 32]).unwrap()
}

#[test]
fn roundtrip_reproduces_every_record_exactly() {
    let mut cache = AccountCache::new();
    cache.put(addr(1), AccountRecord::new(17, vec![0, 255, 16, 9], addr(5), true, 99));
    cache.put(addr(2), AccountRecord::new(0, vec![], addr(6), false, 0));
    cache.put(addr(3), AccountRecord::new(u64::MAX, vec![42; 80], addr(7), true, u64::MAX));
    let meta = FixtureMeta {
        slot: None,
        timestamp: Some(1700000000),
        rpc_url: Some(b"https://example.invalid/rpc".to_vec()),
    };
    let bytes = encode_fixture(&meta, &cache);
    let (meta2, cache2) = decode_fixture(&bytes).unwrap();
    assert_eq!(meta2.slot, None);
    assert_eq!(meta2.timestamp, Some(1700000000));
    assert_eq!(meta2.rpc_url, Some(b"https://example.invalid/rpc".to_vec()));
    assert_eq!(cache2.len(), 3);
    for b in [1u8, 2, 3] {
        let orig = cache.get(&addr(b)).unwrap();
        let back = cache2.get(&addr(b)).unwrap();
        assert_eq!(back.balance, orig.balance);
        assert_eq!(back.data, orig.data);
        assert_eq!(back.owner.as_bytes(), orig.owner.as_bytes());
        assert_eq!(back.executable, orig.executable);
        assert_eq!(back.metadata_epoch, orig.metadata_epoch);
    }
}

#[test]
fn roundtrip_of_the_empty_cache() {
    let cache = AccountCache::new();
    let meta = FixtureMeta { slot: Some(5), timestamp: None, rpc_url: None };
    let bytes = encode_fixture(&meta, &cache);
    let (meta2, cache2) = decode_fixture(&bytes).unwrap();
    assert_eq!(meta2.slot, Some(5));
    assert_eq!(meta2.timestamp, None);
    assert_eq!(meta2.rpc_url, None);
    assert_eq!(cache2.len(), 0);
}

#[test]
fn encoding_is_the_documented_text() {
    let mut cache = AccountCache::new();
    cache.put(
        Address::from_bytes(vec![0x11; 32]).unwrap(),
        AccountRecord::new(5, vec![0xab, 0x00], Address::from_bytes(vec![0x22; 32]).unwrap(), true, 9),
    );
    let meta = FixtureMeta { slot: Some(12), timestamp: None, rpc_url: Some(b"u".to_vec()) };
    let bytes = encode_fixture(&meta, &cache);
    let expected = format!(
        "1\n12\n-\nu\n{} 5 qwA= {} 1 9\n",
        "11".repeat(32),
        "22".repeat(32)
    );
    assert_eq!(bytes, expected.into_bytes());
}

#[test]
fn version_two_is_rejected_outright() {
    let bytes = b"2\n-\n-\n-\n".to_vec();
    let err = decode_fixture(&bytes).unwrap_err();
    match err {
        RpcError::InvalidFixture(FixtureReason::UnsupportedVersion { version }) => {
            assert_eq!(version, 2);
        }
        other => panic!("unexpected error: {:?}", other),
    }
}

#[test]
fn garbage_is_malformed() {
    let bytes = b"hello world".to_vec();
    let err = decode_fixture(&bytes).unwrap_err();
    assert!(matches!(err, RpcError::InvalidFixture(FixtureReason::Malformed)));
}

#[test]
fn truncated_account_line_is_malformed() {
    let mut cache = AccountCache::new();
    cache.put(addr(1), AccountRecord::new(1, vec![1, 2], addr(5), false, 0));
    let meta = FixtureMeta { slot: None, timestamp: None, rpc_url: None };
    let mut bytes = encode_fixture(&meta, &cache);
    bytes.truncate(bytes.len() - 1);
    let err = decode_fixture(&bytes).unwrap_err();
    assert!(matches!(err, RpcError::InvalidFixture(FixtureReason::Malformed)));
}

#[test]
fn short_owner_text_is_malformed() {
    // A record line whose owner field holds two hex digits instead of 64.
    let line = format!(
        "1\n-\n-\n-\n{} 5 AA== aa 0 0\n",
        "11".repeat(32)
    );
    let err = decode_fixture(&line.into_bytes()).unwrap_err();
    assert!(matches!(err, RpcError::InvalidFixture(FixtureReason::Malformed)));
}

use hummock_core::conflict_detector::ConflictError;
use hummock_core::state_store::{HummockStateStore, HummockStateStoreIter};
use hummock_core::storage::HummockStorage;

fn put(k: &[u8], v: &[u8]) -> (Vec<u8>, Option<Vec<u8>>) {
    (k.to_vec(), Some(v.to_vec()))
}

fn delete(k: &[u8]) -> (Vec<u8>, Option<Vec<u8>>) {
    (k.to_vec(), None)
}

fn drain(mut it: HummockStateStoreIter) -> Vec<(Vec<u8>, Vec<u8>)> {
    let mut out = Vec::new();
    while let Some(kv) = it.next() {
        out.push(kv);
    }
    assert!(it.next().is_none());
    out
}

fn sample_store() -> HummockStateStore {
    let mut store = HummockStateStore::new(HummockStorage::new(false));
    store
        .ingest_batch(
            vec![
                put(b"ab", b"1"),
                put(b"aa", b"0"),
                put(b"abc", b"2"),
                put(b"ac", b"3"),
                put(b"b", b"4"),
                put(b"ab\xff", b"5"),
                delete(b"abd"),
            ],
            1,
        )
        .unwrap();
    store
}

#[test]
fn get_reads_latest_version() {
    let mut store = sample_store();
    assert_eq!(store.get(b"ab"), Some(b"1".to_vec()));
    assert_eq!(store.get(b"abd"), None);
    assert_eq!(store.get(b"zz"), None);
    store.ingest_batch(vec![delete(b"ab"), put(b"zz", b"9")], 2).unwrap();
    assert_eq!(store.get(b"ab"), None);
    assert_eq!(store.get(b"zz"), Some(b"9".to_vec()));
    // a write at an older epoch does not replace a newer version
    store.ingest_batch(vec![put(b"zz", b"old")], 1).unwrap();
    assert_eq!(store.get(b"zz"), Some(b"9".to_vec()));
}

#[test]
fn iter_yields_prefix_family_in_order() {
    let store = sample_store();
    let got = drain(store.iter(b"ab"));
    assert_eq!(
        got,
        vec![
            (b"ab".to_vec(), b"1".to_vec()),
            (b"abc".to_vec(), b"2".to_vec()),
            (b"ab\xff".to_vec(), b"5".to_vec()),
        ]
    );
    assert_eq!(drain(store.iter(b"q")), vec![]);
    assert_eq!(drain(store.iter(b"")).len(), 6);
}

#[test]
fn reverse_iter_walks_prefix_family_down() {
    let store = sample_store();
    assert_eq!(
        drain(store.reverse_iter(b"ab")),
        vec![
            (b"ab\xff".to_vec(), b"5".to_vec()),
            (b"abc".to_vec(), b"2".to_vec()),
            (b"ab".to_vec(), b"1".to_vec()),
        ]
    );
    assert_eq!(drain(store.reverse_iter(b"b")), vec![(b"b".to_vec(), b"4".to_vec())]);
    assert_eq!(drain(store.reverse_iter(b"q")), vec![]);
    let keys: Vec<Vec<u8>> = drain(store.reverse_iter(b"a")).into_iter().map(|(k, _)| k).collect();
    assert_eq!(
        keys,
        vec![
            b"ac".to_vec(),
            b"ab\xff".to_vec(),
            b"abc".to_vec(),
            b"ab".to_vec(),
            b"aa".to_vec(),
        ]
    );
}

#[test]
fn reverse_iter_skips_keys_outside_prefix() {
    let mut store = HummockStateStore::new(HummockStorage::new(false));
    store.ingest_batch(vec![put(b"ab", b"1")], 1).unwrap();
    assert_eq!(drain(store.reverse_iter(b"b")), vec![]);
    assert_eq!(drain(store.reverse_iter(b"ab")), vec![(b"ab".to_vec(), b"1".to_vec())]);
}

#[test]
fn ingest_keeps_batch_order_for_equal_keys() {
    let mut store = HummockStateStore::new(HummockStorage::new(false));
    store
        .ingest_batch(vec![put(b"k", b"first"), put(b"a", b"x"), put(b"k", b"second")], 3)
        .unwrap();
    assert_eq!(store.get(b"k"), Some(b"second".to_vec()));
}

#[test]
fn ingest_with_detection_refuses_conflicts() {
    let mut store = HummockStateStore::new(HummockStorage::new(true));
    store.ingest_batch(vec![put(b"key1", b"v")], 233).unwrap();
    assert_eq!(
        store.ingest_batch(vec![put(b"key2", b"w"), put(b"key1", b"again")], 233),
        Err(ConflictError::DuplicateKey { epoch: 233, key: b"key1".to_vec() })
    );
    // the refused batch wrote nothing
    assert_eq!(store.get(b"key1"), Some(b"v".to_vec()));
    assert_eq!(store.get(b"key2"), None);
    store.ingest_batch(vec![put(b"key1", b"next")], 234).unwrap();
    assert_eq!(store.get(b"key1"), Some(b"next".to_vec()));
}

use hummock_core::conflict_detector::{ConflictDetector, ConflictError};
use hummock_core::value::HummockValue;

fn delete_of(key: &str) -> (Vec<u8>, HummockValue) {
    (key.as_bytes().to_vec(), HummockValue::Delete)
}

#[test]
#[should_panic]
fn test_write_conflict_in_one_batch() {
    let mut detector = ConflictDetector::default();
    let batch: Vec<(Vec<u8>, HummockValue)> = (0..2).map(|_| delete_of("conflicted-key")).collect();
    detector
        .check_conflict_and_track_write_batch(batch.as_slice(), 233)
        .expect("conflict");
}

#[test]
#[should_panic]
fn test_write_conflict_in_multi_batch() {
    let mut detector = ConflictDetector::default();
    detector
        .check_conflict_and_track_write_batch(vec![delete_of("conflicted-key")].as_slice(), 233)
        .expect("first write");
    detector
        .check_conflict_and_track_write_batch(vec![delete_of("conflicted-key")].as_slice(), 233)
        .expect("conflict");
}

#[test]
fn test_valid_write_in_multi_batch() {
    let mut detector = ConflictDetector::default();
    detector
        .check_conflict_and_track_write_batch(vec![delete_of("key1")].as_slice(), 233)
        .unwrap();
    detector
        .check_conflict_and_track_write_batch(vec![delete_of("key2")].as_slice(), 233)
        .unwrap();
    detector.archive_epoch(233, Some(233)).unwrap();
    detector
        .check_conflict_and_track_write_batch(vec![delete_of("key1")].as_slice(), 234)
        .unwrap();
}

#[test]
#[should_panic]
fn test_write_to_archived_epoch() {
    let mut detector = ConflictDetector::default();
    detector
        .check_conflict_and_track_write_batch(vec![delete_of("key1")].as_slice(), 233)
        .unwrap();
    detector.archive_epoch(233, Some(233)).unwrap();
    detector
        .check_conflict_and_track_write_batch(vec![delete_of("key1")].as_slice(), 233)
        .expect("archived epoch");
}

#[test]
fn test_clear_key_after_epoch_archive() {
    let mut detector = ConflictDetector::default();
    detector
        .check_conflict_and_track_write_batch(vec![delete_of("key1")].as_slice(), 233)
        .unwrap();
    assert!(detector.written_key_count(233).unwrap() != 0);
    detector.archive_epoch(233, Some(233)).unwrap();
    assert!(detector.written_key_count(233).is_none());
}

#[test]
#[should_panic]
fn test_write_below_epoch_watermark() {
    let mut detector = ConflictDetector::default();
    detector
        .check_conflict_and_track_write_batch(vec![delete_of("key1")].as_slice(), 233)
        .unwrap();
    detector.archive_epoch(233, Some(233)).unwrap();
    detector
        .check_conflict_and_track_write_batch(vec![delete_of("key1")].as_slice(), 232)
        .expect("below watermark");
}

#[test]
fn duplicate_in_one_batch_names_the_key() {
    let mut detector = ConflictDetector::default();
    let batch = vec![delete_of("a"), delete_of("b"), delete_of("a")];
    let r = detector.check_conflict_and_track_write_batch(batch.as_slice(), 233);
    assert_eq!(
        r,
        Err(ConflictError::DuplicateKey { epoch: 233, key: b"a".to_vec() })
    );
    // the keys before the duplicate were recorded
    assert_eq!(detector.written_key_count(233), Some(2));
}

#[test]
fn duplicate_across_batches_is_refused() {
    let mut detector = ConflictDetector::default();
    detector
        .check_conflict_and_track_write_batch(vec![delete_of("key1")].as_slice(), 233)
        .unwrap();
    let r = detector.check_conflict_and_track_write_batch(vec![delete_of("key1")].as_slice(), 233);
    assert_eq!(
        r,
        Err(ConflictError::DuplicateKey { epoch: 233, key: b"key1".to_vec() })
    );
}

#[test]
fn same_key_in_two_epochs_is_accepted() {
    let mut detector = ConflictDetector::default();
    let put = (b"k".to_vec(), HummockValue::Put(b"v".to_vec()));
    assert_eq!(detector.check_conflict_and_track_write_batch(vec![put.clone()].as_slice(), 5), Ok(()));
    assert_eq!(detector.check_conflict_and_track_write_batch(vec![put].as_slice(), 6), Ok(()));
    assert_eq!(detector.written_key_count(5), Some(1));
    assert_eq!(detector.written_key_count(6), Some(1));
}

#[test]
fn empty_batch_opens_the_epoch() {
    let mut detector = ConflictDetector::default();
    assert_eq!(detector.written_key_count(7), None);
    detector.check_conflict_and_track_write_batch(&[], 7).unwrap();
    assert_eq!(detector.written_key_count(7), Some(0));
}

#[test]
fn archive_advances_watermark_and_closes_epochs() {
    let mut detector = ConflictDetector::default();
    assert_eq!(detector.get_epoch_watermark(), 0);
    detector
        .check_conflict_and_track_write_batch(vec![delete_of("key1")].as_slice(), 233)
        .unwrap();
    detector.archive_epoch(233, Some(233)).unwrap();
    assert_eq!(detector.get_epoch_watermark(), 232);
    assert_eq!(
        detector.check_conflict_and_track_write_batch(vec![delete_of("key1")].as_slice(), 233),
        Err(ConflictError::EpochArchived { epoch: 233 })
    );
    assert_eq!(
        detector.check_conflict_and_track_write_batch(vec![delete_of("key1")].as_slice(), 232),
        Err(ConflictError::EpochNotAboveWatermark { epoch: 232, watermark: 232 })
    );
    assert_eq!(
        detector.check_conflict_and_track_write_batch(vec![delete_of("x")].as_slice(), 100),
        Err(ConflictError::EpochNotAboveWatermark { epoch: 100, watermark: 232 })
    );
}

#[test]
fn archiving_twice_is_refused() {
    let mut detector = ConflictDetector::default();
    detector.archive_epoch(300, None).unwrap();
    assert_eq!(detector.get_epoch_watermark(), 0);
    assert_eq!(
        detector.archive_epoch(300, None),
        Err(ConflictError::EpochAlreadyArchived { epoch: 300 })
    );
    // a later epoch archived out of order stays closed after the watermark moves
    detector.archive_epoch(250, Some(250)).unwrap();
    assert_eq!(detector.get_epoch_watermark(), 249);
    assert_eq!(
        detector.archive_epoch(300, None),
        Err(ConflictError::EpochAlreadyArchived { epoch: 300 })
    );
    assert_eq!(
        detector.check_conflict_and_track_write_batch(vec![delete_of("k")].as_slice(), 300),
        Err(ConflictError::EpochArchived { epoch: 300 })
    );
    assert_eq!(
        detector.archive_epoch(249, None),
        Err(ConflictError::EpochNotAboveWatermark { epoch: 249, watermark: 249 })
    );
}

#[test]
fn archive_with_lower_first_epoch_is_a_regression() {
    let mut detector = ConflictDetector::default();
    detector.archive_epoch(100, Some(100)).unwrap();
    assert_eq!(detector.get_epoch_watermark(), 99);
    assert_eq!(
        detector.archive_epoch(150, Some(50)),
        Err(ConflictError::WatermarkRegression { watermark: 99, epoch: 49 })
    );
    assert_eq!(detector.get_epoch_watermark(), 99);
    // first_epoch - 1 equal to the watermark leaves it in place
    detector.archive_epoch(160, Some(100)).unwrap();
    assert_eq!(detector.get_epoch_watermark(), 99);
}

#[test]
fn set_watermark_only_moves_up() {
    let mut detector = ConflictDetector::default();
    assert_eq!(detector.set_watermark(10), Ok(()));
    assert_eq!(detector.get_epoch_watermark(), 10);
    assert_eq!(
        detector.set_watermark(10),
        Err(ConflictError::WatermarkRegression { watermark: 10, epoch: 10 })
    );
    assert_eq!(
        detector.set_watermark(3),
        Err(ConflictError::WatermarkRegression { watermark: 10, epoch: 3 })
    );
    assert_eq!(detector.get_epoch_watermark(), 10);
}

#[test]
fn detector_built_only_when_enabled() {
    assert!(ConflictDetector::new_from_config(false).is_none());
    let detector = ConflictDetector::new_from_config(true).unwrap();
    assert_eq!(detector.get_epoch_watermark(), 0);
}

#[test]
fn watermark_advance_drops_history_below_it() {
    let mut detector = ConflictDetector::default();
    detector
        .check_conflict_and_track_write_batch(vec![delete_of("key1")].as_slice(), 5)
        .unwrap();
    detector
        .check_conflict_and_track_write_batch(vec![delete_of("key1")].as_slice(), 12)
        .unwrap();
    detector.archive_epoch(10, Some(10)).unwrap();
    assert_eq!(detector.get_epoch_watermark(), 9);
    assert_eq!(detector.written_key_count(5), None);
    assert_eq!(detector.written_key_count(12), Some(1));
}

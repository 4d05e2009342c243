use image_layer::error::LayerError;
use image_layer::index::{Index, IndexEntry, INDEX_RECORD_SIZE};
use image_layer::repository::Key;
use image_layer::storage_layer::BlobRef;

fn key(last: u8) -> Key {
    let mut bytes = [0u8; 18];
    bytes[17] = last;
    Key { bytes }
}

fn record(k: Key, blob_ref: u64) -> Vec<u8> {
    let mut out = k.bytes.to_vec();
    out.extend_from_slice(&blob_ref.to_be_bytes());
    out
}

#[test]
fn empty_index_holds_nothing() {
    let index = Index::new();
    assert_eq!(index.len(), 0);
    assert_eq!(index.find(&key(1)), None);
    assert!(!index.contains_key(&key(1)));
    assert_eq!(index.as_slice(), &[]);
    assert_eq!(index.ser(), vec![0u8; 8]);
}

#[test]
fn index_finds_what_was_entered() {
    let mut index = Index::new();
    for last in [5u8, 1, 9, 3, 7] {
        assert!(index.insert(key(last), BlobRef(last as u64 * 100)));
    }
    assert_eq!(index.len(), 5);
    for last in [1u8, 3, 5, 7, 9] {
        assert_eq!(index.find(&key(last)), Some(BlobRef(last as u64 * 100)));
        assert!(index.contains_key(&key(last)));
    }
    for last in [0u8, 2, 4, 6, 8, 10] {
        assert_eq!(index.find(&key(last)), None);
        assert!(!index.contains_key(&key(last)));
    }
}

#[test]
fn index_keeps_the_first_reference_of_a_key() {
    let mut index = Index::new();
    assert!(index.insert(key(1), BlobRef(10)));
    assert!(!index.insert(key(1), BlobRef(20)));
    assert_eq!(index.len(), 1);
    assert_eq!(index.find(&key(1)), Some(BlobRef(10)));
}

#[test]
fn index_is_kept_in_the_order_of_the_keys() {
    let mut index = Index::new();
    for last in [5u8, 1, 9, 3, 7] {
        index.insert(key(last), BlobRef(0));
    }
    let keys: Vec<Key> = index.as_slice().iter().map(|e| e.key).collect();
    assert_eq!(keys, vec![key(1), key(3), key(5), key(7), key(9)]);
}

#[test]
fn index_is_stored_as_a_count_and_records() {
    let mut index = Index::new();
    index.insert(key(2), BlobRef(0x0102_0304_0506_0708));
    index.insert(key(1), BlobRef(17));
    let mut expected = vec![0, 0, 0, 0, 0, 0, 0, 2];
    expected.extend_from_slice(&record(key(1), 17));
    expected.extend_from_slice(&record(key(2), 0x0102_0304_0506_0708));
    assert_eq!(index.ser(), expected);
    assert_eq!(expected.len(), 8 + 2 * INDEX_RECORD_SIZE);
}

#[test]
fn stored_index_does_not_depend_on_the_order_of_entering() {
    let mut a = Index::new();
    let mut b = Index::new();
    for last in [1u8, 2, 3, 4] {
        a.insert(key(last), BlobRef(last as u64));
    }
    for last in [3u8, 1, 4, 2] {
        b.insert(key(last), BlobRef(last as u64));
    }
    assert_eq!(a.ser(), b.ser());
}

#[test]
fn index_round_trips() {
    let mut index = Index::new();
    for last in 0..200u8 {
        index.insert(key(last.wrapping_mul(37)), BlobRef(last as u64 * 2 + 1));
    }
    let read = Index::des(&index.ser()).unwrap();
    assert_eq!(read.as_slice(), index.as_slice());
    assert_eq!(read.len(), 200);
}

#[test]
fn stored_index_need_not_be_sorted() {
    let mut bytes = vec![0, 0, 0, 0, 0, 0, 0, 3];
    bytes.extend_from_slice(&record(key(9), 90));
    bytes.extend_from_slice(&record(key(1), 10));
    bytes.extend_from_slice(&record(key(5), 50));
    let index = Index::des(&bytes).unwrap();
    assert_eq!(index.len(), 3);
    assert_eq!(index.find(&key(1)), Some(BlobRef(10)));
    assert_eq!(index.find(&key(5)), Some(BlobRef(50)));
    assert_eq!(index.find(&key(9)), Some(BlobRef(90)));
    assert_eq!(index.find(&key(2)), None);
}

#[test]
fn what_follows_a_stored_index_is_not_looked_at() {
    let mut bytes = vec![0, 0, 0, 0, 0, 0, 0, 1];
    bytes.extend_from_slice(&record(key(1), 10));
    bytes.extend_from_slice(&[0xee; 100]);
    let index = Index::des(&bytes).unwrap();
    assert_eq!(index.len(), 1);
    assert_eq!(index.find(&key(1)), Some(BlobRef(10)));
}

#[test]
fn stored_index_with_a_key_twice_is_refused() {
    let mut bytes = vec![0, 0, 0, 0, 0, 0, 0, 3];
    bytes.extend_from_slice(&record(key(1), 10));
    bytes.extend_from_slice(&record(key(2), 20));
    bytes.extend_from_slice(&record(key(1), 10));
    assert!(matches!(Index::des(&bytes), Err(LayerError::Format)));
}

#[test]
fn stored_index_that_is_cut_short_is_refused() {
    let mut bytes = vec![0, 0, 0, 0, 0, 0, 0, 2];
    bytes.extend_from_slice(&record(key(1), 10));
    bytes.extend_from_slice(&record(key(2), 20));
    assert!(Index::des(&bytes).is_ok());
    assert!(matches!(Index::des(&bytes[..bytes.len() - 1]), Err(LayerError::Format)));
    assert!(matches!(Index::des(&bytes[..8]), Err(LayerError::Format)));
    assert!(matches!(Index::des(&bytes[..7]), Err(LayerError::Format)));
    assert!(matches!(Index::des(&[]), Err(LayerError::Format)));
}

#[test]
fn stored_index_with_an_absurd_count_is_refused() {
    let mut bytes = vec![0xff; 8];
    bytes.extend_from_slice(&record(key(1), 10));
    assert!(matches!(Index::des(&bytes), Err(LayerError::Format)));
    let mut bytes = vec![0x09, 0xd8, 0x9d, 0x89, 0xd8, 0x9d, 0x89, 0xd9];
    bytes.extend_from_slice(&record(key(1), 10));
    assert!(matches!(Index::des(&bytes), Err(LayerError::Format)));
}

#[test]
fn entries_are_listed_in_the_order_of_their_blobs() {
    let mut index = Index::new();
    index.insert(key(1), BlobRef::new(300, true));
    index.insert(key(2), BlobRef::new(100, true));
    index.insert(key(3), BlobRef::new(200, true));
    index.insert(key(4), BlobRef::new(100, true));
    let listed = index.by_offset();
    let offsets: Vec<u64> = listed.iter().map(|e| e.blob_ref.pos()).collect();
    assert_eq!(offsets, vec![100, 100, 200, 300]);
    let mut keys: Vec<Key> = listed.iter().map(|e| e.key).collect();
    assert_eq!(keys[2], key(3));
    assert_eq!(keys[3], key(1));
    keys.sort();
    assert_eq!(keys, vec![key(1), key(2), key(3), key(4)]);
    assert_eq!(
        listed[3],
        IndexEntry { key: key(1), blob_ref: BlobRef::new(300, true) }
    );
}

#[test]
fn cleared_index_holds_nothing() {
    let mut index = Index::new();
    index.insert(key(1), BlobRef(1));
    index.clear();
    assert_eq!(index.len(), 0);
    assert_eq!(index.find(&key(1)), None);
    assert!(index.insert(key(1), BlobRef(2)));
    assert_eq!(index.find(&key(1)), Some(BlobRef(2)));
}

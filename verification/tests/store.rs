use vesto::error::VestoError;
use vesto::store::file::load_would_panic;
use vesto::store::VestoStore;
use vesto::types::EntityId;

fn bits(v: &[f32]) -> Vec<u32> {
    v.iter().map(|x| x.to_bits()).collect()
}

#[test]
fn insert_hands_out_consecutive_ids_and_get_reads_back() {
    let mut store = VestoStore::new(2);
    let ids = store.insert(vec![bits(&[1.0, 2.0]), bits(&[3.0, 4.0])]).unwrap();
    assert_eq!(ids, vec![EntityId(0), EntityId(1)]);
    assert_eq!(store.next_id(), 2);
    let more = store.insert(vec![bits(&[5.0, 6.0])]).unwrap();
    assert_eq!(more, vec![EntityId(2)]);
    assert_eq!(store.get(&EntityId(1)), Some(bits(&[3.0, 4.0])));
    assert_eq!(store.get(&EntityId(2)), Some(bits(&[5.0, 6.0])));
    assert_eq!(store.get(&EntityId(7)), None);
    assert_eq!(store.len(), 3);
    assert_eq!(store.dim(), 2);
}

#[test]
fn insert_of_nothing_changes_nothing() {
    let mut store = VestoStore::new(2);
    let ids = store.insert(vec![]).unwrap();
    assert!(ids.is_empty());
    assert_eq!(store.next_id(), 0);
    assert_eq!(store.len(), 0);
}

#[test]
fn wrong_dimension_is_refused_without_storing() {
    let mut store = VestoStore::new(3);
    let r = store.insert(vec![bits(&[1.0, 2.0, 3.0]), bits(&[1.0]), bits(&[1.0, 2.0])]);
    match r {
        Err(VestoError::DimensionMismatch { expected, received }) => {
            assert_eq!(expected, 3);
            assert_eq!(received, 1);
        }
        _ => panic!("expected a dimension mismatch"),
    }
    assert_eq!(store.len(), 0);
    assert_eq!(store.next_id(), 0);
}

#[test]
fn saved_bytes_load_back() {
    let mut store = VestoStore::new(2);
    store.insert(vec![bits(&[1.5, -2.0]), bits(&[0.25, 8.0])]).unwrap();
    let bytes = store.save_to_bytes().unwrap();
    assert_eq!(&bytes[0..4], b"VSTO");
    assert_eq!(&bytes[4..8], &[1, 0, 0, 0]);
    assert_eq!(&bytes[8..16], &[2, 0, 0, 0, 0, 0, 0, 0]);
    assert_eq!(&bytes[16..24], &[2, 0, 0, 0, 0, 0, 0, 0]);
    assert!(!load_would_panic(&bytes));
    let loaded = VestoStore::load_from_bytes(&bytes).unwrap();
    assert_eq!(loaded.dim(), 2);
    assert_eq!(loaded.len(), 2);
    assert_eq!(loaded.next_id(), 2);
    assert_eq!(loaded.get(&EntityId(0)), Some(bits(&[1.5, -2.0])));
    assert_eq!(loaded.get(&EntityId(1)), Some(bits(&[0.25, 8.0])));
}

#[test]
fn loaded_store_keeps_handing_out_ids() {
    let mut store = VestoStore::new(1);
    store.insert(vec![bits(&[1.0])]).unwrap();
    let bytes = store.save_to_bytes().unwrap();
    let mut loaded = VestoStore::load_from_bytes(&bytes).unwrap();
    let ids = loaded.insert(vec![bits(&[2.0])]).unwrap();
    assert_eq!(ids, vec![EntityId(1)]);
}

#[test]
fn bad_magic_and_version_are_reported() {
    let mut store = VestoStore::new(1);
    store.insert(vec![bits(&[1.0])]).unwrap();
    let bytes = store.save_to_bytes().unwrap();
    let mut bad = bytes.clone();
    bad[0] = b'X';
    assert!(!load_would_panic(&bad));
    assert!(matches!(VestoStore::load_from_bytes(&bad), Err(VestoError::BadHeader)));
    let mut old = bytes.clone();
    old[4] = 2;
    assert!(matches!(VestoStore::load_from_bytes(&old), Err(VestoError::BadVersion)));
}

#[test]
fn truncated_files_are_detected() {
    let mut store = VestoStore::new(2);
    store.insert(vec![bits(&[1.0, 2.0])]).unwrap();
    let bytes = store.save_to_bytes().unwrap();
    assert!(load_would_panic(&bytes[..3]));
    assert!(load_would_panic(&bytes[..20]));
    assert!(load_would_panic(&bytes[..bytes.len() - 1]));
    assert!(!load_would_panic(b"ABCD"));
}

#[test]
fn unreadable_meta_is_reported() {
    // A meta whose id count runs past its end.
    let mut meta = b"VSTO".to_vec();
    meta.extend_from_slice(&1u32.to_le_bytes());
    meta.extend_from_slice(&1u64.to_le_bytes());
    meta.extend_from_slice(&0u64.to_le_bytes());
    meta.extend_from_slice(&1u64.to_le_bytes());
    meta.push(5);
    assert!(!load_would_panic(&meta));
    assert!(matches!(VestoStore::load_from_bytes(&meta), Err(VestoError::DeserializeError)));
}

#[test]
fn more_rows_than_ids_load_and_new_ids_take_the_next_row() {
    let mut store = VestoStore::new(1);
    store.insert(vec![bits(&[1.0])]).unwrap();
    let bytes = store.save_to_bytes().unwrap();
    // The header says two rows, the meta holds one id.
    let mut two_rows = bytes.clone();
    two_rows[16] = 2;
    two_rows.extend_from_slice(&7.0f32.to_le_bytes());
    let mut loaded = VestoStore::load_from_bytes(&two_rows).unwrap();
    assert_eq!(loaded.len(), 1);
    assert_eq!(loaded.get(&EntityId(0)), Some(bits(&[1.0])));
    let ids = loaded.insert(vec![bits(&[3.0])]).unwrap();
    assert_eq!(ids, vec![EntityId(1)]);
    // The new id is recorded at the row it was appended as, the third.
    assert_eq!(loaded.get(&EntityId(1)), Some(bits(&[3.0])));
    assert_eq!(loaded.len(), 2);
}

#[test]
fn more_ids_than_rows_load_and_later_rows_fill_them() {
    let mut store = VestoStore::new(1);
    store.insert(vec![bits(&[1.0]), bits(&[2.0])]).unwrap();
    let bytes = store.save_to_bytes().unwrap();
    // The header says one row, the meta holds two ids.
    let mut one_row = bytes[..bytes.len() - 4].to_vec();
    one_row[16] = 1;
    let mut loaded = VestoStore::load_from_bytes(&one_row).unwrap();
    assert_eq!(loaded.len(), 2);
    assert_eq!(loaded.get(&EntityId(0)), Some(bits(&[1.0])));
    // Id 1 is recorded at the second row, which the next insert appends.
    let ids = loaded.insert(vec![bits(&[5.0])]).unwrap();
    assert_eq!(ids, vec![EntityId(2)]);
    assert_eq!(loaded.get(&EntityId(1)), Some(bits(&[5.0])));
    assert_eq!(loaded.get(&EntityId(2)), Some(bits(&[5.0])));
}

#[test]
fn get_view_borrows_the_stored_row() {
    let mut store = VestoStore::new(2);
    let ids = store.insert(vec![bits(&[1.0, 2.0]), bits(&[3.0, 4.0])]).unwrap();
    assert_eq!(store.get_view(&ids[1]), Some(&bits(&[3.0, 4.0])));
    assert_eq!(store.get_view(&EntityId(7)), None);
}

#[test]
fn saved_meta_is_the_varint_pair_of_ids_and_next_id() {
    let mut store = VestoStore::new(1);
    let rows: Vec<Vec<u32>> = (0..130u32).map(|i| vec![i]).collect();
    store.insert(rows).unwrap();
    let bytes = store.save_to_bytes().unwrap();
    let meta_len = u64::from_le_bytes(bytes[24..32].try_into().unwrap()) as usize;
    let mut want: Vec<u8> = vec![0x82, 0x01];
    want.extend((0..128u8).collect::<Vec<u8>>());
    want.extend([0x80, 0x01, 0x81, 0x01, 0x82, 0x01]);
    assert_eq!(meta_len, want.len());
    assert_eq!(&bytes[32..32 + meta_len], &want[..]);
}

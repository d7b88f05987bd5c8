use virtual_array::metadata::SerializationError;
use virtual_array::{
    calc_page_size, ConstructError, MemStorage, Metadata, VirtualArray, VirtualArrayError,
};

fn signature() -> Vec<u8> {
    vec![b'V', b'M']
}

#[test]
fn zero_page_size_fails_before_any_io() {
    let r = Metadata::new::<u8>(signature(), 0, 10);
    assert!(matches!(r, Err(ConstructError::ZeroDataChunkSize)));
}

#[test]
fn page_smaller_than_one_item_fails() {
    let r = Metadata::new::<u64>(signature(), 4, 10);
    assert!(matches!(r, Err(ConstructError::SmallDataChunkSize)));
}

#[test]
fn valid_metadata_is_accepted() {
    let md = Metadata::new::<u64>(signature(), 20, 10).unwrap();
    assert_eq!(md.page_size, 20);
    assert_eq!(md.array_size, 10);
    assert_eq!(md.count_elements_on_page::<u64>(), 2);
}

#[test]
fn metadata_round_trips_through_storage() {
    let md = Metadata::new::<u32>(signature(), 64, 1000).unwrap();
    let mut storage = MemStorage::new();
    md.write(&mut storage).unwrap();
    let mut storage = MemStorage::from_bytes(storage.bytes().clone());
    let sig = signature();
    let back = Metadata::read::<MemStorage, u32>(&mut storage, sig.as_slice()).unwrap();
    assert_eq!(back.signature, signature());
    assert_eq!(back.page_size, 64);
    assert_eq!(back.array_size, 1000);
}

#[test]
fn open_with_wrong_signature_is_rejected() {
    let storage = MemStorage::new();
    let va = VirtualArray::<u8, MemStorage>::create_with_signature(
        storage,
        vec![b'X', b'Y'],
        10,
        1,
        4,
    )
    .unwrap();
    let storage = va.close().unwrap();
    let r = VirtualArray::<u8, MemStorage>::open(storage, 1);
    match r {
        Err(VirtualArrayError::MetadataSerializationError(
            SerializationError::InvalidSignature { expected, found },
        )) => {
            assert_eq!(expected, vec![b'V', b'M']);
            assert_eq!(found, vec![b'X', b'Y']);
        }
        other => panic!("expected a signature mismatch, got {:?}", other.is_ok()),
    }
}

#[test]
fn open_on_empty_storage_fails() {
    let r = VirtualArray::<u8, MemStorage>::open(MemStorage::new(), 1);
    assert!(r.is_err());
}

#[test]
fn page_size_rounds_up_to_item_size() {
    assert_eq!(calc_page_size::<u8>(20), 20);
    assert_eq!(calc_page_size::<u64>(20), 24);
    assert_eq!(calc_page_size::<u32>(512), 512);
    assert_eq!(calc_page_size::<u64>(0), 0);
}

#[test]
fn truncated_page_fails_on_first_access_not_at_open() {
    let storage = MemStorage::new();
    let mut va = VirtualArray::<u8, MemStorage>::create(storage, 40, 1, 20).unwrap();
    va.set(0, 9).unwrap();
    let storage = va.close().unwrap();

    // Keep the header but cut the page images short.
    let mut bytes = storage.bytes().clone();
    bytes.truncate(20);
    let truncated = MemStorage::from_bytes(bytes);

    // The header is intact, so the open itself succeeds...
    let mut va = VirtualArray::<u8, MemStorage>::open(truncated, 1).unwrap();
    // ...and the damage surfaces only when a page is first read.
    assert!(va.get(0).is_err());
}

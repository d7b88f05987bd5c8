use virtual_array::{
    BytePair, ConstructError, MemStorage, VirtualArray, VirtualArrayBuilder, VirtualArrayError,
};

#[test]
fn test_with_u8_items() {
    let storage = MemStorage::new();
    let mut va = VirtualArrayBuilder::from_storage(storage)
        .item_type::<u8>()
        .buffer_size(10)
        .create(40, 20)
        .unwrap();

    va.set(0, 123).unwrap();
    va.set(7, 123).unwrap();
    va.set(35, 99).unwrap();
    va.set(38, 1).unwrap();
    let storage = va.close().unwrap();

    let mut va = VirtualArrayBuilder::from_storage(storage)
        .item_type::<u8>()
        .buffer_size(10)
        .open()
        .unwrap();
    va.delete(35).unwrap();
    va.set(38, 15).unwrap();
    let storage = va.close().unwrap();

    let mut va = VirtualArrayBuilder::from_storage(storage)
        .item_type::<u8>()
        .buffer_size(10)
        .open()
        .unwrap();
    assert_eq!(va.get(0).unwrap(), Some(123));
    assert_eq!(va.get(7).unwrap(), Some(123));
    assert_eq!(va.get(35).unwrap(), None);
    assert_eq!(va.get(38).unwrap(), Some(15));
}

#[test]
fn test_with_struct_items() {
    let value_1 = BytePair { first: 5, second: 3 };
    let value_2 = BytePair { first: 11, second: 16 };

    let storage = MemStorage::new();
    let mut va = VirtualArrayBuilder::from_storage(storage)
        .item_type::<BytePair>()
        .buffer_size(1)
        .create(10, 18)
        .unwrap();
    for i in 0..10 {
        va.set(i, if i % 2 == 0 { value_1 } else { value_2 }).unwrap();
    }
    let storage = va.close().unwrap();

    let mut va = VirtualArrayBuilder::from_storage(storage)
        .item_type::<BytePair>()
        .buffer_size(1)
        .open()
        .unwrap();
    va.set(0, value_2).unwrap();
    va.delete(9).unwrap();
    let storage = va.close().unwrap();

    let mut va = VirtualArrayBuilder::from_storage(storage)
        .item_type::<BytePair>()
        .buffer_size(1)
        .open()
        .unwrap();
    assert_eq!(va.get(0).unwrap(), Some(value_2));
    assert_eq!(va.get(9).unwrap(), None);
    for i in 1..9 {
        assert_eq!(
            va.get(i).unwrap(),
            Some(if i % 2 == 0 { value_1 } else { value_2 })
        );
    }
}

#[test]
fn test_with_u32_items() {
    let storage = MemStorage::new();
    let mut va = VirtualArray::<u32, MemStorage>::create(storage, 2048, 3, 512).unwrap();
    va.set(0, 1).unwrap();
    va.set(13, 2).unwrap();
    va.set(0, 3).unwrap();
    va.set(512, 4).unwrap();
    va.set(1024, 5).unwrap();
    va.set(2047, 7).unwrap();
    let storage = va.close().unwrap();

    let mut va = VirtualArray::<u32, MemStorage>::open(storage, 3).unwrap();
    va.delete(1024).unwrap();
    let storage = va.close().unwrap();

    let mut va = VirtualArray::<u32, MemStorage>::open(storage, 3).unwrap();
    assert_eq!(va.get(0).unwrap(), Some(3));
    assert_eq!(va.get(13).unwrap(), Some(2));
    assert_eq!(va.get(512).unwrap(), Some(4));
    assert_eq!(va.get(1024).unwrap(), None);
    assert_eq!(va.get(2047).unwrap(), Some(7));
}

#[test]
fn eviction_with_single_page_buffer_keeps_values() {
    // One resident page only: touching another page forces eviction with
    // write-back, and the evicted value must survive.
    let storage = MemStorage::new();
    let mut va = VirtualArray::<u8, MemStorage>::create(storage, 40, 1, 20).unwrap();
    va.set(0, 123).unwrap();
    va.set(35, 99).unwrap();
    assert_eq!(va.get(0).unwrap(), Some(123));
    assert_eq!(va.get(35).unwrap(), Some(99));
}

#[test]
fn tombstone_survives_eviction_and_reopen() {
    let storage = MemStorage::new();
    let mut va = VirtualArray::<u8, MemStorage>::create(storage, 40, 1, 20).unwrap();
    va.set(3, 42).unwrap();
    va.delete(3).unwrap();
    // Force the page out of the cache and back.
    va.set(35, 1).unwrap();
    assert_eq!(va.get(3).unwrap(), None);
    let storage = va.close().unwrap();
    let mut va = VirtualArray::<u8, MemStorage>::open(storage, 1).unwrap();
    assert_eq!(va.get(3).unwrap(), None);
}

#[test]
fn open_twice_reads_the_same_elements() {
    let storage = MemStorage::new();
    let mut va = VirtualArray::<u8, MemStorage>::create(storage, 16, 2, 4).unwrap();
    va.set(1, 11).unwrap();
    va.set(9, 99).unwrap();
    va.delete(1).unwrap();
    let storage = va.close().unwrap();
    let bytes = storage.bytes().clone();

    let mut first = VirtualArray::<u8, MemStorage>::open(MemStorage::from_bytes(bytes.clone()), 2).unwrap();
    let mut second = VirtualArray::<u8, MemStorage>::open(MemStorage::from_bytes(bytes), 2).unwrap();
    for i in 0..16 {
        assert_eq!(first.get(i).unwrap(), second.get(i).unwrap());
    }
    assert_eq!(second.get(9).unwrap(), Some(99));
    assert_eq!(second.get(1).unwrap(), None);
}

#[test]
fn overwriting_keeps_the_last_value() {
    let storage = MemStorage::new();
    let mut va = VirtualArray::<u8, MemStorage>::create(storage, 8, 1, 4).unwrap();
    va.set(5, 1).unwrap();
    va.set(5, 2).unwrap();
    va.set(5, 3).unwrap();
    assert_eq!(va.get(5).unwrap(), Some(3));
    let storage = va.close().unwrap();
    let mut va = VirtualArray::<u8, MemStorage>::open(storage, 1).unwrap();
    assert_eq!(va.get(5).unwrap(), Some(3));
}

#[test]
fn element_aliases_behave_like_the_short_names() {
    let storage = MemStorage::new();
    let mut va = VirtualArray::<u32, MemStorage>::create(storage, 12, 2, 8).unwrap();
    va.set_element(4, 444).unwrap();
    assert_eq!(va.get_element(4).unwrap(), Some(444));
    va.remove_element(4).unwrap();
    assert_eq!(va.get_element(4).unwrap(), None);
}

#[test]
fn custom_signature_round_trips() {
    let storage = MemStorage::new();
    let mut va = VirtualArrayBuilder::from_storage(storage)
        .item_type::<u8>()
        .signature(vec![b'A', b'B', b'C'])
        .buffer_size(2)
        .create(6, 3)
        .unwrap();
    va.set(5, 55).unwrap();
    let storage = va.close().unwrap();
    let mut va = VirtualArrayBuilder::from_storage(storage)
        .item_type::<u8>()
        .signature(vec![b'A', b'B', b'C'])
        .buffer_size(2)
        .open()
        .unwrap();
    assert_eq!(va.get(5).unwrap(), Some(55));
    assert_eq!(va.get(0).unwrap(), None);
}

#[test]
fn zero_page_size_fails_at_create() {
    let storage = MemStorage::new();
    let r = VirtualArray::<u8, MemStorage>::create(storage, 10, 1, 0);
    assert!(matches!(
        r,
        Err(VirtualArrayError::ConstructMetadataError(
            ConstructError::ZeroDataChunkSize
        ))
    ));
}

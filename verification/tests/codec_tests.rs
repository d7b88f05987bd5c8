use virtual_array::{
    calc_bitmap_byte_size, get_page_offset, Bitmap, BytePair, DataChunk, DefaultSerializer,
    Item, MemStorage, Metadata, Page, PageError,
};

#[test]
fn integers_encode_little_endian() {
    assert_eq!(0x0403_0201u32.encode(), vec![1, 2, 3, 4]);
    assert_eq!(0xffu8.encode(), vec![0xff]);
    assert_eq!(
        0x0807_0605_0403_0201u64.encode(),
        vec![1, 2, 3, 4, 5, 6, 7, 8]
    );
    assert_eq!(BytePair { first: 9, second: 7 }.encode(), vec![9, 7]);
}

#[test]
fn decode_inverts_encode() {
    let v = 0xdead_beefu32;
    assert_eq!(u32::decode(v.encode().as_slice()), v);
    let w = 0x0123_4567_89ab_cdefu64;
    assert_eq!(u64::decode(w.encode().as_slice()), w);
    let p = BytePair { first: 200, second: 100 };
    assert_eq!(BytePair::decode(p.encode().as_slice()), p);
    assert_eq!(u8::decode(&[42]), 42);
}

#[test]
fn bitmap_tracks_bits() {
    assert_eq!(calc_bitmap_byte_size(0), 0);
    assert_eq!(calc_bitmap_byte_size(8), 1);
    assert_eq!(calc_bitmap_byte_size(9), 2);
    assert_eq!(calc_bitmap_byte_size(20), 3);

    let mut bitmap = Bitmap::zeroed(20);
    assert_eq!(bitmap.elements_count(), 20);
    assert_eq!(bitmap.bytes().len(), 3);
    assert!(!bitmap.get(0));
    bitmap.set(0);
    bitmap.set(9);
    bitmap.set(19);
    assert!(bitmap.get(0));
    assert!(bitmap.get(9));
    assert!(bitmap.get(19));
    assert!(!bitmap.get(1));
    bitmap.unset(9);
    assert!(!bitmap.get(9));
    assert!(bitmap.get(0));
}

#[test]
fn bitmap_bytes_round_trip_through_storage() {
    let mut bitmap = Bitmap::zeroed(12);
    bitmap.set(2);
    bitmap.set(11);
    let mut storage = MemStorage::new();
    bitmap.write(&mut storage).unwrap();
    let mut storage = MemStorage::from_bytes(storage.bytes().clone());
    let back = Bitmap::read(12, &mut storage).unwrap();
    assert_eq!(back.bytes(), bitmap.bytes());
    assert!(back.get(2));
    assert!(back.get(11));
    assert!(!back.get(3));
}

#[test]
fn page_rejects_mismatched_bitmap() {
    let items: Vec<u8> = vec![0; 20];
    let chunk = DataChunk::from_items(items);
    let bitmap = Bitmap::zeroed(8);
    let r = Page::new(0, bitmap, chunk);
    assert!(matches!(r, Err(PageError::BitmapTooSmall { .. })));
}

#[test]
fn page_set_get_remove() {
    let mut page = Page::<u8>::zeroed(0, 8);
    assert_eq!(page.get(3), None);
    page.set(3, 77);
    assert_eq!(page.get(3), Some(77));
    assert!(page.should_be_saved());
    page.remove(3);
    assert_eq!(page.get(3), None);
}

#[test]
fn page_round_trips_through_storage() {
    let mut page = Page::<u32>::zeroed(2, 5);
    page.set(0, 10);
    page.set(4, 50);
    let mut storage = MemStorage::new();
    DefaultSerializer::serialize(&mut storage, &page).unwrap();
    let mut storage = MemStorage::from_bytes(storage.bytes().clone());
    let back: Page<u32> = DefaultSerializer::deserialize(&mut storage, 2, 5).unwrap();
    assert_eq!(back.get(0), Some(10));
    assert_eq!(back.get(1), None);
    assert_eq!(back.get(4), Some(50));
}

#[test]
fn zeroed_page_image_reads_as_all_absent() {
    let mut storage = MemStorage::new();
    DefaultSerializer::serialize_zeroed::<MemStorage, u32>(&mut storage, 5).unwrap();
    // 5 items of 4 bytes, then 1 bitmap byte.
    assert_eq!(storage.bytes().len(), 21);
    let mut storage = MemStorage::from_bytes(storage.bytes().clone());
    let back: Page<u32> = DefaultSerializer::deserialize(&mut storage, 0, 5).unwrap();
    for i in 0..5 {
        assert_eq!(back.get(i), None);
    }
}

#[test]
fn page_sizes_and_offsets() {
    assert_eq!(DefaultSerializer::get_page_size_in_bytes::<u8>(20), 23);
    let md = Metadata::new::<u8>(vec![b'V', b'M'], 20, 40).unwrap();
    assert_eq!(get_page_offset::<u8>(0, &md), Some(18));
    assert_eq!(get_page_offset::<u8>(1, &md), Some(41));
    assert_eq!(get_page_offset::<u8>(2, &md), Some(64));
}

#[test]
fn element_index_translation() {
    let va = VirtualArrayScaffold::new();
    for i in [0usize, 1, 19, 20, 21, 39] {
        let p = va.array.get_page_index(i);
        let s = va.array.get_index_on_page(i);
        assert_eq!(p * 20 + s, i);
        assert!(s < 20);
    }
}

struct VirtualArrayScaffold {
    array: virtual_array::VirtualArray<u8, MemStorage>,
}

impl VirtualArrayScaffold {
    fn new() -> Self {
        let storage = MemStorage::new();
        let array = virtual_array::VirtualArray::<u8, MemStorage>::create(storage, 40, 2, 20)
            .unwrap();
        VirtualArrayScaffold { array }
    }
}

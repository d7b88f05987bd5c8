use vstd::prelude::*;
use crate::bitmap::{
    bit_at, calc_bitmap_byte_size, spec_bit, spec_bitmap_byte_size, Bitmap,
};
use crate::item::Item;
use crate::page::{DataChunk, Page, PageError};
use crate::storage::{
    byte_at, byte_at_off, lemma_subrange_of_subrange, splice_write, zero_bytes, Storage,
    StorageError,
};

verus! {

/// Moving a page between its in-memory form and its on-disk bytes failed:
/// the resource failed, or the bytes do not assemble into a page.
#[derive(Debug)]
pub enum SerializationError {
    IoError(StorageError),
    PageError(PageError),
}

/// The data area of a page: the encoded bytes of every slot, back to back,
/// with no per-item framing.
pub open spec fn items_bytes<T: Item>(items: Seq<T>) -> Seq<u8>
    decreases items.len(),
{
    if items.len() == 0 {
        Seq::<u8>::empty()
    } else {
        items_bytes(items.drop_last()) + items.last().enc()
    }
}

pub proof fn lemma_items_bytes_len<T: Item>(items: Seq<T>)
    ensures
        items_bytes(items).len() == items.len() * T::size_spec(),
    decreases items.len(),
{
    if items.len() == 0 {
    } else {
        lemma_items_bytes_len::<T>(items.drop_last());
        T::lemma_enc(items.last(), items.last());
        assert((items.len() - 1) * T::size_spec() + T::size_spec() == items.len()
            * T::size_spec()) by (nonlinear_arith);
    }
}

/// Byte `s * k + m` of the data area is byte `m` of the encoding of slot
/// `s`.
pub proof fn lemma_items_bytes_index<T: Item>(items: Seq<T>, j: int, m: int)
    requires
        0 <= j < items.len(),
        0 <= m < T::size_spec(),
    ensures
        items_bytes(items)[j * T::size_spec() + m] == items[j].enc()[m],
    decreases items.len(),
{
    let k = T::size_spec() as int;
    let n = items.len() as int;
    lemma_items_bytes_len::<T>(items);
    lemma_items_bytes_len::<T>(items.drop_last());
    T::lemma_enc(items.last(), items.last());
    if j == n - 1 {
        assert(j * k + m - (n - 1) * k == m) by (nonlinear_arith)
            requires
                j == n - 1,
        ;
        assert(items_bytes(items)[j * k + m] == items.last().enc()[m]);
    } else {
        lemma_items_bytes_index::<T>(items.drop_last(), j, m);
        assert(j * k + m < (n - 1) * k) by (nonlinear_arith)
            requires
                0 <= j < n - 1,
                0 <= m < k,
        ;
        assert(0 <= j * k + m) by (nonlinear_arith)
            requires
                0 <= j,
                0 <= m,
                k >= 1,
        ;
        assert(items.drop_last()[j] == items[j]);
        assert(items_bytes(items)[j * k + m] == items_bytes(items.drop_last())[j * k + m]);
    }
}

/// The full on-disk image of a page: the data area, then the bitmap bytes.
pub open spec fn spec_page_bytes<T: Item>(pg: Page<T>) -> Seq<u8> {
    items_bytes(pg.spec_items()) + pg.spec_bitmap().spec_bytes()
}

/// Byte length of one page on disk, for `e` elements of `k` bytes.
pub open spec fn spec_page_size_in_bytes(e: int, k: int) -> int {
    e * k + spec_bitmap_byte_size(e)
}

/// The bytes of slot `s` of the page image at `at`.
pub open spec fn disk_slot_bytes(c: Seq<u8>, at: int, k: int, s: int) -> Seq<u8> {
    Seq::new(k as nat, |m: int| byte_at(c, at + s * k + m))
}

/// The presence flag of slot `s` of the page image at `at`, read out of the
/// bitmap bytes that follow the data area.
pub open spec fn disk_slot_present(c: Seq<u8>, at: int, e: int, k: int, s: int) -> bool {
    spec_bit(byte_at(c, at + e * k + s / 8), s % 8)
}

/// What the page image at `at` holds, slot by slot, as `Page::slots` reads
/// it: encoded bytes where the flag is set, absence where it is clear.
pub open spec fn disk_page_slots(c: Seq<u8>, at: int, e: int, k: int) -> Seq<
    Option<Seq<u8>>,
> {
    Seq::new(
        e as nat,
        |s: int|
            if disk_slot_present(c, at, e, k, s) {
                Some(disk_slot_bytes(c, at, k, s))
            } else {
                None
            },
    )
}

/// Every byte a slot reads lies inside the page image.
pub proof fn lemma_slot_in_page(e: int, k: int, s: int)
    requires
        0 <= s < e,
        k >= 1,
    ensures
        0 <= s * k,
        s * k + k <= e * k,
        0 <= s / 8 < spec_bitmap_byte_size(e),
        0 <= s % 8 < 8,
{
    assert(0 <= s * k && s * k + k <= e * k) by (nonlinear_arith)
        requires
            0 <= s < e,
            k >= 1,
    ;
    assert(0 <= s / 8 < spec_bitmap_byte_size(e)) by (nonlinear_arith)
        requires
            0 <= s < e,
    ;
}

/// Two byte runs that agree over a page image hold the same page.
pub proof fn lemma_disk_page_slots_agree(c1: Seq<u8>, c2: Seq<u8>, at1: int, at2: int, e: int, k: int)
    requires
        e >= 0,
        k >= 1,
        forall|d: int|
            0 <= d < spec_page_size_in_bytes(e, k) ==> #[trigger] byte_at_off(c1, at1, d)
                == byte_at_off(c2, at2, d),
    ensures
        disk_page_slots(c1, at1, e, k) == disk_page_slots(c2, at2, e, k),
{
    assert forall|s: int| 0 <= s < e implies disk_page_slots(c1, at1, e, k)[s]
        == disk_page_slots(c2, at2, e, k)[s] by {
        lemma_slot_in_page(e, k, s);
        assert(byte_at_off(c1, at1, e * k + s / 8) == byte_at_off(c2, at2, e * k + s / 8));
        assert(disk_slot_present(c1, at1, e, k, s) == disk_slot_present(c2, at2, e, k, s));
        assert forall|m: int| 0 <= m < k implies disk_slot_bytes(c1, at1, k, s)[m]
            == disk_slot_bytes(c2, at2, k, s)[m] by {
            assert(byte_at_off(c1, at1, s * k + m) == byte_at_off(c2, at2, s * k + m));
        }
        assert(disk_slot_bytes(c1, at1, k, s) =~= disk_slot_bytes(c2, at2, k, s));
    }
    assert(disk_page_slots(c1, at1, e, k) =~= disk_page_slots(c2, at2, e, k));
}

/// A byte run holding the image of a well-formed page reads back as exactly
/// that page's slots.
pub proof fn lemma_page_image<T: Item>(c: Seq<u8>, at: int, pg: Page<T>, e: int)
    requires
        pg.wf(),
        pg.spec_len() == e,
        T::size_spec() >= 1,
        forall|d: int|
            0 <= d < spec_page_size_in_bytes(e, T::size_spec() as int) ==> #[trigger] byte_at_off(
                c,
                at,
                d,
            ) == spec_page_bytes(pg)[d],
    ensures
        disk_page_slots(c, at, e, T::size_spec() as int) == pg.slots(),
{
    let k = T::size_spec() as int;
    let items = pg.spec_items();
    let bm = pg.spec_bitmap().spec_bytes();
    lemma_items_bytes_len::<T>(items);
    assert(spec_page_bytes(pg).len() == e * k + bm.len());
    assert forall|s: int| 0 <= s < e implies disk_page_slots(c, at, e, k)[s] == pg.slots()[s]
        by {
        lemma_slot_in_page(e, k, s);
        // The presence flag comes from the bitmap byte after the data area.
        assert(spec_page_bytes(pg)[e * k + s / 8] == bm[s / 8]);
        assert(byte_at_off(c, at, e * k + s / 8) == spec_page_bytes(pg)[e * k + s / 8]);
        assert(disk_slot_present(c, at, e, k, s) == bit_at(bm, s));
        assert(pg.spec_bitmap().bits()[s] == bit_at(bm, s));
        if pg.spec_bitmap().bits()[s] {
            // The slot bytes come from the data area.
            T::lemma_enc(items[s], items[s]);
            assert forall|m: int| 0 <= m < k implies disk_slot_bytes(c, at, k, s)[m]
                == items[s].enc()[m] by {
                lemma_items_bytes_index::<T>(items, s, m);
                assert(byte_at_off(c, at, s * k + m) == spec_page_bytes(pg)[s * k + m]);
                assert(spec_page_bytes(pg)[s * k + m] == items_bytes(items)[s * k + m]);
            }
            assert(disk_slot_bytes(c, at, k, s) =~= items[s].enc());
        }
    }
    assert(disk_page_slots(c, at, e, k) =~= pg.slots());
}

/// A byte run that is zero over a page image holds a page with every slot
/// absent.
pub proof fn lemma_zero_page_image(c: Seq<u8>, at: int, e: int, k: int)
    requires
        e >= 0,
        k >= 1,
        forall|d: int|
            0 <= d < spec_page_size_in_bytes(e, k) ==> #[trigger] byte_at_off(c, at, d) == 0u8,
    ensures
        disk_page_slots(c, at, e, k) == Seq::new(e as nat, |s: int| None::<Seq<u8>>),
{
    assert forall|s: int| 0 <= s < e implies !disk_slot_present(c, at, e, k, s) by {
        lemma_slot_in_page(e, k, s);
        assert(byte_at_off(c, at, e * k + s / 8) == 0u8);
        crate::bitmap::lemma_spec_bit_zero(s % 8);
    }
    assert(disk_page_slots(c, at, e, k) =~= Seq::new(e as nat, |s: int| None::<Seq<u8>>));
}

/// The binary page codec: a page is its raw slot bytes followed by its raw
/// bitmap bytes.
pub struct DefaultSerializer;

impl DefaultSerializer {
    /// Emit a page's image at the storage cursor, as one write.
    pub fn serialize<S: Storage, T: Item>(storage: &mut S, page: &Page<T>) -> (r: Result<
        (),
        SerializationError,
    >)
        requires
            page.wf(),
        ensures
            r is Ok ==> {
                &&& 0 <= old(storage).cursor()
                &&& final(storage).contents() == splice_write(
                    old(storage).contents(),
                    old(storage).cursor(),
                    spec_page_bytes(*page),
                )
                &&& final(storage).cursor() == old(storage).cursor() + spec_page_bytes(
                    *page,
                ).len()
            },
            r is Err ==> final(storage).contents() == old(storage).contents(),
    {
        let count = page.slot_count();
        let mut buffer: Vec<u8> = Vec::new();
        let mut j: usize = 0;
        while j < count
            invariant
                j <= count,
                count == page.spec_items().len(),
                buffer@ == items_bytes(page.spec_items().subrange(0, j as int)),
            decreases count - j,
        {
            let bytes = page.item_at(j).encode();
            buffer.extend_from_slice(bytes.as_slice());
            j = j + 1;
            proof {
                let pre = page.spec_items().subrange(0, j - 1);
                let now = page.spec_items().subrange(0, j as int);
                assert(now.drop_last() =~= pre);
                assert(now.last() == page.spec_items()[j - 1]);
            }
        }
        proof {
            assert(page.spec_items().subrange(0, count as int) =~= page.spec_items());
        }
        buffer.extend_from_slice(page.bitmap_bytes());
        proof {
            assert(buffer@ =~= spec_page_bytes(*page));
        }
        match storage.write_all(buffer.as_slice()) {
            Ok(_) => Ok(()),
            Err(e) => Err(SerializationError::IoError(e)),
        }
    }

    /// Emit an all-zero page image at the storage cursor, without building a
    /// page: the fast path for initial allocation.
    pub fn serialize_zeroed<S: Storage, T: Item>(storage: &mut S, count_of_elements: usize) -> (r:
        Result<(), SerializationError>)
        requires
            count_of_elements * T::size_spec() + spec_bitmap_byte_size(
                count_of_elements as int,
            ) <= usize::MAX,
        ensures
            r is Ok ==> {
                &&& 0 <= old(storage).cursor()
                &&& final(storage).contents() == splice_write(
                    old(storage).contents(),
                    old(storage).cursor(),
                    zero_bytes(
                        spec_page_size_in_bytes(
                            count_of_elements as int,
                            T::size_spec() as int,
                        ) as nat,
                    ),
                )
                &&& final(storage).cursor() == old(storage).cursor()
                    + spec_page_size_in_bytes(
                    count_of_elements as int,
                    T::size_spec() as int,
                )
            },
            r is Err ==> final(storage).contents() == old(storage).contents(),
    {
        let size = T::byte_size();
        proof {
            assert(count_of_elements * size == count_of_elements * T::size_spec());
        }
        let data_len = count_of_elements * size;
        let total = data_len + calc_bitmap_byte_size(count_of_elements);
        let mut buffer: Vec<u8> = Vec::new();
        let mut j: usize = 0;
        while j < total
            invariant
                j <= total,
                buffer@.len() == j,
                forall|x: int| 0 <= x < j ==> buffer@[x] == 0u8,
            decreases total - j,
        {
            buffer.push(0u8);
            j = j + 1;
        }
        proof {
            assert(buffer@ =~= zero_bytes(
                spec_page_size_in_bytes(
                    count_of_elements as int,
                    T::size_spec() as int,
                ) as nat,
            ));
        }
        match storage.write_all(buffer.as_slice()) {
            Ok(_) => Ok(()),
            Err(e) => Err(SerializationError::IoError(e)),
        }
    }

    /// Read a page image back from the storage cursor: the inverse of
    /// `serialize`.  The slot count comes from the validated header, so the
    /// read bytes always assemble into a page; the one failure is the
    /// resource itself, on a short read.
    pub fn deserialize<S: Storage, T: Item>(
        storage: &mut S,
        page_index: usize,
        count_of_elements_on_page: usize,
    ) -> (r: Result<Page<T>, SerializationError>)
        requires
            count_of_elements_on_page * T::size_spec() <= usize::MAX,
        ensures
            final(storage).contents() == old(storage).contents(),
            r is Err ==> r matches Err(SerializationError::IoError(_)),
            r is Ok ==> {
                &&& r.unwrap().wf()
                &&& r.unwrap().spec_len() == count_of_elements_on_page
                &&& r.unwrap().spec_index() == page_index
                &&& r.unwrap().spec_time() == 0
                &&& !r.unwrap().spec_modified()
                &&& 0 <= old(storage).cursor()
                &&& old(storage).cursor() + spec_page_size_in_bytes(
                    count_of_elements_on_page as int,
                    T::size_spec() as int,
                ) <= old(storage).contents().len()
                &&& r.unwrap().slots() == disk_page_slots(
                    old(storage).contents(),
                    old(storage).cursor(),
                    count_of_elements_on_page as int,
                    T::size_spec() as int,
                )
                &&& final(storage).cursor() == old(storage).cursor()
                    + spec_page_size_in_bytes(
                    count_of_elements_on_page as int,
                    T::size_spec() as int,
                )
            },
    {
        let e = count_of_elements_on_page;
        let ghost k = T::size_spec() as int;
        let ghost c = old(storage).contents();
        let ghost at = old(storage).cursor();
        let data_chunk = match Self::deserialize_data_chunk::<S, T>(storage, e) {
            Ok(d) => d,
            Err(err) => {
                return Err(err);
            },
        };
        let bitmap = match Self::deserialize_bitmap(storage, e) {
            Ok(b) => b,
            Err(err) => {
                return Err(err);
            },
        };
        let page = match Page::new(page_index, bitmap, data_chunk) {
            Ok(p) => p,
            Err(err) => {
                // The bitmap was read with exactly the packed size for the
                // slot count, so assembly cannot fail.
                proof {
                    assert(false);
                }
                return Err(SerializationError::PageError(err));
            },
        };
        proof {
            T::lemma_enc(arbitrary(), arbitrary());
            assert forall|s: int| 0 <= s < e implies page.slots()[s] == disk_page_slots(
                c,
                at,
                e as int,
                k,
            )[s] by {
                lemma_slot_in_page(e as int, k, s);
                assert(bitmap.spec_bytes()[s / 8] == byte_at(c, at + e * k + s / 8));
                assert(page.spec_bitmap().bits()[s] == disk_slot_present(c, at, e as int, k, s));
                if page.spec_bitmap().bits()[s] {
                    T::lemma_enc(page.spec_items()[s], page.spec_items()[s]);
                    assert((s + 1) * k == s * k + k) by (nonlinear_arith);
                    assert(page.spec_items()[s].enc() == c.subrange(
                        at + s * k,
                        at + (s + 1) * k,
                    ));
                    assert forall|m: int| 0 <= m < k implies disk_slot_bytes(c, at, k, s)[m]
                        == page.spec_items()[s].enc()[m] by {
                        assert(c.subrange(at + s * k, at + s * k + k)[m] == c[at + s * k + m]);
                        assert(at + s * k + m < at + e * k);
                    }
                    assert(page.spec_items()[s].enc() =~= disk_slot_bytes(c, at, k, s));
                }
            }
            assert(page.slots() =~= disk_page_slots(c, at, e as int, k));
        }
        Ok(page)
    }

    /// Byte length of one page image for `count_of_elements_on_page`
    /// elements.
    pub fn get_page_size_in_bytes<T: Item>(count_of_elements_on_page: usize) -> (r: usize)
        requires
            count_of_elements_on_page * T::size_spec() + spec_bitmap_byte_size(
                count_of_elements_on_page as int,
            ) <= usize::MAX,
        ensures
            r as int == spec_page_size_in_bytes(
                count_of_elements_on_page as int,
                T::size_spec() as int,
            ),
    {
        let size = T::byte_size();
        proof {
            assert(count_of_elements_on_page * size == count_of_elements_on_page
                * T::size_spec());
        }
        count_of_elements_on_page * size + calc_bitmap_byte_size(count_of_elements_on_page)
    }

    /// Read and decode the data area of a page: `count` slots of `T`.
    fn deserialize_data_chunk<S: Storage, T: Item>(storage: &mut S, count: usize) -> (r: Result<
        DataChunk<T>,
        SerializationError,
    >)
        requires
            count * T::size_spec() <= usize::MAX,
        ensures
            final(storage).contents() == old(storage).contents(),
            r is Err ==> r matches Err(SerializationError::IoError(_)),
            r is Ok ==> {
                &&& r.unwrap().items().len() == count
                &&& 0 <= old(storage).cursor()
                &&& old(storage).cursor() + count * T::size_spec() <= old(
                    storage,
                ).contents().len()
                &&& forall|j: int|
                    0 <= j < count ==> #[trigger] r.unwrap().items()[j].enc() == old(
                        storage,
                    ).contents().subrange(
                        old(storage).cursor() + j * T::size_spec(),
                        old(storage).cursor() + (j + 1) * T::size_spec(),
                    )
                &&& final(storage).cursor() == old(storage).cursor() + count * T::size_spec()
            },
    {
        let size = T::byte_size();
        proof {
            assert(count * size == count * T::size_spec());
        }
        let byte_count = count * size;
        let buffer = match storage.read_exact(byte_count) {
            Ok(b) => b,
            Err(e) => {
                return Err(SerializationError::IoError(e));
            },
        };
        let mut items: Vec<T> = Vec::new();
        let mut j: usize = 0;
        while j < count
            invariant
                j <= count,
                size == T::size_spec(),
                size >= 1,
                count * size <= usize::MAX,
                buffer@.len() == count * size,
                items@.len() == j,
                forall|jj: int|
                    0 <= jj < j ==> #[trigger] items@[jj].enc() == buffer@.subrange(
                        jj * T::size_spec(),
                        (jj + 1) * T::size_spec(),
                    ),
            decreases count - j,
        {
            proof {
                assert(0 <= j * size && j * size + size <= count * size && (j + 1) * size == j
                    * size + size) by (nonlinear_arith)
                    requires
                        0 <= (j as int) < (count as int),
                        size >= 1,
                ;
            }
            let start = j * size;
            let end = start + size;
            let part = vstd::slice::slice_subrange(buffer.as_slice(), start, end);
            let item = T::decode(part);
            items.push(item);
            j = j + 1;
        }
        let ghost c = old(storage).contents();
        let ghost at = old(storage).cursor();
        proof {
            assert forall|j: int| 0 <= j < count implies #[trigger] items@[j].enc()
                == c.subrange(
                at + j * T::size_spec(),
                at + (j + 1) * T::size_spec(),
            ) by {
                let k = T::size_spec() as int;
                assert(0 <= j * k && (j + 1) * k <= count * k && (j + 1) * k == j * k + k)
                    by (nonlinear_arith)
                    requires
                        0 <= j < (count as int),
                        k >= 1,
                ;
                lemma_subrange_of_subrange(c, at, at + count * k, j * k, (j + 1) * k);
            }
        }
        Ok(DataChunk::from_items(items))
    }

    /// Read the bitmap bytes of a page: the flags for `count` slots.
    fn deserialize_bitmap<S: Storage>(storage: &mut S, count: usize) -> (r: Result<
        Bitmap,
        SerializationError,
    >)
        ensures
            final(storage).contents() == old(storage).contents(),
            r is Err ==> r matches Err(SerializationError::IoError(_)),
            r is Ok ==> {
                &&& r.unwrap().wf()
                &&& r.unwrap().spec_elements_count() == count
                &&& 0 <= old(storage).cursor()
                &&& old(storage).cursor() + spec_bitmap_byte_size(count as int) <= old(
                    storage,
                ).contents().len()
                &&& r.unwrap().spec_bytes() == old(storage).contents().subrange(
                    old(storage).cursor(),
                    old(storage).cursor() + spec_bitmap_byte_size(count as int),
                )
                &&& final(storage).cursor() == old(storage).cursor() + spec_bitmap_byte_size(
                    count as int,
                )
            },
    {
        match Bitmap::read(count, storage) {
            Some(bitmap) => Ok(bitmap),
            None => Err(SerializationError::IoError(StorageError)),
        }
    }
}

} // verus!

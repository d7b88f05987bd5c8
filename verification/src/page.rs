use vstd::prelude::*;
use crate::bitmap::{calc_bitmap_byte_size, spec_bitmap_byte_size, Bitmap};
use crate::item::Item;

verus! {

/// Raw slot storage of one page: a fixed-length run of typed slots.
pub struct DataChunk<T: Item> {
    source: Vec<T>,
}

impl<T: Item> DataChunk<T> {
    pub closed spec fn items(self) -> Seq<T> {
        self.source@
    }

    /// A chunk over the given slot values.
    pub fn from_items(items: Vec<T>) -> (r: DataChunk<T>)
        ensures
            r.items() == items@,
    {
        DataChunk { source: items }
    }

    /// A chunk of `count` slots, every slot holding `value`.
    pub fn filled(count: usize, value: T) -> (r: DataChunk<T>)
        ensures
            r.items() == Seq::new(count as nat, |i: int| value),
    {
        let mut source: Vec<T> = Vec::new();
        let mut i: usize = 0;
        while i < count
            invariant
                i <= count,
                source@.len() == i,
                forall|x: int| 0 <= x < i ==> source@[x] == value,
            decreases count - i,
        {
            source.push(value);
            i = i + 1;
        }
        proof {
            assert(source@ =~= Seq::new(count as nat, |i: int| value));
        }
        DataChunk { source }
    }

    pub fn len(&self) -> (r: usize)
        ensures
            r == self.items().len(),
    {
        self.source.len()
    }

    /// Overwrite slot `index`.
    pub fn set(&mut self, index: usize, value: T) -> (nothing: ())
        requires
            index < old(self).items().len(),
        ensures
            final(self).items() == old(self).items().update(index as int, value),
    {
        self.source[index] = value;
    }

    /// The value in slot `index`, whether or not it is live.
    pub fn get(&self, index: usize) -> (r: T)
        requires
            index < self.items().len(),
        ensures
            r == self.items()[index as int],
    {
        self.source[index]
    }
}

/// A page cannot be assembled: the bitmap byte buffer does not have the size
/// implied by the number of slots.
#[derive(Clone, Copy, Debug, PartialEq, Eq, Structural)]
pub enum PageError {
    BitmapTooSmall { bitmap_size: usize, number_of_items: usize },
}

/// The resident unit of the cache: one page's slots and presence flags,
/// together with its page index, a dirty flag, and the logical time of the
/// last touch, which drives eviction.
pub struct Page<T: Item> {
    pub bitmap: Bitmap,
    pub data_chunk: DataChunk<T>,
    pub(crate) index: usize,
    pub(crate) handling_time: u64,
    pub(crate) is_modified: bool,
}

impl<T: Item> Page<T> {

    pub closed spec fn spec_index(self) -> int {
        self.index as int
    }

    pub open spec fn spec_len(self) -> int {
        self.spec_items().len() as int
    }

    pub closed spec fn spec_time(self) -> int {
        self.handling_time as int
    }

    pub closed spec fn spec_modified(self) -> bool {
        self.is_modified
    }

    pub closed spec fn spec_bitmap(self) -> Bitmap {
        self.bitmap
    }

    pub closed spec fn spec_items(self) -> Seq<T> {
        self.data_chunk.items()
    }

    /// The bitmap covers exactly the slots of the chunk.
    pub open spec fn wf(self) -> bool {
        &&& self.spec_bitmap().wf()
        &&& self.spec_bitmap().spec_elements_count() == self.spec_items().len()
    }

    /// What the page holds, slot by slot: the encoded bytes of the slot's
    /// value where the presence flag is set, absence where it is clear.
    pub open spec fn slots(self) -> Seq<Option<Seq<u8>>> {
        Seq::new(
            self.spec_items().len(),
            |s: int|
                if self.spec_bitmap().bits()[s] {
                    Some(self.spec_items()[s].enc())
                } else {
                    None
                },
        )
    }

    /// Assemble a page read back from storage.  Fails when the bitmap size
    /// does not match the slot count; the page starts clean, with its last
    /// touch at time zero.
    pub fn new(index: usize, bitmap: Bitmap, data_chunk: DataChunk<T>) -> (r: Result<
        Page<T>,
        PageError,
    >)
        ensures
            r is Ok <==> (bitmap.spec_bytes().len() == spec_bitmap_byte_size(
                data_chunk.items().len() as int,
            ) && bitmap.spec_elements_count() == data_chunk.items().len()),
            r matches Err(PageError::BitmapTooSmall { bitmap_size, number_of_items }) ==> {
                &&& bitmap_size == bitmap.spec_bytes().len()
                &&& number_of_items == data_chunk.items().len()
            },
            r is Ok ==> {
                &&& r.unwrap().wf()
                &&& r.unwrap().spec_bitmap() == bitmap
                &&& r.unwrap().spec_items() == data_chunk.items()
                &&& r.unwrap().spec_index() == index
                &&& r.unwrap().spec_time() == 0
                &&& !r.unwrap().spec_modified()
            },
    {
        if bitmap.elements_count() != data_chunk.len()
            || calc_bitmap_byte_size(data_chunk.len()) != bitmap.bytes().len() {
            return Err(
                PageError::BitmapTooSmall {
                    bitmap_size: bitmap.bytes().len(),
                    number_of_items: data_chunk.len(),
                },
            );
        }
        Ok(Page { bitmap, data_chunk, index, handling_time: 0, is_modified: false })
    }

    /// A page of `elements_per_page` default-decoded slots, every presence
    /// flag clear: what a never-written page reads as.
    pub fn zeroed(index: usize, elements_per_page: usize) -> (r: Page<T>)
        ensures
            r.wf(),
            r.spec_index() == index,
            r.spec_len() == elements_per_page,
            r.spec_time() == 0,
            !r.spec_modified(),
            r.slots() == Seq::new(elements_per_page as nat, |s: int| None::<Seq<u8>>),
    {
        let size = T::byte_size();
        let mut zeros: Vec<u8> = Vec::new();
        let mut i: usize = 0;
        while i < size
            invariant
                i <= size,
                zeros@.len() == i,
            decreases size - i,
        {
            zeros.push(0u8);
            i = i + 1;
        }
        let value = T::decode(zeros.as_slice());
        let data_chunk = DataChunk::filled(elements_per_page, value);
        let bitmap = Bitmap::zeroed(elements_per_page);
        let r = Page { bitmap, data_chunk, index, handling_time: 0, is_modified: false };
        proof {
            assert(r.slots() =~= Seq::new(elements_per_page as nat, |s: int| None::<Seq<u8>>));
        }
        r
    }

    /// Write `value` into slot `index`: the slot becomes live and the page
    /// dirty.  The last touch is left to the owner, through `touch`.
    pub fn set(&mut self, index: usize, value: T) -> (nothing: ())
        requires
            old(self).wf(),
            index < old(self).spec_len(),
        ensures
            final(self).wf(),
            final(self).slots() == old(self).slots().update(index as int, Some(value.enc())),
            final(self).spec_len() == old(self).spec_len(),
            final(self).spec_index() == old(self).spec_index(),
            final(self).spec_time() == old(self).spec_time(),
            final(self).spec_modified(),
    {
        self.is_modified = true;
        self.data_chunk.set(index, value);
        self.bitmap.set(index);
        proof {
            let old_page = *old(self);
            let new_page = *self;
            assert(new_page.bitmap.bits() == old_page.bitmap.bits().update(index as int, true));
            assert(new_page.data_chunk.items() == old_page.data_chunk.items().update(
                index as int,
                value,
            ));
            assert forall|s: int| 0 <= s < new_page.slots().len() implies new_page.slots()[s]
                == old_page.slots().update(index as int, Some(value.enc()))[s] by {
                if s != index {
                    assert(new_page.bitmap.bits()[s] == old_page.bitmap.bits()[s]);
                }
            }
            assert(new_page.slots() =~= old_page.slots().update(
                index as int,
                Some(value.enc()),
            ));
        }
    }

    /// The value of slot `index`, or absence if its flag is clear: a cleared
    /// slot may hold stale bytes that must not be surfaced.
    pub fn get(&self, index: usize) -> (r: Option<T>)
        requires
            self.wf(),
            index < self.spec_len(),
        ensures
            r is Some <==> self.slots()[index as int] is Some,
            r is Some ==> r.unwrap().enc() == self.slots()[index as int].unwrap(),
    {
        if !self.bitmap.get(index) {
            None
        } else {
            Some(self.data_chunk.get(index))
        }
    }

    /// Clear the presence flag of slot `index`, leaving its bytes untouched:
    /// a lazy tombstone.  The page becomes dirty.
    pub fn remove(&mut self, index: usize) -> (nothing: ())
        requires
            old(self).wf(),
            index < old(self).spec_len(),
        ensures
            final(self).wf(),
            final(self).slots() == old(self).slots().update(index as int, None::<Seq<u8>>),
            final(self).spec_len() == old(self).spec_len(),
            final(self).spec_index() == old(self).spec_index(),
            final(self).spec_time() == old(self).spec_time(),
            final(self).spec_modified(),
    {
        self.is_modified = true;
        self.bitmap.unset(index);
        proof {
            let old_page = *old(self);
            let new_page = *self;
            assert(new_page.bitmap.bits() == old_page.bitmap.bits().update(index as int, false));
            assert forall|s: int| 0 <= s < new_page.slots().len() implies new_page.slots()[s]
                == old_page.slots().update(index as int, None::<Seq<u8>>)[s] by {
                if s != index {
                    assert(new_page.bitmap.bits()[s] == old_page.bitmap.bits()[s]);
                }
            }
            assert(new_page.slots() =~= old_page.slots().update(
                index as int,
                None::<Seq<u8>>,
            ));
        }
    }

    /// Record a touch at logical time `time`.
    pub(crate) fn touch(&mut self, time: u64) -> (nothing: ())
        ensures
            *final(self) == (Page { handling_time: time, ..*old(self) }),
            final(self).slots() == old(self).slots(),
            final(self).wf() == old(self).wf(),
            final(self).spec_len() == old(self).spec_len(),
            final(self).spec_index() == old(self).spec_index(),
            final(self).spec_modified() == old(self).spec_modified(),
            final(self).spec_time() == time,
    {
        self.handling_time = time;
    }

    /// Mark the page clean, after a write-back.
    pub(crate) fn mark_clean(&mut self) -> (nothing: ())
        ensures
            *final(self) == (Page { is_modified: false, ..*old(self) }),
            final(self).slots() == old(self).slots(),
            final(self).wf() == old(self).wf(),
            final(self).spec_len() == old(self).spec_len(),
            final(self).spec_index() == old(self).spec_index(),
            final(self).spec_time() == old(self).spec_time(),
            !final(self).spec_modified(),
    {
        self.is_modified = false;
    }

    /// The page index this page belongs to.
    pub(crate) fn page_index(&self) -> (r: usize)
        ensures
            r == self.spec_index(),
    {
        self.index
    }

    /// Number of slots of this page.
    pub(crate) fn slot_count(&self) -> (r: usize)
        ensures
            r == self.spec_len(),
    {
        self.data_chunk.len()
    }

    /// The raw value in slot `j`, live or not.
    pub(crate) fn item_at(&self, j: usize) -> (r: T)
        requires
            j < self.spec_len(),
        ensures
            r == self.spec_items()[j as int],
    {
        self.data_chunk.get(j)
    }

    /// The raw bytes of the presence bitmap.
    pub(crate) fn bitmap_bytes(&self) -> (r: &[u8])
        ensures
            r@ == self.spec_bitmap().spec_bytes(),
    {
        self.bitmap.bytes()
    }

    /// Whether this page was touched no later than `other`: the eviction
    /// order, oldest first.
    pub fn cmp_priorities(&self, other: &Page<T>) -> (r: bool)
        ensures
            r == (self.spec_time() <= other.spec_time()),
    {
        self.handling_time <= other.handling_time
    }

    /// Whether eviction must write this page back: exactly the dirty pages.
    pub fn should_be_saved(&self) -> (r: bool)
        ensures
            r == self.spec_modified(),
    {
        self.is_modified
    }
}

} // verus!

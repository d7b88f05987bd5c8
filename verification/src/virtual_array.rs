use vstd::prelude::*;
use crate::item::Item;
use crate::bitmap::spec_bitmap_byte_size;
use crate::metadata::{spec_metadata_size, ConstructError, Metadata};
use crate::page::Page;
use crate::serializer::{
    disk_page_slots, lemma_disk_page_slots_agree, lemma_items_bytes_len, lemma_page_image,
    lemma_zero_page_image, spec_page_bytes, spec_page_size_in_bytes, DefaultSerializer,
};
use crate::storage::{
    byte_at, byte_at_off, lemma_splice_write_byte_at, lemma_splice_write_len, splice_write,
    Storage, StorageError,
};

verus! {

/// Any failure a virtual array operation can surface: a failed metadata
/// read or write, a failed page read or write, an invalid configuration, or
/// a failure of the backing resource itself.
#[derive(Debug)]
pub enum VirtualArrayError {
    MetadataSerializationError(crate::metadata::SerializationError),
    PageSerializationError(crate::serializer::SerializationError),
    ConstructMetadataError(ConstructError),
    IoError(StorageError),
}

/// Byte offset of page `p`: pages are contiguous fixed-stride slots after
/// the metadata header.
pub open spec fn spec_page_offset(sig_len: int, e: int, k: int, p: int) -> int {
    spec_metadata_size(sig_len) + p * spec_page_size_in_bytes(e, k)
}

/// What page `p` of the resource holds, slot by slot.
pub open spec fn disk_page(c: Seq<u8>, sig_len: int, e: int, k: int, p: int) -> Seq<
    Option<Seq<u8>>,
> {
    disk_page_slots(c, spec_page_offset(sig_len, e, k, p), e, k)
}

/// What element `i` of the resource holds: slot `i % e` of page `i / e`.
pub open spec fn disk_elem(c: Seq<u8>, sig_len: int, e: int, k: int, i: int) -> Option<
    Seq<u8>,
> {
    disk_page(c, sig_len, e, k, i / e)[i % e]
}

/// The whole logical array as the resource alone holds it, with no cache in
/// front.
pub open spec fn disk_view(c: Seq<u8>, sig_len: int, e: int, k: int, n: int) -> Seq<
    Option<Seq<u8>>,
> {
    Seq::new(n as nat, |i: int| disk_elem(c, sig_len, e, k, i))
}

/// Position of the page with index `p` in the resident set, or -1 if it is
/// not resident.
pub open spec fn find_page_pos<T: Item>(pages: Seq<Page<T>>, p: int) -> int
    decreases pages.len(),
{
    if pages.len() == 0 {
        -1
    } else if pages.last().spec_index() == p {
        pages.len() - 1
    } else {
        find_page_pos(pages.drop_last(), p)
    }
}

pub proof fn lemma_find_page_pos<T: Item>(pages: Seq<Page<T>>, p: int)
    ensures
        -1 <= find_page_pos(pages, p) < pages.len(),
        find_page_pos(pages, p) >= 0 ==> pages[find_page_pos(pages, p)].spec_index() == p,
        find_page_pos(pages, p) == -1 ==> forall|j: int|
            0 <= j < pages.len() ==> pages[j].spec_index() != p,
        forall|j: int|
            0 <= j < pages.len() && pages[j].spec_index() == p ==> find_page_pos(pages, p)
                >= 0,
    decreases pages.len(),
{
    if pages.len() > 0 {
        lemma_find_page_pos(pages.drop_last(), p);
        assert forall|j: int| 0 <= j < pages.len() && pages[j].spec_index() == p implies
            find_page_pos(pages, p) >= 0 by {
            if j < pages.len() - 1 {
                assert(pages.drop_last()[j] == pages[j]);
            }
        }
        if find_page_pos(pages, p) == -1 {
            assert forall|j: int| 0 <= j < pages.len() implies pages[j].spec_index() != p
                by {
                if j < pages.len() - 1 {
                    assert(pages.drop_last()[j] == pages[j]);
                }
            }
        }
    }
}

/// Pages with pairwise different page indices.
pub open spec fn distinct_pages<T: Item>(pages: Seq<Page<T>>) -> bool {
    forall|i: int, j: int|
        0 <= i < j < pages.len() ==> pages[i].spec_index() != pages[j].spec_index()
}

/// No resident page is dirty: nothing is left to write back.
pub open spec fn all_clean<T: Item>(pages: Seq<Page<T>>) -> bool {
    forall|j: int| 0 <= j < pages.len() ==> !(#[trigger] pages[j]).spec_modified()
}

/// Whether the offset of page `p`, and the page stride, fit the machine's
/// address width: the one failure the offset arithmetic itself can raise.
pub open spec fn page_offset_fits(md: Metadata, k: int, p: int) -> bool {
    let e = md.spec_elements_per_page(k);
    &&& spec_page_size_in_bytes(e, k) <= usize::MAX
    &&& spec_page_offset(md.signature@.len() as int, e, k, p) <= usize::MAX
}

/// In a distinct resident set, any match is the match.
pub proof fn lemma_find_page_pos_unique<T: Item>(pages: Seq<Page<T>>, p: int, j: int)
    requires
        distinct_pages(pages),
        0 <= j < pages.len(),
        pages[j].spec_index() == p,
    ensures
        find_page_pos(pages, p) == j,
    decreases pages.len(),
{
    lemma_find_page_pos(pages, p);
    if j == pages.len() - 1 {
        if find_page_pos(pages, p) != j {
            assert(pages[find_page_pos(pages, p)].spec_index() == p);
        }
    } else {
        assert(pages.last() == pages[pages.len() - 1]);
        if pages.last().spec_index() == p {
            assert(pages[pages.len() - 1].spec_index() == pages[j].spec_index());
        } else {
            assert(pages.drop_last()[j] == pages[j]);
            assert forall|i1: int, j1: int| 0 <= i1 < j1 < pages.drop_last().len() implies
                pages.drop_last()[i1].spec_index() != pages.drop_last()[j1].spec_index() by {
                assert(pages.drop_last()[i1] == pages[i1]);
                assert(pages.drop_last()[j1] == pages[j1]);
            }
            lemma_find_page_pos_unique(pages.drop_last(), p, j);
        }
    }
}

/// The found position depends only on the page indices.
pub proof fn lemma_find_page_pos_same_indices<T: Item>(
    p1: Seq<Page<T>>,
    p2: Seq<Page<T>>,
    p: int,
)
    requires
        p1.len() == p2.len(),
        forall|j: int| 0 <= j < p1.len() ==> p1[j].spec_index() == p2[j].spec_index(),
    ensures
        find_page_pos(p1, p) == find_page_pos(p2, p),
    decreases p1.len(),
{
    if p1.len() > 0 {
        assert(p1.last().spec_index() == p2.last().spec_index());
        assert forall|j: int| 0 <= j < p1.drop_last().len() implies p1.drop_last()[
            j
        ].spec_index() == p2.drop_last()[j].spec_index() by {
            assert(p1.drop_last()[j] == p1[j]);
            assert(p2.drop_last()[j] == p2[j]);
        }
        lemma_find_page_pos_same_indices(p1.drop_last(), p2.drop_last(), p);
    }
}

/// Offset arithmetic: pages are laid out in order after the header, without
/// overlap.
pub proof fn lemma_page_offsets(sig_len: int, e: int, k: int, p1: int, p2: int)
    requires
        sig_len >= 0,
        e >= 1,
        k >= 1,
        0 <= p1,
        p1 < p2,
    ensures
        spec_metadata_size(sig_len) <= spec_page_offset(sig_len, e, k, p1),
        spec_page_offset(sig_len, e, k, p1) + spec_page_size_in_bytes(e, k)
            <= spec_page_offset(sig_len, e, k, p2),
{
    let stride = spec_page_size_in_bytes(e, k);
    assert(e / 8 >= 0 && e * k >= 1 && (p1 + 1) * stride <= p2 * stride && 0 <= p1 * stride
        && p1 * stride + stride == (p1 + 1) * stride) by (nonlinear_arith)
        requires
            e >= 1,
            k >= 1,
            0 <= p1 < p2,
            stride == e * k + spec_bitmap_byte_size(e),
            spec_bitmap_byte_size(e) >= 0,
    ;
}

/// Nonnegative size of the bitmap area.
pub proof fn lemma_bitmap_byte_size_nonneg(e: int)
    requires
        e >= 0,
    ensures
        spec_bitmap_byte_size(e) >= 0,
        spec_page_size_in_bytes(e, 1) >= 0,
{
}

/// Byte offset of page `page_index`, or absence when it does not fit the
/// machine's address width.
pub fn get_page_offset<T: Item>(page_index: usize, metadata: &Metadata) -> (r: Option<usize>)
    requires
        metadata.signature@.len() + 16 <= usize::MAX,
    ensures
        r matches Some(o) ==> {
            let k = T::size_spec() as int;
            let e = metadata.spec_elements_per_page(k);
            &&& o == spec_page_offset(
                metadata.signature@.len() as int,
                e,
                k,
                page_index as int,
            )
            &&& spec_page_size_in_bytes(e, k) <= usize::MAX
        },
        r is Some <==> page_offset_fits(*metadata, T::size_spec() as int, page_index as int),
{
    let e = metadata.count_elements_on_page::<T>();
    let k = T::byte_size();
    let data = match e.checked_mul(k) {
        Some(v) => v,
        None => {
            return None;
        },
    };
    let stride = match data.checked_add(crate::bitmap::calc_bitmap_byte_size(e)) {
        Some(v) => v,
        None => {
            return None;
        },
    };
    let span = match page_index.checked_mul(stride) {
        Some(v) => v,
        None => {
            return None;
        },
    };
    let metadata_size = metadata.signature.len() + 16;
    match span.checked_add(metadata_size) {
        Some(offset) => Some(offset),
        None => None,
    }
}

/// Move the cursor to the start of the resource, where the header lives.
pub fn seek_to_start<S: Storage>(storage: &mut S) -> (r: Result<(), VirtualArrayError>)
    ensures
        final(storage).contents() == old(storage).contents(),
        r is Ok ==> final(storage).cursor() == 0,
        r matches Err(err) ==> err is IoError,
{
    match storage.seek(0) {
        Ok(_) => Ok(()),
        Err(e) => Err(VirtualArrayError::IoError(e)),
    }
}

/// Move the cursor to the start of page `page_index`.
pub fn seek_to_page<T: Item, S: Storage>(
    storage: &mut S,
    page_index: usize,
    metadata: &Metadata,
) -> (r: Result<(), VirtualArrayError>)
    requires
        metadata.signature@.len() + 16 <= usize::MAX,
    ensures
        final(storage).contents() == old(storage).contents(),
        r is Ok ==> {
            let k = T::size_spec() as int;
            let e = metadata.spec_elements_per_page(k);
            &&& final(storage).cursor() == spec_page_offset(
                metadata.signature@.len() as int,
                e,
                k,
                page_index as int,
            )
            &&& spec_page_size_in_bytes(e, k) <= usize::MAX
        },
        r matches Err(err) ==> err is IoError,
        !page_offset_fits(*metadata, T::size_spec() as int, page_index as int) ==> r is Err,
{
    let offset = match get_page_offset::<T>(page_index, metadata) {
        Some(o) => o,
        None => {
            return Err(VirtualArrayError::IoError(StorageError));
        },
    };
    match storage.seek(offset) {
        Ok(_) => Ok(()),
        Err(e) => Err(VirtualArrayError::IoError(e)),
    }
}

/// Effect of dropping the resident page at position `m` on lookups: its own
/// index becomes absent, every other index resolves to the same page.
pub proof fn lemma_cache_after_remove<T: Item>(pages: Seq<Page<T>>, m: int, p: int)
    requires
        distinct_pages(pages),
        0 <= m < pages.len(),
    ensures
        distinct_pages(pages.remove(m)),
        p == pages[m].spec_index() ==> find_page_pos(pages.remove(m), p) == -1,
        p != pages[m].spec_index() ==> {
            let f1 = find_page_pos(pages, p);
            let f2 = find_page_pos(pages.remove(m), p);
            &&& (f2 >= 0 <==> f1 >= 0)
            &&& (f1 >= 0 ==> f2 >= 0 && pages.remove(m)[f2] == pages[f1])
        },
{
    let rest = pages.remove(m);
    pages.remove_ensures(m);
    assert forall|x: int| 0 <= x < rest.len() implies rest[x] == (if x < m {
        pages[x]
    } else {
        pages[x + 1]
    }) by {
    }
    assert forall|i: int, j: int| 0 <= i < j < rest.len() implies rest[i].spec_index()
        != rest[j].spec_index() by {
        let i0 = if i < m {
            i
        } else {
            i + 1
        };
        let j0 = if j < m {
            j
        } else {
            j + 1
        };
        assert(pages[i0].spec_index() != pages[j0].spec_index());
    }
    lemma_find_page_pos(pages, p);
    lemma_find_page_pos(rest, p);
    let f1 = find_page_pos(pages, p);
    let f2 = find_page_pos(rest, p);
    if p == pages[m].spec_index() {
        if f2 >= 0 {
            let x0 = if f2 < m {
                f2
            } else {
                f2 + 1
            };
            assert(pages[x0].spec_index() == p);
            if x0 < m {
                assert(pages[x0].spec_index() != pages[m].spec_index());
            } else {
                assert(pages[m].spec_index() != pages[x0].spec_index());
            }
        }
    } else {
        if f1 >= 0 {
            assert(pages[f1].spec_index() == p);
            assert(f1 != m);
            let x2 = if f1 < m {
                f1
            } else {
                f1 - 1
            };
            assert(rest[x2] == pages[f1]);
            lemma_find_page_pos_unique(rest, p, x2);
        }
        if f2 >= 0 {
            let x0 = if f2 < m {
                f2
            } else {
                f2 + 1
            };
            assert(pages[x0].spec_index() == p);
        }
    }
}

/// A file-backed logical array: a bounded set of resident pages in front of
/// a seekable byte resource, addressed by logical element index.
pub struct VirtualArray<T: Item, S: Storage> {
    metadata: Metadata,
    storage: S,
    pages: Vec<Page<T>>,
    buffer_size: usize,
    count_of_elements_on_page: usize,
    clock: u64,
}

impl<T: Item, S: Storage> VirtualArray<T, S> {
    pub closed spec fn spec_metadata(self) -> Metadata {
        self.metadata
    }

    pub closed spec fn spec_contents(self) -> Seq<u8> {
        self.storage.contents()
    }

    pub closed spec fn spec_pages(self) -> Seq<Page<T>> {
        self.pages@
    }

    pub closed spec fn spec_buffer_size(self) -> int {
        self.buffer_size as int
    }

    pub closed spec fn spec_clock(self) -> int {
        self.clock as int
    }

    /// Elements per page.
    pub closed spec fn epp(self) -> int {
        self.count_of_elements_on_page as int
    }

    pub open spec fn spec_array_size(self) -> int {
        self.spec_metadata().array_size as int
    }

    pub open spec fn spec_sig_len(self) -> int {
        self.spec_metadata().signature@.len() as int
    }

    /// Pages the backing file was laid out with: every element index below
    /// `array_size` falls in one of them.
    pub open spec fn num_pages(self) -> int {
        self.spec_array_size() / self.epp() + 1
    }

    /// How many pages are resident.
    pub open spec fn resident_count(self) -> int {
        self.spec_pages().len() as int
    }

    /// Whether the page with index `p` is resident.
    pub open spec fn resident(self, p: int) -> bool {
        find_page_pos(self.spec_pages(), p) >= 0
    }

    /// What the resident set says page `p` holds, if it is resident.
    pub open spec fn cache_page(self, p: int) -> Option<Seq<Option<Seq<u8>>>> {
        let f = find_page_pos(self.spec_pages(), p);
        if f >= 0 {
            Some(self.spec_pages()[f].slots())
        } else {
            None
        }
    }

    /// What element `i` holds: the resident page's slot if its page is
    /// resident, the resource's bytes otherwise.
    pub open spec fn elem_view(self, i: int) -> Option<Seq<u8>> {
        let p = i / self.epp();
        match self.cache_page(p) {
            Some(slots) => slots[i % self.epp()],
            None => disk_elem(
                self.spec_contents(),
                self.spec_sig_len(),
                self.epp(),
                T::size_spec() as int,
                i,
            ),
        }
    }

    /// The whole logical array, element by element: the abstraction every
    /// operation's contract is stated over.
    pub open spec fn elements(self) -> Seq<Option<Seq<u8>>> {
        Seq::new(self.spec_array_size() as nat, |i: int| self.elem_view(i))
    }

    /// The invariant of a virtual array.
    pub open spec fn wf(self) -> bool {
        let k = T::size_spec() as int;
        let c = self.spec_contents();
        &&& T::size_spec() >= 1
        &&& self.spec_metadata().valid(k)
        &&& self.epp() == self.spec_metadata().spec_elements_per_page(k)
        &&& self.spec_sig_len() + 16 <= usize::MAX
        &&& self.spec_buffer_size() >= 1
        &&& self.resident_count() <= self.spec_buffer_size()
        &&& distinct_pages(self.spec_pages())
        &&& (forall|j: int|
            0 <= j < self.spec_pages().len() ==> {
                let pg = #[trigger] self.spec_pages()[j];
                &&& pg.wf()
                &&& pg.spec_len() == self.epp()
                &&& 0 <= pg.spec_index() < self.num_pages()
                &&& pg.spec_time() <= self.spec_clock()
                &&& (!pg.spec_modified() ==> pg.slots() == disk_page(
                    c,
                    self.spec_sig_len(),
                    self.epp(),
                    k,
                    pg.spec_index(),
                ))
            })
        &&& c.len() >= self.spec_metadata().spec_size()
        &&& c.subrange(0, self.spec_metadata().spec_size()) == self.spec_metadata().spec_bytes()
    }

    /// Page that owns an element.
    pub fn get_page_index(&self, element_index: usize) -> (r: usize)
        requires
            self.wf(),
        ensures
            r == element_index as int / self.epp(),
    {
        element_index / self.count_of_elements_on_page
    }

    /// Slot of an element within its page.
    pub fn get_index_on_page(&self, element_index: usize) -> (r: usize)
        requires
            self.wf(),
        ensures
            r == element_index as int % self.epp(),
    {
        element_index % self.count_of_elements_on_page
    }

    /// Position of the page with this index in the resident set, if any.
    fn get_page_index_in_memory(&self, page_index: usize) -> (r: Option<usize>)
        requires
            self.wf(),
        ensures
            r matches Some(pos) ==> find_page_pos(self.spec_pages(), page_index as int)
                == pos,
            r is None ==> find_page_pos(self.spec_pages(), page_index as int) == -1,
    {
        proof {
            lemma_find_page_pos(self.spec_pages(), page_index as int);
        }
        let mut index: usize = 0;
        while index < self.pages.len()
            invariant
                index <= self.spec_pages().len(),
                self.wf(),
                forall|j: int|
                    0 <= j < index ==> self.spec_pages()[j].spec_index() != page_index,
            decreases self.spec_pages().len() - index,
        {
            if self.pages[index].page_index() == page_index {
                proof {
                    lemma_find_page_pos_unique(
                        self.spec_pages(),
                        page_index as int,
                        index as int,
                    );
                }
                return Some(index);
            }
            index = index + 1;
        }
        proof {
            lemma_find_page_pos(self.spec_pages(), page_index as int);
        }
        None
    }

    /// Position of the least recently touched resident page, if any is
    /// resident: the eviction victim.
    fn get_oldest_page_index(&self) -> (r: Option<usize>)
        ensures
            r matches Some(m) ==> {
                &&& m < self.spec_pages().len()
                &&& forall|j: int|
                    0 <= j < self.spec_pages().len() ==> self.spec_pages()[
                        m as int
                    ].spec_time() <= #[trigger] self.spec_pages()[j].spec_time()
            },
            r is None <==> self.spec_pages().len() == 0,
    {
        if self.pages.len() == 0 {
            return None;
        }
        let mut oldest: usize = 0;
        let mut index: usize = 1;
        while index < self.pages.len()
            invariant
                oldest < index <= self.spec_pages().len(),
                forall|j: int|
                    0 <= j < index ==> self.spec_pages()[oldest as int].spec_time()
                        <= #[trigger] self.spec_pages()[j].spec_time(),
            decreases self.spec_pages().len() - index,
        {
            if self.pages[index].cmp_priorities(&self.pages[oldest]) {
                oldest = index;
            }
            index = index + 1;
        }
        Some(oldest)
    }

    /// Everything but the resource's cursor is the same in both states, so
    /// both hold the same logical array.
    pub open spec fn eq_mod_cursor(self, other: Self) -> bool {
        &&& self.spec_metadata() == other.spec_metadata()
        &&& self.spec_pages() == other.spec_pages()
        &&& self.spec_buffer_size() == other.spec_buffer_size()
        &&& self.epp() == other.epp()
        &&& self.spec_clock() == other.spec_clock()
        &&& self.spec_contents() == other.spec_contents()
    }

    pub proof fn lemma_eq_mod_cursor(a: Self, b: Self)
        requires
            a.eq_mod_cursor(b),
        ensures
            a.elements() == b.elements(),
            a.wf() == b.wf(),
    {
        assert forall|i: int| 0 <= i < a.spec_array_size() implies a.elem_view(i)
            == b.elem_view(i) by {
        }
        assert(a.elements() =~= b.elements());
    }

    /// Load the page with this index from the resource: seek to its offset
    /// and read its image back.  No resident page changes.
    fn read_page(&mut self, page_index: usize) -> (r: Result<Page<T>, VirtualArrayError>)
        requires
            old(self).wf(),
        ensures
            final(self).wf(),
            final(self).eq_mod_cursor(*old(self)),
            final(self).elements() == old(self).elements(),
            !page_offset_fits(
                old(self).spec_metadata(),
                T::size_spec() as int,
                page_index as int,
            ) ==> r is Err,
            r matches Ok(pg) ==> {
                &&& pg.wf()
                &&& pg.spec_len() == old(self).epp()
                &&& pg.spec_index() == page_index
                &&& !pg.spec_modified()
                &&& pg.spec_time() == 0
                &&& pg.slots() == disk_page(
                    old(self).spec_contents(),
                    old(self).spec_sig_len(),
                    old(self).epp(),
                    T::size_spec() as int,
                    page_index as int,
                )
            },
    {
        let result = match seek_to_page::<T, S>(&mut self.storage, page_index, &self.metadata) {
            Ok(_) => {
                match DefaultSerializer::deserialize::<S, T>(
                    &mut self.storage,
                    page_index,
                    self.count_of_elements_on_page,
                ) {
                    Ok(pg) => Ok(pg),
                    Err(e) => Err(VirtualArrayError::PageSerializationError(e)),
                }
            },
            Err(e) => Err(e),
        };
        proof {
            Self::lemma_eq_mod_cursor(*self, *old(self));
        }
        result
    }

    /// Write the page at this buffer position back to its on-disk offset, if
    /// it is dirty, and mark it clean.  No logical element changes: the page
    /// image on disk becomes what the resident page already says.
    fn save_page(&mut self, page_index_in_buffer: usize) -> (r: Result<(), VirtualArrayError>)
        requires
            old(self).wf(),
            page_index_in_buffer < old(self).spec_pages().len(),
        ensures
            final(self).wf(),
            final(self).spec_metadata() == old(self).spec_metadata(),
            final(self).spec_buffer_size() == old(self).spec_buffer_size(),
            final(self).epp() == old(self).epp(),
            final(self).spec_clock() == old(self).spec_clock(),
            final(self).elements() == old(self).elements(),
            !old(self).spec_pages()[page_index_in_buffer as int].spec_modified() ==> r is Ok,
            final(self).spec_pages().len() == old(self).spec_pages().len(),
            forall|j: int|
                0 <= j < old(self).spec_pages().len() && j != page_index_in_buffer
                    ==> #[trigger] final(self).spec_pages()[j] == old(self).spec_pages()[j],
            ({
                let a = final(self).spec_pages()[page_index_in_buffer as int];
                let b = old(self).spec_pages()[page_index_in_buffer as int];
                &&& a.spec_index() == b.spec_index()
                &&& a.slots() == b.slots()
                &&& a.spec_len() == b.spec_len()
                &&& a.spec_time() == b.spec_time()
            }),
            r is Ok ==> {
                let pg = old(self).spec_pages()[page_index_in_buffer as int];
                &&& !final(self).spec_pages()[page_index_in_buffer as int].spec_modified()
                &&& disk_page(
                    final(self).spec_contents(),
                    old(self).spec_sig_len(),
                    old(self).epp(),
                    T::size_spec() as int,
                    pg.spec_index(),
                ) == pg.slots()
                &&& forall|p: int|
                    0 <= p && p != pg.spec_index() ==> #[trigger] disk_page(
                        final(self).spec_contents(),
                        old(self).spec_sig_len(),
                        old(self).epp(),
                        T::size_spec() as int,
                        p,
                    ) == disk_page(
                        old(self).spec_contents(),
                        old(self).spec_sig_len(),
                        old(self).epp(),
                        T::size_spec() as int,
                        p,
                    )
            },
            r is Err ==> final(self).spec_pages() == old(self).spec_pages(),
    {
        let pos = page_index_in_buffer;
        if !self.pages[pos].should_be_saved() {
            proof {
                Self::lemma_eq_mod_cursor(*self, *old(self));
            }
            return Ok(());
        }
        let page_index = self.pages[pos].page_index();
        match seek_to_page::<T, S>(&mut self.storage, page_index, &self.metadata) {
            Ok(_) => {
            },
            Err(e) => {
                proof {
                    Self::lemma_eq_mod_cursor(*self, *old(self));
                }
                return Err(e);
            },
        }
        match DefaultSerializer::serialize::<S, T>(&mut self.storage, &self.pages[pos]) {
            Ok(_) => {
            },
            Err(e) => {
                proof {
                    Self::lemma_eq_mod_cursor(*self, *old(self));
                }
                return Err(VirtualArrayError::PageSerializationError(e));
            },
        }
        match self.storage.flush() {
            Ok(_) => {
            },
            Err(e) => {
                proof {
                    self.lemma_save_page_ok(*old(self), pos as int);
                }
                return Err(VirtualArrayError::IoError(e));
            },
        }
        self.pages[pos].mark_clean();
        proof {
            self.lemma_save_page_ok(*old(self), pos as int);
            let pg = old(self).spec_pages()[pos as int];
            assert(self.spec_pages() =~= old(self).spec_pages().update(
                pos as int,
                (Page { is_modified: false, ..pg }),
            ));
        }
        Ok(())
    }

    /// Make room in the resident set: if it is at capacity, write back the
    /// least recently touched page if dirty and drop it.  The logical
    /// elements do not change: what leaves the cache is on disk.
    fn remove_oldest_page(&mut self) -> (r: Result<(), VirtualArrayError>)
        requires
            old(self).wf(),
        ensures
            final(self).wf(),
            final(self).spec_metadata() == old(self).spec_metadata(),
            final(self).spec_buffer_size() == old(self).spec_buffer_size(),
            final(self).epp() == old(self).epp(),
            final(self).spec_clock() == old(self).spec_clock(),
            final(self).elements() == old(self).elements(),
            forall|p: int| #[trigger] final(self).resident(p) ==> old(self).resident(p),
            r is Ok ==> final(self).resident_count() < final(self).spec_buffer_size(),
            r is Ok ==> forall|p: int|
                0 <= p && !old(self).resident(p) ==> #[trigger] disk_page(
                    final(self).spec_contents(),
                    old(self).spec_sig_len(),
                    old(self).epp(),
                    T::size_spec() as int,
                    p,
                ) == disk_page(
                    old(self).spec_contents(),
                    old(self).spec_sig_len(),
                    old(self).epp(),
                    T::size_spec() as int,
                    p,
                ),
            r is Err ==> final(self).spec_contents() == old(self).spec_contents()
                || final(self).spec_pages() == old(self).spec_pages(),
    {
        if self.pages.len() < self.buffer_size {
            return Ok(());
        }
        let m = match self.get_oldest_page_index() {
            Some(m) => m,
            None => {
                proof {
                    assert(false);
                }
                return Err(VirtualArrayError::IoError(StorageError));
            },
        };
        match self.save_page(m) {
            Ok(_) => {
            },
            Err(e) => {
                return Err(e);
            },
        }
        let ghost s1 = *self;
        let victim = self.pages.remove(m);
        proof {
            let e = s1.epp();
            let k = T::size_spec() as int;
            let sig_len = s1.spec_sig_len();
            let c = s1.spec_contents();
            let pgi = victim.spec_index();
            assert(victim == s1.spec_pages()[m as int]);
            lemma_cache_after_remove(s1.spec_pages(), m as int, pgi);
            // Well-formedness of the shrunk resident set.
            s1.spec_pages().remove_ensures(m as int);
            assert forall|j: int| 0 <= j < self.spec_pages().len() implies {
                let pg = #[trigger] self.spec_pages()[j];
                &&& pg.wf()
                &&& pg.spec_len() == self.epp()
                &&& 0 <= pg.spec_index() < self.num_pages()
                &&& pg.spec_time() <= self.spec_clock()
                &&& (!pg.spec_modified() ==> pg.slots() == disk_page(
                    c,
                    sig_len,
                    e,
                    k,
                    pg.spec_index(),
                ))
            } by {
                let j0 = if j < m {
                    j
                } else {
                    j + 1
                };
                assert(self.spec_pages()[j] == s1.spec_pages()[j0]);
            }
            // Residency only shrinks, and lookups elsewhere are unchanged.
            assert forall|p: int| #[trigger] self.resident(p) implies old(self).resident(p)
                by {
                lemma_cache_after_remove(s1.spec_pages(), m as int, p);
                lemma_find_page_pos(self.spec_pages(), p);
                lemma_find_page_pos_same_indices(s1.spec_pages(), old(self).spec_pages(), p);
            }
            // The elements are unchanged: the victim was just written back.
            assert(!victim.spec_modified());
            assert(victim.slots() == disk_page(c, sig_len, e, k, pgi));
            assert forall|i: int| 0 <= i < s1.spec_array_size() implies self.elem_view(i)
                == s1.elem_view(i) by {
                let p = i / e;
                lemma_cache_after_remove(s1.spec_pages(), m as int, p);
                lemma_find_page_pos(s1.spec_pages(), p);
                lemma_find_page_pos(self.spec_pages(), p);
                if p == pgi {
                    lemma_find_page_pos_unique(s1.spec_pages(), p, m as int);
                }
            }
            assert(self.elements() =~= s1.elements());
            assert(old(self).resident(victim.spec_index())) by {
                lemma_find_page_pos_unique(old(self).spec_pages(), pgi, m as int);
            }
            assert forall|p: int| 0 <= p && !old(self).resident(p) implies #[trigger] disk_page(
                self.spec_contents(),
                old(self).spec_sig_len(),
                old(self).epp(),
                k,
                p,
            ) == disk_page(
                old(self).spec_contents(),
                old(self).spec_sig_len(),
                old(self).epp(),
                k,
                p,
            ) by {
                assert(p != pgi);
            }
        }
        Ok(())
    }

    /// Resolve a page index to a resident page: a cache hit returns the
    /// resident position; a miss loads the page image from the resource,
    /// making room first, and stamps the new page with the current time.
    fn get_page(&mut self, page_index: usize) -> (r: Result<usize, VirtualArrayError>)
        requires
            old(self).wf(),
            0 <= page_index < old(self).num_pages(),
        ensures
            final(self).wf(),
            final(self).spec_metadata() == old(self).spec_metadata(),
            final(self).spec_buffer_size() == old(self).spec_buffer_size(),
            final(self).epp() == old(self).epp(),
            final(self).elements() == old(self).elements(),
            old(self).resident(page_index as int) ==> r is Ok,
            !old(self).resident(page_index as int) && !page_offset_fits(
                old(self).spec_metadata(),
                T::size_spec() as int,
                page_index as int,
            ) ==> r is Err,
            r matches Ok(pos) ==> {
                &&& 0 <= pos < final(self).spec_pages().len()
                &&& final(self).spec_pages()[pos as int].spec_index() == page_index
                &&& find_page_pos(final(self).spec_pages(), page_index as int) == pos
            },
    {
        match self.get_page_index_in_memory(page_index) {
            Some(pos) => {
                proof {
                    lemma_find_page_pos(self.spec_pages(), page_index as int);
                }
                Ok(pos)
            },
            None => {
                let pg = match self.read_page(page_index) {
                    Ok(pg) => pg,
                    Err(e) => {
                        return Err(e);
                    },
                };
                let ghost s0 = *old(self);
                match self.remove_oldest_page() {
                    Ok(_) => {
                    },
                    Err(e) => {
                        return Err(e);
                    },
                }
                let ghost s2 = *self;
                let mut pg = pg;
                pg.touch(self.clock);
                if self.clock < u64::MAX {
                    self.clock = self.clock + 1;
                }
                let ghost s3 = *self;
                proof {
                    assert forall|i: int| 0 <= i < s2.spec_array_size() implies s3.elem_view(i)
                        == s2.elem_view(i) by {
                    }
                    assert(s3.elements() =~= s2.elements());
                }
                self.pages.push(pg);
                proof {
                    let e = s2.epp();
                    let k = T::size_spec() as int;
                    let sig_len = s2.spec_sig_len();
                    let pgi = page_index as int;
                    assert(self.spec_pages() == s3.spec_pages().push(pg));
                    assert(self.spec_pages().drop_last() =~= s3.spec_pages());
                    assert(self.spec_pages().last() == pg);
                    // The loaded page is not resident: its index is new.
                    assert(!s2.resident(pgi));
                    lemma_find_page_pos(s2.spec_pages(), pgi);
                    assert forall|i: int, j: int| 0 <= i < j < self.spec_pages().len() implies
                        self.spec_pages()[i].spec_index() != self.spec_pages()[j].spec_index()
                        by {
                        if j == self.spec_pages().len() - 1 {
                            assert(self.spec_pages()[i] == s2.spec_pages()[i]);
                        } else {
                            assert(self.spec_pages()[i] == s2.spec_pages()[i]);
                            assert(self.spec_pages()[j] == s2.spec_pages()[j]);
                        }
                    }
                    // The new page's image equals what the resource holds now.
                    assert(disk_page(s2.spec_contents(), sig_len, e, k, pgi) == disk_page(
                        s0.spec_contents(),
                        sig_len,
                        e,
                        k,
                        pgi,
                    ));
                    assert(pg.slots() == disk_page(s2.spec_contents(), sig_len, e, k, pgi));
                    // Well-formedness.
                    assert forall|j: int| 0 <= j < self.spec_pages().len() implies {
                        let pgj = #[trigger] self.spec_pages()[j];
                        &&& pgj.wf()
                        &&& pgj.spec_len() == self.epp()
                        &&& 0 <= pgj.spec_index() < self.num_pages()
                        &&& pgj.spec_time() <= self.spec_clock()
                        &&& (!pgj.spec_modified() ==> pgj.slots() == disk_page(
                            self.spec_contents(),
                            sig_len,
                            e,
                            k,
                            pgj.spec_index(),
                        ))
                    } by {
                        if j < self.spec_pages().len() - 1 {
                            assert(self.spec_pages()[j] == s2.spec_pages()[j]);
                        }
                    }
                    // Elements are unchanged: the page brought in reads as the
                    // resource already did.
                    assert forall|i: int| 0 <= i < s2.spec_array_size() implies self.elem_view(
                        i,
                    ) == s2.elem_view(i) by {
                        let p = i / e;
                        lemma_find_page_pos(s2.spec_pages(), p);
                        lemma_find_page_pos(self.spec_pages(), p);
                        if p == pgi {
                            lemma_find_page_pos_unique(self.spec_pages(), p, self.spec_pages().len() - 1);
                        } else {
                            lemma_find_page_pos_same_indices(
                                self.spec_pages().drop_last(),
                                s2.spec_pages(),
                                p,
                            );
                            let f = find_page_pos(s2.spec_pages(), p);
                            if f >= 0 {
                                lemma_find_page_pos_unique(self.spec_pages(), p, f);
                                assert(self.spec_pages()[f] == s2.spec_pages()[f]);
                            } else {
                                if find_page_pos(self.spec_pages(), p) >= 0 {
                                    let f2 = find_page_pos(self.spec_pages(), p);
                                    assert(self.spec_pages()[f2].spec_index() == p);
                                    if f2 < self.spec_pages().len() - 1 {
                                        assert(s2.spec_pages()[f2].spec_index() == p);
                                    }
                                    assert(false);
                                }
                            }
                        }
                    }
                    assert(self.elements() =~= s2.elements());
                    lemma_find_page_pos_unique(
                        self.spec_pages(),
                        pgi,
                        self.spec_pages().len() - 1,
                    );
                }
                Ok(self.pages.len() - 1)
            },
        }
    }

    /// Write `value` at logical index `element_index`.  The element becomes
    /// present with exactly this value, wherever its page is; nothing else
    /// changes.
    pub fn set(&mut self, element_index: usize, value: T) -> (r: Result<(), VirtualArrayError>)
        requires
            old(self).wf(),
            (element_index as int) < old(self).spec_array_size(),
        ensures
            final(self).wf(),
            final(self).spec_metadata() == old(self).spec_metadata(),
            final(self).spec_buffer_size() == old(self).spec_buffer_size(),
            final(self).epp() == old(self).epp(),
            final(self).resident_count() <= final(self).spec_buffer_size(),
            old(self).resident(element_index as int / old(self).epp()) ==> r is Ok,
            !old(self).resident(element_index as int / old(self).epp()) && !page_offset_fits(
                old(self).spec_metadata(),
                T::size_spec() as int,
                element_index as int / old(self).epp(),
            ) ==> r is Err,
            r is Ok ==> final(self).elements() == old(self).elements().update(
                element_index as int,
                Some(value.enc()),
            ),
            r is Err ==> final(self).elements() == old(self).elements(),
    {
        let page_index = self.get_page_index(element_index);
        let index_on_page = self.get_index_on_page(element_index);
        proof {
            self.lemma_element_page(element_index as int);
        }
        let pos = match self.get_page(page_index) {
            Ok(pos) => pos,
            Err(e) => {
                return Err(e);
            },
        };
        let ghost s1 = *self;
        let time = self.clock;
        let pg = &mut self.pages[pos];
        pg.touch(time);
        pg.set(index_on_page, value);
        if self.clock < u64::MAX {
            self.clock = self.clock + 1;
        }
        proof {
            self.lemma_after_slot_update(
                s1,
                pos as int,
                element_index as int,
                Some(value.enc()),
            );
            assert(self.elements() =~= old(self).elements().update(
                element_index as int,
                Some(value.enc()),
            ));
        }
        Ok(())
    }

    /// Read logical index `element_index`: the value it was last set to, or
    /// absence if it was never set or was deleted.  May do I/O to bring the
    /// page in, but never changes any element.
    pub fn get(&mut self, element_index: usize) -> (r: Result<Option<T>, VirtualArrayError>)
        requires
            old(self).wf(),
            (element_index as int) < old(self).spec_array_size(),
        ensures
            final(self).wf(),
            final(self).spec_metadata() == old(self).spec_metadata(),
            final(self).spec_buffer_size() == old(self).spec_buffer_size(),
            final(self).epp() == old(self).epp(),
            final(self).elements() == old(self).elements(),
            final(self).resident_count() <= final(self).spec_buffer_size(),
            old(self).resident(element_index as int / old(self).epp()) ==> r is Ok,
            !old(self).resident(element_index as int / old(self).epp()) && !page_offset_fits(
                old(self).spec_metadata(),
                T::size_spec() as int,
                element_index as int / old(self).epp(),
            ) ==> r is Err,
            r matches Ok(o) ==> {
                &&& (o is Some <==> old(self).elements()[element_index as int] is Some)
                &&& (o matches Some(v) ==> old(self).elements()[element_index as int]
                    == Some(v.enc()))
            },
    {
        let page_index = self.get_page_index(element_index);
        let index_on_page = self.get_index_on_page(element_index);
        proof {
            self.lemma_element_page(element_index as int);
        }
        let pos = match self.get_page(page_index) {
            Ok(pos) => pos,
            Err(e) => {
                return Err(e);
            },
        };
        let r = self.pages[pos].get(index_on_page);
        proof {
            vstd::arithmetic::div_mod::lemma_fundamental_div_mod(
                element_index as int,
                self.epp(),
            );
            assert(self.elements()[element_index as int] == self.spec_pages()[
                pos as int
            ].slots()[element_index as int % self.epp()]);
        }
        Ok(r)
    }

    /// Delete logical index `element_index`: the element reads as absent from
    /// now on.  The slot's bytes are left in place; only its presence flag is
    /// cleared.
    pub fn delete(&mut self, element_index: usize) -> (r: Result<(), VirtualArrayError>)
        requires
            old(self).wf(),
            (element_index as int) < old(self).spec_array_size(),
        ensures
            final(self).wf(),
            final(self).spec_metadata() == old(self).spec_metadata(),
            final(self).spec_buffer_size() == old(self).spec_buffer_size(),
            final(self).epp() == old(self).epp(),
            final(self).resident_count() <= final(self).spec_buffer_size(),
            old(self).resident(element_index as int / old(self).epp()) ==> r is Ok,
            !old(self).resident(element_index as int / old(self).epp()) && !page_offset_fits(
                old(self).spec_metadata(),
                T::size_spec() as int,
                element_index as int / old(self).epp(),
            ) ==> r is Err,
            r is Ok ==> final(self).elements() == old(self).elements().update(
                element_index as int,
                None::<Seq<u8>>,
            ),
            r is Err ==> final(self).elements() == old(self).elements(),
    {
        let page_index = self.get_page_index(element_index);
        let index_on_page = self.get_index_on_page(element_index);
        proof {
            self.lemma_element_page(element_index as int);
        }
        let pos = match self.get_page(page_index) {
            Ok(pos) => pos,
            Err(e) => {
                return Err(e);
            },
        };
        let ghost s1 = *self;
        let time = self.clock;
        let pg = &mut self.pages[pos];
        pg.touch(time);
        pg.remove(index_on_page);
        if self.clock < u64::MAX {
            self.clock = self.clock + 1;
        }
        proof {
            self.lemma_after_slot_update(s1, pos as int, element_index as int, None::<Seq<u8>>);
            assert(self.elements() =~= old(self).elements().update(
                element_index as int,
                None::<Seq<u8>>,
            ));
        }
        Ok(())
    }

    /// An element's page lies in the laid-out range, and its slot within the
    /// page.
    proof fn lemma_element_page(self, i: int)
        requires
            self.wf(),
            0 <= i < self.spec_array_size(),
        ensures
            0 <= i / self.epp() < self.num_pages(),
            0 <= i % self.epp() < self.epp(),
            i / self.epp() * self.epp() + i % self.epp() == i,
    {
        let e = self.epp();
        vstd::arithmetic::div_mod::lemma_fundamental_div_mod(i, e);
        vstd::arithmetic::div_mod::lemma_div_pos_is_pos(i, e);
        vstd::arithmetic::div_mod::lemma_mod_division_less_than_divisor(i, e);
        vstd::arithmetic::div_mod::lemma_div_is_ordered(i, self.spec_array_size(), e);
    }

    /// After touching one resident page's slot, the logical array is the old
    /// one with exactly that element updated.
    proof fn lemma_after_slot_update(
        self,
        pre: Self,
        pos: int,
        i: int,
        value: Option<Seq<u8>>,
    )
        requires
            pre.wf(),
            0 <= i < pre.spec_array_size(),
            0 <= pos < pre.spec_pages().len(),
            pre.spec_pages()[pos].spec_index() == i / pre.epp(),
            find_page_pos(pre.spec_pages(), i / pre.epp()) == pos,
            self.spec_metadata() == pre.spec_metadata(),
            self.spec_buffer_size() == pre.spec_buffer_size(),
            self.epp() == pre.epp(),
            self.spec_contents() == pre.spec_contents(),
            self.spec_clock() >= pre.spec_clock(),
            self.spec_pages().len() == pre.spec_pages().len(),
            forall|j: int|
                0 <= j < pre.spec_pages().len() && j != pos ==> #[trigger] self.spec_pages()[j]
                    == pre.spec_pages()[j],
            ({
                let a = self.spec_pages()[pos];
                let b = pre.spec_pages()[pos];
                &&& a.wf()
                &&& a.spec_index() == b.spec_index()
                &&& a.spec_len() == b.spec_len()
                &&& a.slots() == b.slots().update(i % pre.epp(), value)
                &&& a.spec_time() <= self.spec_clock()
                &&& a.spec_modified()
            }),
        ensures
            self.wf(),
            self.elements() == pre.elements().update(i, value),
    {
        let e = pre.epp();
        let k = T::size_spec() as int;
        let sig_len = pre.spec_sig_len();
        let p_i = i / e;
        let s_i = i % e;
        pre.lemma_element_page(i);
        // Well-formedness.
        assert forall|j: int| 0 <= j < self.spec_pages().len() implies {
            let pg = #[trigger] self.spec_pages()[j];
            &&& pg.wf()
            &&& pg.spec_len() == self.epp()
            &&& 0 <= pg.spec_index() < self.num_pages()
            &&& pg.spec_time() <= self.spec_clock()
            &&& (!pg.spec_modified() ==> pg.slots() == disk_page(
                self.spec_contents(),
                sig_len,
                e,
                k,
                pg.spec_index(),
            ))
        } by {
            if j != pos {
                assert(self.spec_pages()[j] == pre.spec_pages()[j]);
                assert(pre.spec_pages()[j].spec_time() <= pre.spec_clock());
            }
        }
        assert forall|a: int, b: int| 0 <= a < b < self.spec_pages().len() implies self.spec_pages()[
            a
        ].spec_index() != self.spec_pages()[b].spec_index() by {
            assert(pre.spec_pages()[a].spec_index() != pre.spec_pages()[b].spec_index());
            if a != pos {
                assert(self.spec_pages()[a] == pre.spec_pages()[a]);
            }
            if b != pos {
                assert(self.spec_pages()[b] == pre.spec_pages()[b]);
            }
        }
        assert(self.wf());
        // Elements: only element `i` changed.
        assert forall|x: int| 0 <= x < pre.spec_array_size() implies self.elem_view(x) == pre
            .elements().update(i, value)[x] by {
            let p = x / e;
            let sx = x % e;
            pre.lemma_element_page(x);
            lemma_find_page_pos_same_indices(self.spec_pages(), pre.spec_pages(), p);
            let f = find_page_pos(pre.spec_pages(), p);
            lemma_find_page_pos(pre.spec_pages(), p);
            if p == p_i {
                assert(f == pos);
                if x == i {
                    assert(self.spec_pages()[pos].slots()[sx] == value);
                } else {
                    // Same page, different slot.
                    assert(sx != s_i) by {
                        vstd::arithmetic::div_mod::lemma_fundamental_div_mod(x, e);
                        vstd::arithmetic::div_mod::lemma_fundamental_div_mod(i, e);
                    }
                    assert(self.spec_pages()[pos].slots()[sx] == pre.spec_pages()[
                        pos
                    ].slots()[sx]);
                }
            } else {
                if f >= 0 {
                    assert(f != pos) by {
                        assert(pre.spec_pages()[f].spec_index() == p);
                    }
                    assert(self.spec_pages()[f] == pre.spec_pages()[f]);
                }
            }
        }
        assert(self.elements() =~= pre.elements().update(i, value));
    }

    /// Write every dirty resident page back to the resource.  Afterward the
    /// resource alone holds the whole logical array.
    fn save(&mut self) -> (r: Result<(), VirtualArrayError>)
        requires
            old(self).wf(),
        ensures
            final(self).wf(),
            final(self).spec_metadata() == old(self).spec_metadata(),
            final(self).spec_buffer_size() == old(self).spec_buffer_size(),
            final(self).epp() == old(self).epp(),
            final(self).elements() == old(self).elements(),
            all_clean(old(self).spec_pages()) ==> r is Ok,
            r is Ok ==> disk_view(
                final(self).spec_contents(),
                old(self).spec_sig_len(),
                old(self).epp(),
                T::size_spec() as int,
                old(self).spec_array_size(),
            ) == old(self).elements(),
    {
        let mut j: usize = 0;
        while j < self.pages.len()
            invariant
                self.wf(),
                j <= self.spec_pages().len(),
                self.spec_metadata() == old(self).spec_metadata(),
                self.spec_buffer_size() == old(self).spec_buffer_size(),
                self.epp() == old(self).epp(),
                self.elements() == old(self).elements(),
                forall|x: int| 0 <= x < j ==> !(#[trigger] self.spec_pages()[x]).spec_modified(),
                all_clean(old(self).spec_pages()) ==> all_clean(self.spec_pages()),
            decreases self.spec_pages().len() - j,
        {
            let ghost before = *self;
            match self.save_page(j) {
                Ok(_) => {
                },
                Err(e) => {
                    return Err(e);
                },
            }
            proof {
                assert forall|x: int| 0 <= x < j + 1 implies !(#[trigger] self.spec_pages()[
                    x
                ]).spec_modified() by {
                    if x < j {
                        assert(self.spec_pages()[x] == before.spec_pages()[x]);
                    }
                }
            }
            j = j + 1;
        }
        proof {
            let e = self.epp();
            let k = T::size_spec() as int;
            let sig_len = self.spec_sig_len();
            let c = self.spec_contents();
            assert forall|i: int| 0 <= i < self.spec_array_size() implies disk_elem(
                c,
                sig_len,
                e,
                k,
                i,
            ) == self.elem_view(i) by {
                let p = i / e;
                lemma_find_page_pos(self.spec_pages(), p);
                let f = find_page_pos(self.spec_pages(), p);
                if f >= 0 {
                    assert(!self.spec_pages()[f].spec_modified());
                    assert(self.spec_pages()[f].slots() == disk_page(c, sig_len, e, k, p));
                    self.lemma_element_page(i);
                }
            }
            assert(disk_view(c, sig_len, e, k, self.spec_array_size()) =~= self.elements());
        }
        Ok(())
    }

    /// Shut the array down: write every dirty page back and hand the resource
    /// back to the caller.  The resource then holds exactly the logical array
    /// this handle held.
    pub fn close(self) -> (r: Result<S, VirtualArrayError>)
        requires
            self.wf(),
        ensures
            all_clean(self.spec_pages()) ==> r is Ok,
            r matches Ok(s) ==> {
                &&& disk_view(
                    s.contents(),
                    self.spec_sig_len(),
                    self.epp(),
                    T::size_spec() as int,
                    self.spec_array_size(),
                ) == self.elements()
                &&& s.contents().len() >= self.spec_metadata().spec_size()
                &&& s.contents().subrange(0, self.spec_metadata().spec_size())
                    == self.spec_metadata().spec_bytes()
            },
    {
        let mut this = self;
        match this.save() {
            Ok(_) => {
            },
            Err(e) => {
                return Err(e);
            },
        }
        let VirtualArray { storage, .. } = this;
        Ok(storage)
    }
}

/// The page byte size actually used for a desired size: the desired size
/// rounded up to the next multiple of the item size, so that a whole number
/// of items fills each page.
pub open spec fn spec_calc_page_size(desired: int, k: int) -> int {
    if desired % k == 0 {
        desired
    } else {
        desired + (k - desired % k)
    }
}

pub fn calc_page_size<T: Item>(desired_page_size: usize) -> (r: usize)
    requires
        desired_page_size + T::size_spec() <= usize::MAX,
    ensures
        r as int == spec_calc_page_size(desired_page_size as int, T::size_spec() as int),
        desired_page_size == 0 ==> r == 0,
        desired_page_size > 0 ==> T::size_spec() <= r,
        r as int % (T::size_spec() as int) == 0,
        T::size_spec() >= 1,
{
    let size = T::byte_size();
    let rem = desired_page_size % size;
    proof {
        let d = desired_page_size as int;
        let k = T::size_spec() as int;
        vstd::arithmetic::div_mod::lemma_fundamental_div_mod(d, k);
        vstd::arithmetic::div_mod::lemma_mod_division_less_than_divisor(d, k);
        vstd::arithmetic::div_mod::lemma_div_pos_is_pos(d, k);
        if d % k == 0 {
            if 0 < d < k {
                vstd::arithmetic::div_mod::lemma_small_mod(d as nat, k as nat);
            }
            vstd::arithmetic::div_mod::lemma_mod_multiples_basic(d / k, k);
        } else {
            assert(d + (k - d % k) == (d / k + 1) * k) by (nonlinear_arith)
                requires
                    d % k == d - (d / k) * k,
            ;
            vstd::arithmetic::div_mod::lemma_mod_multiples_basic(d / k + 1, k);
            assert(k <= (d / k + 1) * k) by (nonlinear_arith)
                requires
                    d / k >= 0,
                    k >= 1,
            ;
        }
    }
    if rem == 0 {
        desired_page_size
    } else {
        desired_page_size + (size - rem)
    }
}

/// The default two-byte format tag at the start of every backing file.
pub open spec fn spec_default_signature() -> Seq<u8> {
    seq![86u8, 77u8]
}

/// The default format tag, as a buffer: the bytes of `VM`.
pub fn default_signature() -> (r: Vec<u8>)
    ensures
        r@ == spec_default_signature(),
{
    let mut r: Vec<u8> = Vec::new();
    r.push(86u8);
    r.push(77u8);
    proof {
        assert(r@ =~= spec_default_signature());
    }
    r
}

impl<T: Item, S: Storage> VirtualArray<T, S> {
    /// Lay a fresh array out on the resource: write the header, then a
    /// zeroed image for every page, under the default format tag.  Every
    /// element starts absent.
    pub fn create(
        storage: S,
        array_size: usize,
        buffer_size: usize,
        desired_page_size: usize,
    ) -> (r: Result<Self, VirtualArrayError>)
        requires
            buffer_size >= 1,
            desired_page_size + T::size_spec() <= usize::MAX,
        ensures
            r matches Ok(va) ==> {
                &&& va.wf()
                &&& va.spec_metadata().signature@ == spec_default_signature()
                &&& va.spec_metadata().page_size as int == spec_calc_page_size(
                    desired_page_size as int,
                    T::size_spec() as int,
                )
                &&& va.spec_metadata().array_size == array_size
                &&& va.spec_buffer_size() == buffer_size
                &&& va.resident_count() == 0
                &&& va.elements() == Seq::new(array_size as nat, |i: int| None::<Seq<u8>>)
                &&& disk_view(
                    va.spec_contents(),
                    va.spec_sig_len(),
                    va.epp(),
                    T::size_spec() as int,
                    va.spec_array_size(),
                ) == va.elements()
            },
            desired_page_size == 0 <==> r matches Err(
                VirtualArrayError::ConstructMetadataError(ConstructError::ZeroDataChunkSize),
            ),
    {
        Self::create_with_signature(
            storage,
            default_signature(),
            array_size,
            buffer_size,
            desired_page_size,
        )
    }

    /// As `create`, under a caller-chosen format tag.
    pub fn create_with_signature(
        storage: S,
        signature: Vec<u8>,
        array_size: usize,
        buffer_size: usize,
        desired_page_size: usize,
    ) -> (r: Result<Self, VirtualArrayError>)
        requires
            buffer_size >= 1,
            signature@.len() + 16 <= usize::MAX,
            desired_page_size + T::size_spec() <= usize::MAX,
        ensures
            r matches Ok(va) ==> {
                &&& va.wf()
                &&& va.spec_metadata().signature@ == signature@
                &&& va.spec_metadata().page_size as int == spec_calc_page_size(
                    desired_page_size as int,
                    T::size_spec() as int,
                )
                &&& va.spec_metadata().array_size == array_size
                &&& va.spec_buffer_size() == buffer_size
                &&& va.resident_count() == 0
                &&& va.elements() == Seq::new(array_size as nat, |i: int| None::<Seq<u8>>)
                &&& disk_view(
                    va.spec_contents(),
                    va.spec_sig_len(),
                    va.epp(),
                    T::size_spec() as int,
                    va.spec_array_size(),
                ) == va.elements()
            },
            desired_page_size == 0 <==> r matches Err(
                VirtualArrayError::ConstructMetadataError(ConstructError::ZeroDataChunkSize),
            ),
    {
        let page_size = calc_page_size::<T>(desired_page_size);
        let construct_result = Metadata::new::<T>(signature, page_size, array_size);
        proof {
            if desired_page_size != 0 {
                assert(page_size != 0);
                assert(page_size as int >= T::size_spec());
                assert(!((page_size as int) < T::size_spec()));
                assert(construct_result is Ok);
            } else {
                assert(page_size == 0);
                assert(construct_result == Err::<Metadata, ConstructError>(
                    ConstructError::ZeroDataChunkSize,
                ));
            }
        }
        let metadata = match construct_result {
            Ok(m) => m,
            Err(c) => {
                return Err(VirtualArrayError::ConstructMetadataError(c));
            },
        };
        let mut storage = storage;
        match seek_to_start(&mut storage) {
            Ok(_) => {
            },
            Err(e) => {
                return Err(e);
            },
        }
        match metadata.write(&mut storage) {
            Ok(_) => {
            },
            Err(e) => {
                return Err(
                    VirtualArrayError::MetadataSerializationError(
                        crate::metadata::SerializationError::IoError(e),
                    ),
                );
            },
        }
        match storage.flush() {
            Ok(_) => {
            },
            Err(e) => {
                return Err(VirtualArrayError::IoError(e));
            },
        }
        let ghost sig_len = metadata.signature@.len() as int;
        let ghost k = T::size_spec() as int;
        let count = metadata.count_elements_on_page::<T>();
        let ghost e = count as int;
        proof {
            // After the header write, the header region reads back as the
            // header bytes.
            lemma_splice_write_len(Seq::<u8>::empty(), 0, metadata.spec_bytes());
            assert forall|x: int| 0 <= x < metadata.spec_size() implies byte_at(
                storage.contents(),
                x,
            ) == metadata.spec_bytes()[x] by {
            }
        }
        let last = array_size / count;
        let mut i: usize = 0;
        loop
            invariant
                i <= last,
                last == array_size as int / e,
                e == metadata.spec_elements_per_page(k),
                count as int == e,
                desired_page_size != 0,
                e >= 1,
                k == T::size_spec() as int,
                k >= 1,
                sig_len == metadata.signature@.len() as int,
                sig_len + 16 <= usize::MAX,
                metadata.valid(k),
                storage.contents().len() >= metadata.spec_size(),
                storage.contents().subrange(0, metadata.spec_size())
                    == metadata.spec_bytes(),
                forall|p: int|
                    0 <= p < i ==> #[trigger] disk_page(storage.contents(), sig_len, e, k, p)
                        == Seq::new(e as nat, |s: int| None::<Seq<u8>>),
            ensures
                storage.contents().len() >= metadata.spec_size(),
                storage.contents().subrange(0, metadata.spec_size())
                    == metadata.spec_bytes(),
                forall|p: int|
                    0 <= p <= last ==> #[trigger] disk_page(storage.contents(), sig_len, e, k, p)
                        == Seq::new(e as nat, |s: int| None::<Seq<u8>>),
            decreases last - i,
        {
            let ghost c_start = storage.contents();
            match seek_to_page::<T, S>(&mut storage, i, &metadata) {
                Ok(_) => {
                },
                Err(err) => {
                    return Err(err);
                },
            }
            let ghost c0 = storage.contents();
            match DefaultSerializer::serialize_zeroed::<S, T>(&mut storage, count) {
                Ok(_) => {
                },
                Err(err) => {
                    return Err(VirtualArrayError::PageSerializationError(err));
                },
            }
            match storage.flush() {
                Ok(_) => {
                },
                Err(err) => {
                    return Err(VirtualArrayError::IoError(err));
                },
            }
            proof {
                let stride = spec_page_size_in_bytes(e, k);
                let off = spec_page_offset(sig_len, e, k, i as int);
                let zeros = crate::storage::zero_bytes(stride as nat);
                let c1 = storage.contents();
                lemma_bitmap_byte_size_nonneg(e);
                assert(c1 == splice_write(c0, off, zeros));
                if i > 0 {
                    lemma_page_offsets(sig_len, e, k, 0, i as int);
                } else {
                    assert(e * k >= 0) by (nonlinear_arith)
                        requires
                            e >= 1,
                            k >= 1,
                    ;
                }
                assert(off >= spec_metadata_size(sig_len));
                lemma_splice_write_len(c0, off, zeros);
                assert forall|x: int| 0 <= x < spec_metadata_size(sig_len) implies byte_at(
                    c1,
                    x,
                ) == byte_at(c0, x) by {
                    lemma_splice_write_byte_at(c0, off, zeros, x);
                }
                assert(c1.subrange(0, metadata.spec_size()) =~= c0.subrange(
                    0,
                    metadata.spec_size(),
                ));
                assert forall|p: int| 0 <= p < i + 1 implies #[trigger] disk_page(
                    c1,
                    sig_len,
                    e,
                    k,
                    p,
                ) == Seq::new(e as nat, |s: int| None::<Seq<u8>>) by {
                    let off_p = spec_page_offset(sig_len, e, k, p);
                    if p < i {
                        assert(disk_page(c_start, sig_len, e, k, p) == Seq::new(
                            e as nat,
                            |s: int| None::<Seq<u8>>,
                        ));
                        assert(c0 == c_start);
                        lemma_page_offsets(sig_len, e, k, p, i as int);
                        assert forall|d: int| 0 <= d < stride implies #[trigger] byte_at_off(
                            c1,
                            off_p,
                            d,
                        ) == byte_at_off(c0, off_p, d) by {
                            lemma_splice_write_byte_at(c0, off, zeros, off_p + d);
                        }
                        lemma_disk_page_slots_agree(c1, c0, off_p, off_p, e, k);
                    } else {
                        assert forall|d: int| 0 <= d < stride implies #[trigger] byte_at_off(
                            c1,
                            off_p,
                            d,
                        ) == 0u8 by {
                            lemma_splice_write_byte_at(c0, off, zeros, off_p + d);
                        }
                        lemma_zero_page_image(c1, off_p, e, k);
                    }
                }
            }
            if i == last {
                break;
            }
            i = i + 1;
        }
        let va = VirtualArray {
            metadata,
            storage,
            pages: Vec::new(),
            buffer_size,
            count_of_elements_on_page: count,
            clock: 0,
        };
        proof {
            assert(va.spec_pages().len() == 0);
            assert(distinct_pages(va.spec_pages()));
            assert(va.wf());
            assert forall|x: int| 0 <= x < va.spec_array_size() implies va.elem_view(x)
                == None::<Seq<u8>> by {
                va.lemma_element_page(x);
                vstd::arithmetic::div_mod::lemma_div_is_ordered(
                    x,
                    va.spec_array_size(),
                    e,
                );
                assert(disk_page(va.spec_contents(), sig_len, e, k, x / e) == Seq::new(
                    e as nat,
                    |s: int| None::<Seq<u8>>,
                ));
            }
            assert(va.elements() =~= Seq::new(array_size as nat, |i: int| None::<Seq<u8>>));
            assert forall|x: int| 0 <= x < va.spec_array_size() implies disk_elem(
                va.spec_contents(),
                sig_len,
                e,
                k,
                x,
            ) == va.elem_view(x) by {
            }
            assert(disk_view(
                va.spec_contents(),
                sig_len,
                e,
                k,
                va.spec_array_size(),
            ) =~= va.elements());
        }
        Ok(va)
    }

    /// Open an existing array on the resource: read and validate the header
    /// under the default format tag, touching no page.  The elements are
    /// whatever the resource holds.
    pub fn open(storage: S, buffer_size: usize) -> (r: Result<Self, VirtualArrayError>)
        requires
            buffer_size >= 1,
        ensures
            r matches Ok(va) ==> {
                &&& va.wf()
                &&& va.spec_buffer_size() == buffer_size
                &&& va.resident_count() == 0
                &&& va.spec_metadata().signature@ == spec_default_signature()
                &&& va.spec_contents() == storage.contents()
                &&& storage.contents().len() >= va.spec_metadata().spec_size()
                &&& storage.contents().subrange(0, va.spec_metadata().spec_size())
                    == va.spec_metadata().spec_bytes()
                &&& va.elements() == disk_view(
                    storage.contents(),
                    va.spec_sig_len(),
                    va.epp(),
                    T::size_spec() as int,
                    va.spec_array_size(),
                )
            },
            r matches Err(VirtualArrayError::MetadataSerializationError(
                crate::metadata::SerializationError::InvalidSignature { expected, found },
            )) ==> expected@ == spec_default_signature() && found@ != spec_default_signature(),
    {
        let signature = default_signature();
        Self::open_with_signature(storage, signature.as_slice(), buffer_size)
    }

    /// As `open`, under a caller-chosen format tag.
    pub fn open_with_signature(
        storage: S,
        expected_signature: &[u8],
        buffer_size: usize,
    ) -> (r: Result<Self, VirtualArrayError>)
        requires
            buffer_size >= 1,
            expected_signature@.len() + 16 <= usize::MAX,
        ensures
            r matches Ok(va) ==> {
                &&& va.wf()
                &&& va.spec_buffer_size() == buffer_size
                &&& va.resident_count() == 0
                &&& va.spec_metadata().signature@ == expected_signature@
                &&& va.spec_contents() == storage.contents()
                &&& storage.contents().len() >= va.spec_metadata().spec_size()
                &&& storage.contents().subrange(0, va.spec_metadata().spec_size())
                    == va.spec_metadata().spec_bytes()
                &&& va.elements() == disk_view(
                    storage.contents(),
                    va.spec_sig_len(),
                    va.epp(),
                    T::size_spec() as int,
                    va.spec_array_size(),
                )
            },
            r matches Err(VirtualArrayError::MetadataSerializationError(
                crate::metadata::SerializationError::InvalidSignature { expected, found },
            )) ==> expected@ == expected_signature@ && found@ != expected_signature@,
    {
        let mut storage = storage;
        match seek_to_start(&mut storage) {
            Ok(_) => {
            },
            Err(e) => {
                return Err(e);
            },
        }
        let metadata = match Metadata::read::<S, T>(&mut storage, expected_signature) {
            Ok(m) => m,
            Err(e) => {
                return Err(VirtualArrayError::MetadataSerializationError(e));
            },
        };
        let count = metadata.count_elements_on_page::<T>();
        let va = VirtualArray {
            metadata,
            storage,
            pages: Vec::new(),
            buffer_size,
            count_of_elements_on_page: count,
            clock: 0,
        };
        proof {
            assert(va.wf());
            assert(va.elements() =~= disk_view(
                va.spec_contents(),
                va.spec_sig_len(),
                va.epp(),
                T::size_spec() as int,
                va.spec_array_size(),
            ));
        }
        Ok(va)
    }

    /// Convenience name for `set`.
    pub fn set_element(&mut self, element_index: usize, value: T) -> (r: Result<
        (),
        VirtualArrayError,
    >)
        requires
            old(self).wf(),
            (element_index as int) < old(self).spec_array_size(),
        ensures
            final(self).wf(),
            final(self).spec_metadata() == old(self).spec_metadata(),
            final(self).spec_buffer_size() == old(self).spec_buffer_size(),
            final(self).epp() == old(self).epp(),
            old(self).resident(element_index as int / old(self).epp()) ==> r is Ok,
            r is Ok ==> final(self).elements() == old(self).elements().update(
                element_index as int,
                Some(value.enc()),
            ),
            r is Err ==> final(self).elements() == old(self).elements(),
    {
        self.set(element_index, value)
    }

    /// Convenience name for `get`.
    pub fn get_element(&mut self, element_index: usize) -> (r: Result<
        Option<T>,
        VirtualArrayError,
    >)
        requires
            old(self).wf(),
            (element_index as int) < old(self).spec_array_size(),
        ensures
            final(self).wf(),
            final(self).spec_metadata() == old(self).spec_metadata(),
            final(self).spec_buffer_size() == old(self).spec_buffer_size(),
            final(self).epp() == old(self).epp(),
            final(self).elements() == old(self).elements(),
            old(self).resident(element_index as int / old(self).epp()) ==> r is Ok,
            r matches Ok(o) ==> {
                &&& (o is Some <==> old(self).elements()[element_index as int] is Some)
                &&& (o matches Some(v) ==> old(self).elements()[element_index as int]
                    == Some(v.enc()))
            },
    {
        self.get(element_index)
    }

    /// Convenience name for `delete`.
    pub fn remove_element(&mut self, element_index: usize) -> (r: Result<
        (),
        VirtualArrayError,
    >)
        requires
            old(self).wf(),
            (element_index as int) < old(self).spec_array_size(),
        ensures
            final(self).wf(),
            final(self).spec_metadata() == old(self).spec_metadata(),
            final(self).spec_buffer_size() == old(self).spec_buffer_size(),
            final(self).epp() == old(self).epp(),
            old(self).resident(element_index as int / old(self).epp()) ==> r is Ok,
            r is Ok ==> final(self).elements() == old(self).elements().update(
                element_index as int,
                None::<Seq<u8>>,
            ),
            r is Err ==> final(self).elements() == old(self).elements(),
    {
        self.delete(element_index)
    }

    /// After writing the image of resident page `pos` at its offset (and
    /// possibly marking it clean), the array is still well formed and holds
    /// the same elements; on disk only that page's image changed, and it now
    /// equals the resident page.
    proof fn lemma_save_page_ok(self, pre: Self, pos: int)
        requires
            pre.wf(),
            0 <= pos < pre.spec_pages().len(),
            self.spec_metadata() == pre.spec_metadata(),
            self.spec_buffer_size() == pre.spec_buffer_size(),
            self.epp() == pre.epp(),
            self.spec_clock() == pre.spec_clock(),
            self.spec_pages().len() == pre.spec_pages().len(),
            forall|j: int|
                0 <= j < pre.spec_pages().len() && j != pos ==> #[trigger] self.spec_pages()[j]
                    == pre.spec_pages()[j],
            ({
                let a = self.spec_pages()[pos];
                let b = pre.spec_pages()[pos];
                &&& a.spec_index() == b.spec_index()
                &&& a.slots() == b.slots()
                &&& a.spec_len() == b.spec_len()
                &&& a.spec_time() == b.spec_time()
                &&& a.wf() == b.wf()
                &&& (a.spec_modified() ==> b.spec_modified())
            }),
            self.spec_contents() == splice_write(
                pre.spec_contents(),
                spec_page_offset(
                    pre.spec_sig_len(),
                    pre.epp(),
                    T::size_spec() as int,
                    pre.spec_pages()[pos].spec_index(),
                ),
                spec_page_bytes(pre.spec_pages()[pos]),
            ),
        ensures
            self.wf(),
            self.elements() == pre.elements(),
            disk_page(
                self.spec_contents(),
                pre.spec_sig_len(),
                pre.epp(),
                T::size_spec() as int,
                pre.spec_pages()[pos].spec_index(),
            ) == pre.spec_pages()[pos].slots(),
            forall|p: int|
                0 <= p && p != pre.spec_pages()[pos].spec_index() ==> #[trigger] disk_page(
                    self.spec_contents(),
                    pre.spec_sig_len(),
                    pre.epp(),
                    T::size_spec() as int,
                    p,
                ) == disk_page(
                    pre.spec_contents(),
                    pre.spec_sig_len(),
                    pre.epp(),
                    T::size_spec() as int,
                    p,
                ),
    {
        let sig_len = pre.spec_sig_len();
        let e = pre.epp();
        let k = T::size_spec() as int;
        let pg = pre.spec_pages()[pos];
        let pgi = pg.spec_index();
        let c0 = pre.spec_contents();
        let c1 = self.spec_contents();
        let off = spec_page_offset(sig_len, e, k, pgi);
        let stride = spec_page_size_in_bytes(e, k);
        let body = spec_page_bytes(pg);
        lemma_bitmap_byte_size_nonneg(e);
        if pgi > 0 {
            lemma_page_offsets(sig_len, e, k, 0, pgi);
        } else {
            assert(e * k >= 0) by (nonlinear_arith)
                requires
                    e >= 1,
                    k >= 1,
            ;
        }
        assert(off >= spec_metadata_size(sig_len));
        // The written image has exactly the page stride.
        lemma_items_bytes_len::<T>(pg.spec_items());
        assert(body.len() == stride);
        lemma_splice_write_len(c0, off, body);
        // The image of the written page now reads as the page's slots.
        assert forall|d: int| 0 <= d < stride implies #[trigger] byte_at_off(c1, off, d)
            == body[d] by {
            lemma_splice_write_byte_at(c0, off, body, off + d);
        }
        lemma_page_image::<T>(c1, off, pg, e);
        // Any other page's image is untouched.
        assert forall|p: int| 0 <= p && p != pgi implies #[trigger] disk_page(c1, sig_len, e, k, p)
            == disk_page(c0, sig_len, e, k, p) by {
            let off_p = spec_page_offset(sig_len, e, k, p);
            if p < pgi {
                lemma_page_offsets(sig_len, e, k, p, pgi);
            } else {
                lemma_page_offsets(sig_len, e, k, pgi, p);
            }
            assert forall|d: int| 0 <= d < stride implies #[trigger] byte_at_off(c1, off_p, d)
                == byte_at_off(c0, off_p, d) by {
                lemma_splice_write_byte_at(c0, off, body, off_p + d);
            }
            lemma_disk_page_slots_agree(c1, c0, off_p, off_p, e, k);
        }
        // The header region is untouched.
        assert forall|x: int| 0 <= x < spec_metadata_size(sig_len) implies byte_at(c1, x)
            == byte_at(c0, x) by {
            lemma_splice_write_byte_at(c0, off, body, x);
        }
        assert(c1.subrange(0, pre.spec_metadata().spec_size()) =~= c0.subrange(
            0,
            pre.spec_metadata().spec_size(),
        ));
        // Well-formedness: clean pages still match their on-disk image.
        assert forall|j: int| 0 <= j < self.spec_pages().len() implies {
            let a = #[trigger] self.spec_pages()[j];
            &&& a.wf()
            &&& a.spec_len() == self.epp()
            &&& 0 <= a.spec_index() < self.num_pages()
            &&& a.spec_time() <= self.spec_clock()
            &&& (!a.spec_modified() ==> a.slots() == disk_page(c1, sig_len, e, k, a.spec_index()))
        } by {
            let a = self.spec_pages()[j];
            let b = pre.spec_pages()[j];
            assert(b.wf() && b.spec_len() == e && 0 <= b.spec_index() < pre.num_pages()
                && b.spec_time() <= pre.spec_clock());
            if !a.spec_modified() {
                if a.spec_index() == pgi {
                    if j != pos {
                        assert(pre.spec_pages()[j].spec_index() != pre.spec_pages()[
                            pos
                        ].spec_index());
                        assert(false);
                    }
                    assert(a.slots() == pg.slots());
                    assert(disk_page(c1, sig_len, e, k, pgi) == pg.slots());
                } else {
                    if j != pos {
                        assert(a == b);
                    }
                    assert(b.slots() == disk_page(c0, sig_len, e, k, b.spec_index()));
                    assert(disk_page(c1, sig_len, e, k, a.spec_index()) == disk_page(
                        c0,
                        sig_len,
                        e,
                        k,
                        a.spec_index(),
                    ));
                }
            }
        }
        assert(distinct_pages(self.spec_pages()));
        assert(self.wf());
        // The logical elements are unchanged.
        assert forall|i: int| 0 <= i < pre.spec_array_size() implies self.elem_view(i)
            == pre.elem_view(i) by {
            let p = i / e;
            lemma_find_page_pos_same_indices(self.spec_pages(), pre.spec_pages(), p);
            let f = find_page_pos(pre.spec_pages(), p);
            lemma_find_page_pos(pre.spec_pages(), p);
            if f >= 0 {
                assert(self.spec_pages()[f].slots() == pre.spec_pages()[f].slots());
            } else {
                assert(p != pgi);
            }
        }
        assert(self.elements() =~= pre.elements());
    }
}

} // verus!

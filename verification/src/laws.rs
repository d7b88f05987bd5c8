use vstd::prelude::*;
use crate::item::{spec_u64_le, Item};
use crate::metadata::Metadata;
use crate::storage::Storage;
use crate::virtual_array::{disk_view, VirtualArray};

verus! {

/// Round trip: a value written at index `i` is read back exactly, whatever
/// happened to its page in between.  `set` leaves the array's elements with
/// `Some(v.enc())` at `i`; whatever `get` then observes at `i` — the page
/// may have been evicted, written back and reloaded — decodes to `v` itself,
/// because encodings determine values.
pub proof fn lemma_set_get_round_trip<T: Item>(
    pre: Seq<Option<Seq<u8>>>,
    i: int,
    v: T,
    got: Option<T>,
)
    requires
        0 <= i < pre.len(),
        got is Some <==> pre.update(i, Some(v.enc()))[i] is Some,
        got matches Some(w) ==> pre.update(i, Some(v.enc()))[i] == Some(w.enc()),
    ensures
        got == Some(v),
{
    let w = got.unwrap();
    T::lemma_enc(v, w);
    assert(got == Some(v));
}

/// Tombstone: after a delete at index `i`, a read at `i` reports absence —
/// also across eviction and reload, since `delete` leaves the array's
/// elements with `None` at `i` and `get` answers from the elements.
pub proof fn lemma_delete_get_absent<T: Item>(pre: Seq<Option<Seq<u8>>>, i: int, got: Option<T>)
    requires
        0 <= i < pre.len(),
        got is Some <==> pre.update(i, None::<Seq<u8>>)[i] is Some,
    ensures
        got is None,
{
}

/// Eviction bound: a well-formed array never holds more resident pages than
/// its configured cache capacity.
pub proof fn lemma_eviction_bound<T: Item, S: Storage>(va: VirtualArray<T, S>)
    requires
        va.wf(),
    ensures
        va.resident_count() <= va.spec_buffer_size(),
{
}

/// The header bytes at the start of a resource determine the metadata: two
/// validated headers read from the same bytes agree field by field.
pub proof fn lemma_header_determines_metadata(c: Seq<u8>, md1: Metadata, md2: Metadata)
    requires
        md1.signature@.len() == md2.signature@.len(),
        c.len() >= md1.spec_size(),
        c.subrange(0, md1.spec_size()) == md1.spec_bytes(),
        c.subrange(0, md2.spec_size()) == md2.spec_bytes(),
    ensures
        md1.signature@ == md2.signature@,
        md1.page_size == md2.page_size,
        md1.array_size == md2.array_size,
{
    let sl = md1.signature@.len() as int;
    let b1 = md1.spec_bytes();
    let b2 = md2.spec_bytes();
    assert(b1 == b2);
    assert(md1.signature@ =~= md2.signature@) by {
        assert forall|x: int| 0 <= x < sl implies md1.signature@[x] == md2.signature@[x] by {
            assert(b1[x] == b2[x]);
        }
    }
    assert forall|x: int| 0 <= x < 8 implies #[trigger] spec_u64_le(md1.page_size as u64)[x]
        == spec_u64_le(md2.page_size as u64)[x] by {
        assert(spec_u64_le(md1.page_size as u64)[x] == b1[sl + x]);
        assert(spec_u64_le(md2.page_size as u64)[x] == b2[sl + x]);
    }
    assert(spec_u64_le(md1.page_size as u64) =~= spec_u64_le(md2.page_size as u64));
    u64::lemma_enc(md1.page_size as u64, md2.page_size as u64);
    assert(md1.page_size as u64 == md2.page_size as u64);
    assert forall|x: int| 0 <= x < 8 implies #[trigger] spec_u64_le(md1.array_size as u64)[x]
        == spec_u64_le(md2.array_size as u64)[x] by {
        assert(spec_u64_le(md1.array_size as u64)[x] == b1[sl + 8 + x]);
        assert(spec_u64_le(md2.array_size as u64)[x] == b2[sl + 8 + x]);
    }
    assert(spec_u64_le(md1.array_size as u64) =~= spec_u64_le(md2.array_size as u64));
    u64::lemma_enc(md1.array_size as u64, md2.array_size as u64);
    assert(md1.array_size as u64 == md2.array_size as u64);
}

/// Write-back across a shutdown: closing an array leaves the resource
/// holding exactly the array's elements, and an array opened on that
/// resource reads exactly them back — the last value set before any
/// eviction or shutdown is what a re-opened array returns.
pub proof fn lemma_close_open_round_trip<T: Item, S: Storage>(
    closed: VirtualArray<T, S>,
    c: Seq<u8>,
    reopened: VirtualArray<T, S>,
)
    requires
        // What `close` guarantees of the resource it hands back.
        disk_view(
            c,
            closed.spec_sig_len(),
            closed.epp(),
            T::size_spec() as int,
            closed.spec_array_size(),
        ) == closed.elements(),
        c.len() >= closed.spec_metadata().spec_size(),
        c.subrange(0, closed.spec_metadata().spec_size())
            == closed.spec_metadata().spec_bytes(),
        closed.epp() == closed.spec_metadata().spec_elements_per_page(T::size_spec() as int),
        // What `open` guarantees of an array opened on the same bytes, under
        // a tag of the same length.
        reopened.spec_metadata().signature@.len() == closed.spec_metadata().signature@.len(),
        c.subrange(0, reopened.spec_metadata().spec_size())
            == reopened.spec_metadata().spec_bytes(),
        reopened.epp() == reopened.spec_metadata().spec_elements_per_page(
            T::size_spec() as int,
        ),
        reopened.elements() == disk_view(
            c,
            reopened.spec_sig_len(),
            reopened.epp(),
            T::size_spec() as int,
            reopened.spec_array_size(),
        ),
    ensures
        reopened.elements() == closed.elements(),
{
    lemma_header_determines_metadata(c, closed.spec_metadata(), reopened.spec_metadata());
}

/// Idempotent open: opening the same resource twice, with tags of one
/// length, yields arrays that read every element identically.
pub proof fn lemma_open_idempotent<T: Item, S: Storage>(
    c: Seq<u8>,
    first: VirtualArray<T, S>,
    second: VirtualArray<T, S>,
)
    requires
        first.spec_metadata().signature@.len() == second.spec_metadata().signature@.len(),
        c.len() >= first.spec_metadata().spec_size(),
        c.subrange(0, first.spec_metadata().spec_size())
            == first.spec_metadata().spec_bytes(),
        c.subrange(0, second.spec_metadata().spec_size())
            == second.spec_metadata().spec_bytes(),
        first.epp() == first.spec_metadata().spec_elements_per_page(T::size_spec() as int),
        second.epp() == second.spec_metadata().spec_elements_per_page(T::size_spec() as int),
        first.elements() == disk_view(
            c,
            first.spec_sig_len(),
            first.epp(),
            T::size_spec() as int,
            first.spec_array_size(),
        ),
        second.elements() == disk_view(
            c,
            second.spec_sig_len(),
            second.epp(),
            T::size_spec() as int,
            second.spec_array_size(),
        ),
    ensures
        second.elements() == first.elements(),
{
    lemma_header_determines_metadata(c, first.spec_metadata(), second.spec_metadata());
}

/// Index translation: splitting an element index into a page index and a
/// slot loses nothing — `page * elements_per_page + slot` is the index
/// again.
pub proof fn lemma_index_translation(i: int, elements_per_page: int)
    requires
        0 <= i,
        elements_per_page >= 1,
    ensures
        (i / elements_per_page) * elements_per_page + (i % elements_per_page) == i,
        0 <= i / elements_per_page,
        0 <= i % elements_per_page < elements_per_page,
{
    vstd::arithmetic::div_mod::lemma_fundamental_div_mod(i, elements_per_page);
    vstd::arithmetic::div_mod::lemma_div_pos_is_pos(i, elements_per_page);
    vstd::arithmetic::div_mod::lemma_mod_division_less_than_divisor(i, elements_per_page);
}

} // verus!

use vstd::prelude::*;
use crate::storage::{byte_at, Storage, StorageError};

verus! {

/// Number of bytes needed to hold one presence bit per element.
pub open spec fn spec_bitmap_byte_size(count: int) -> int {
    count / 8 + if count % 8 != 0 {
        1int
    } else {
        0int
    }
}

/// Bit `k` of the byte `b`.
pub open spec fn spec_bit(b: u8, k: int) -> bool {
    (b >> (k as u8)) & 1u8 == 1u8
}

/// Presence bit `i` of a raw bitmap byte run: bit `i % 8` of byte `i / 8`.
pub open spec fn bit_at(bytes: Seq<u8>, i: int) -> bool {
    spec_bit(byte_at(bytes, i / 8), i % 8)
}

/// A zero byte has no bit set.
pub proof fn lemma_spec_bit_zero(k: int)
    requires
        0 <= k < 8,
    ensures
        !spec_bit(0u8, k),
{
    lemma_zero_bit(k as u8);
}

pub fn calc_bitmap_byte_size(count_of_elements: usize) -> (r: usize)
    ensures
        r as int == spec_bitmap_byte_size(count_of_elements as int),
{
    let count_of_bytes = count_of_elements / 8;
    if count_of_elements % 8 != 0 {
        count_of_bytes + 1
    } else {
        count_of_bytes
    }
}

proof fn lemma_set_bit(b: u8, k: u8, j: u8)
    by (bit_vector)
    requires
        k < 8,
        j < 8,
    ensures
        ((b | (1u8 << k)) >> k) & 1u8 == 1u8,
        j != k ==> ((b | (1u8 << k)) >> j) & 1u8 == (b >> j) & 1u8,
{
}

proof fn lemma_clear_bit(b: u8, k: u8, j: u8)
    by (bit_vector)
    requires
        k < 8,
        j < 8,
    ensures
        ((b & !(1u8 << k)) >> k) & 1u8 == 0u8,
        j != k ==> ((b & !(1u8 << k)) >> j) & 1u8 == (b >> j) & 1u8,
{
}

proof fn lemma_test_bit(b: u8, k: u8)
    by (bit_vector)
    requires
        k < 8,
    ensures
        (b & (1u8 << k) != 0) <==> ((b >> k) & 1u8 == 1u8),
{
}

proof fn lemma_zero_bit(k: u8)
    by (bit_vector)
    requires
        k < 8,
    ensures
        (0u8 >> k) & 1u8 == 0u8,
{
}

/// Presence flags for the slots of one page: bit `i` says whether slot `i`
/// holds a live value.  The flags live in a packed byte buffer that is
/// persisted verbatim.
pub struct Bitmap {
    elements_count: usize,
    bytes: Vec<u8>,
}

impl Bitmap {
    pub closed spec fn spec_elements_count(self) -> int {
        self.elements_count as int
    }

    pub closed spec fn spec_bytes(self) -> Seq<u8> {
        self.bytes@
    }

    /// The byte buffer has exactly the packed size for `elements_count` bits.
    pub open spec fn wf(self) -> bool {
        self.spec_bytes().len() == spec_bitmap_byte_size(self.spec_elements_count())
    }

    /// The presence flags, one per element: flag `i` is bit `i % 8` of byte
    /// `i / 8` of the buffer.
    pub open spec fn bits(self) -> Seq<bool> {
        Seq::new(
            self.spec_elements_count() as nat,
            |i: int| bit_at(self.spec_bytes(), i),
        )
    }

    /// An all-clear bitmap for `elements_count` slots.
    pub fn zeroed(elements_count: usize) -> (r: Bitmap)
        ensures
            r.wf(),
            r.spec_elements_count() == elements_count,
            r.bits() == Seq::new(elements_count as nat, |i: int| false),
            r.spec_bytes() == zero_bytes_vec_spec(elements_count as int),
    {
        let size = calc_bitmap_byte_size(elements_count);
        let mut bytes: Vec<u8> = Vec::new();
        let mut i: usize = 0;
        while i < size
            invariant
                i <= size,
                bytes@.len() == i,
                forall|x: int| 0 <= x < i ==> bytes@[x] == 0u8,
            decreases size - i,
        {
            bytes.push(0u8);
            i = i + 1;
        }
        let r = Bitmap { elements_count, bytes };
        proof {
            assert forall|i: int| 0 <= i < elements_count implies !r.bits()[i] by {
                lemma_zero_bit((i % 8) as u8);
            }
            assert(r.bits() =~= Seq::new(elements_count as nat, |i: int| false));
            assert(r.spec_bytes() =~= zero_bytes_vec_spec(elements_count as int));
        }
        r
    }

    /// A bitmap over a byte buffer read back from storage.  The buffer is
    /// taken verbatim; `Page::new` checks that its size fits the page.
    pub fn new(elements_count: usize, bytes: Vec<u8>) -> (r: Bitmap)
        ensures
            r.spec_elements_count() == elements_count,
            r.spec_bytes() == bytes@,
    {
        Bitmap { elements_count, bytes }
    }

    pub fn elements_count(&self) -> (r: usize)
        ensures
            r == self.spec_elements_count(),
    {
        self.elements_count
    }

    pub fn bytes(&self) -> (r: &[u8])
        ensures
            r@ == self.spec_bytes(),
    {
        self.bytes.as_slice()
    }

    /// Mark slot `index` live.
    pub fn set(&mut self, index: usize) -> (nothing: ())
        requires
            old(self).wf(),
            index < old(self).spec_elements_count(),
        ensures
            final(self).wf(),
            final(self).spec_elements_count() == old(self).spec_elements_count(),
            final(self).bits() == old(self).bits().update(index as int, true),
            final(self).bits()[index as int] == true,
            forall|j: int|
                0 <= j < old(self).bits().len() && j != index ==> final(self).bits()[j] == old(
                    self,
                ).bits()[j],
    {
        let (byte_index, bit_index) = self.get_byte_bit_indices(index);
        proof {
            vstd::arithmetic::div_mod::lemma_div_is_ordered_by_denominator(
                index as int, 8, 8);
        }
        assert(byte_index < self.bytes@.len());
        let b = self.bytes[byte_index];
        self.bytes[byte_index] = b | (1u8 << (bit_index as u8));
        proof {
            self.lemma_bit_update(*old(self), index as int, true);
        }
    }

    /// Mark slot `index` absent.
    pub fn unset(&mut self, index: usize) -> (nothing: ())
        requires
            old(self).wf(),
            index < old(self).spec_elements_count(),
        ensures
            final(self).wf(),
            final(self).spec_elements_count() == old(self).spec_elements_count(),
            final(self).bits() == old(self).bits().update(index as int, false),
            final(self).bits()[index as int] == false,
            forall|j: int|
                0 <= j < old(self).bits().len() && j != index ==> final(self).bits()[j] == old(
                    self,
                ).bits()[j],
    {
        let (byte_index, bit_index) = self.get_byte_bit_indices(index);
        proof {
            vstd::arithmetic::div_mod::lemma_div_is_ordered_by_denominator(
                index as int, 8, 8);
        }
        assert(byte_index < self.bytes@.len());
        let b = self.bytes[byte_index];
        self.bytes[byte_index] = b & !(1u8 << (bit_index as u8));
        proof {
            self.lemma_bit_update(*old(self), index as int, false);
        }
    }

    /// Whether slot `index` is live.
    pub fn get(&self, index: usize) -> (r: bool)
        requires
            self.wf(),
            index < self.spec_elements_count(),
        ensures
            r == self.bits()[index as int],
    {
        let (byte_index, bit_index) = self.get_byte_bit_indices(index);
        proof {
            vstd::arithmetic::div_mod::lemma_div_is_ordered_by_denominator(
                index as int, 8, 8);
        }
        assert(byte_index < self.bytes@.len());
        let r = self.bytes[byte_index] & (1u8 << (bit_index as u8)) != 0;
        proof {
            lemma_test_bit(self.bytes@[byte_index as int], bit_index as u8);
        }
        r
    }

    fn get_byte_bit_indices(&self, index: usize) -> (r: (usize, usize))
        ensures
            r.0 == index as int / 8,
            r.1 == index as int % 8,
    {
        (index / 8, index % 8)
    }

    /// After updating byte `index / 8` with a set or clear of bit
    /// `index % 8`, the flags are the old flags with flag `index` updated.
    proof fn lemma_bit_update(self, pre: Bitmap, index: int, value: bool)
        requires
            pre.wf(),
            0 <= index < pre.spec_elements_count(),
            self.elements_count == pre.elements_count,
            self.bytes@.len() == pre.bytes@.len(),
            index / 8 < pre.bytes@.len(),
            self.bytes@ == pre.bytes@.update(
                index / 8,
                if value {
                    pre.bytes@[index / 8] | (1u8 << ((index % 8) as u8))
                } else {
                    pre.bytes@[index / 8] & !(1u8 << ((index % 8) as u8))
                },
            ),
        ensures
            self.bits() == pre.bits().update(index, value),
    {
        assert forall|i: int| 0 <= i < self.spec_elements_count() implies self.bits()[i]
            == pre.bits().update(index, value)[i] by {
            let bi = i / 8;
            let ki = (i % 8) as u8;
            let k = (index % 8) as u8;
            vstd::arithmetic::div_mod::lemma_fundamental_div_mod(i, 8);
            vstd::arithmetic::div_mod::lemma_fundamental_div_mod(index, 8);
            if bi == index / 8 {
                if value {
                    lemma_set_bit(pre.bytes@[index / 8], k, ki);
                } else {
                    lemma_clear_bit(pre.bytes@[index / 8], k, ki);
                }
            }
        }
        assert(self.bits() =~= pre.bits().update(index, value));
    }

    /// Persist the raw flag bytes at the storage cursor.
    pub fn write<S: Storage>(&self, storage: &mut S) -> (r: Result<(), StorageError>)
        ensures
            r is Ok ==> {
                &&& 0 <= old(storage).cursor()
                &&& final(storage).contents() == crate::storage::splice_write(
                    old(storage).contents(),
                    old(storage).cursor(),
                    self.spec_bytes(),
                )
                &&& final(storage).cursor() == old(storage).cursor()
                    + self.spec_bytes().len()
            },
            r is Err ==> final(storage).contents() == old(storage).contents(),
    {
        storage.write_all(self.bytes.as_slice())
    }

    /// Read back the raw flag bytes for `elements_count` slots from the
    /// storage cursor.  Absence means exactly one thing: the resource failed
    /// the read (a short read included); the buffer size itself is fixed by
    /// `elements_count`, so no shape check can fail here.
    pub fn read<S: Storage>(elements_count: usize, storage: &mut S) -> (r: Option<Bitmap>)
        ensures
            final(storage).contents() == old(storage).contents(),
            r is Some ==> {
                &&& r.unwrap().wf()
                &&& r.unwrap().spec_elements_count() == elements_count
                &&& 0 <= old(storage).cursor()
                &&& old(storage).cursor() + spec_bitmap_byte_size(elements_count as int)
                    <= old(storage).contents().len()
                &&& r.unwrap().spec_bytes() == old(storage).contents().subrange(
                    old(storage).cursor(),
                    old(storage).cursor() + spec_bitmap_byte_size(elements_count as int),
                )
                &&& final(storage).cursor() == old(storage).cursor()
                    + spec_bitmap_byte_size(elements_count as int)
            },
    {
        let size = calc_bitmap_byte_size(elements_count);
        match storage.read_exact(size) {
            Ok(buffer) => Some(Bitmap { elements_count, bytes: buffer }),
            Err(_) => None,
        }
    }
}

/// The spec image of a zeroed bitmap buffer.
pub open spec fn zero_bytes_vec_spec(elements_count: int) -> Seq<u8> {
    crate::storage::zero_bytes(spec_bitmap_byte_size(elements_count) as nat)
}

} // verus!

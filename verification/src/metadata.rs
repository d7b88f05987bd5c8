use vstd::prelude::*;
use crate::item::{spec_u64_le, Item};
use crate::storage::{splice_write, Storage, StorageError};

verus! {

/// A metadata header that cannot be built: the page byte size is zero, or too
/// small to hold even one item.
#[derive(Clone, Copy, Debug, PartialEq, Eq, Structural)]
pub enum ConstructError {
    ZeroDataChunkSize,
    SmallDataChunkSize,
}

/// Reading or writing a metadata header failed: the leading bytes are not the
/// expected format tag, the resource failed, or the header read back fails
/// the same validation `Metadata::new` performs.
#[derive(Debug)]
pub enum SerializationError {
    InvalidSignature { expected: Vec<u8>, found: Vec<u8> },
    IoError(StorageError),
    ConstructError(ConstructError),
}

/// The fixed-size header at the start of the backing file: a format tag, the
/// page byte size, and the logical element count of the array.
pub struct Metadata {
    pub signature: Vec<u8>,
    pub page_size: usize,
    pub array_size: usize,
}

/// Byte length of a header whose format tag has `sig_len` bytes: the tag,
/// then two 64-bit little-endian fields.
pub open spec fn spec_metadata_size(sig_len: int) -> int {
    sig_len + 16
}

impl Metadata {
    /// The header holds a page size of at least one item of `item_size`
    /// bytes.
    pub open spec fn valid(self, item_size: int) -> bool {
        &&& self.page_size > 0
        &&& item_size >= 1
        &&& self.page_size as int / item_size >= 1
    }

    /// Elements of `item_size` bytes that fit in one page; trailing remainder
    /// bytes of the page are unused padding.
    pub open spec fn spec_elements_per_page(self, item_size: int) -> int {
        self.page_size as int / item_size
    }

    pub open spec fn spec_size(self) -> int {
        spec_metadata_size(self.signature@.len() as int)
    }

    /// The on-disk image of this header.
    pub open spec fn spec_bytes(self) -> Seq<u8> {
        self.signature@ + spec_u64_le(self.page_size as u64) + spec_u64_le(
            self.array_size as u64,
        )
    }

    /// Validate and build a header.  Fails with `ZeroDataChunkSize` when the
    /// page byte size is zero, and with `SmallDataChunkSize` when no item of
    /// `T`'s size fits in a page; performs no I/O.
    pub fn new<T: Item>(signature: Vec<u8>, page_size: usize, array_size: usize) -> (r:
        Result<Metadata, ConstructError>)
        ensures
            r == if page_size == 0 {
                Err::<Metadata, ConstructError>(ConstructError::ZeroDataChunkSize)
            } else if (page_size as int) < T::size_spec() {
                Err::<Metadata, ConstructError>(ConstructError::SmallDataChunkSize)
            } else {
                Ok::<Metadata, ConstructError>(
                    (Metadata { signature: signature, page_size: page_size, array_size: array_size }),
                )
            },
            r is Ok ==> r.unwrap().valid(T::size_spec() as int),
    {
        let metadata = Metadata { signature, page_size, array_size };
        if metadata.page_size == 0 {
            return Err(ConstructError::ZeroDataChunkSize);
        }
        if metadata.count_elements_on_page::<T>() == 0 {
            proof {
                vstd::arithmetic::div_mod::lemma_small_div_converse(
                    page_size as int, T::size_spec() as int);
            }
            return Err(ConstructError::SmallDataChunkSize);
        }
        proof {
            if (page_size as int) < T::size_spec() {
                vstd::arithmetic::div_mod::lemma_basic_div(
                    page_size as int, T::size_spec() as int);
            }
        }
        Ok(metadata)
    }

    /// Elements of `T` that fit in one page.
    pub fn count_elements_on_page<T: Item>(&self) -> (r: usize)
        ensures
            r as int == self.spec_elements_per_page(T::size_spec() as int),
            T::size_spec() >= 1,
    {
        self.page_size / T::byte_size()
    }

    /// Emit the header at the storage cursor, as one write.
    pub fn write<S: Storage>(&self, storage: &mut S) -> (r: Result<(), StorageError>)
        requires
            self.signature@.len() + 16 <= usize::MAX,
        ensures
            r is Ok ==> {
                &&& 0 <= old(storage).cursor()
                &&& final(storage).contents() == splice_write(
                    old(storage).contents(),
                    old(storage).cursor(),
                    self.spec_bytes(),
                )
                &&& final(storage).cursor() == old(storage).cursor() + self.spec_size()
            },
            r is Err ==> final(storage).contents() == old(storage).contents(),
    {
        let mut buffer: Vec<u8> = Vec::new();
        buffer.extend_from_slice(self.signature.as_slice());
        let page_size_bytes = (self.page_size as u64).encode();
        buffer.extend_from_slice(page_size_bytes.as_slice());
        let array_size_bytes = (self.array_size as u64).encode();
        buffer.extend_from_slice(array_size_bytes.as_slice());
        proof {
            assert(buffer@ =~= self.spec_bytes());
        }
        storage.write_all(buffer.as_slice())
    }

    /// Read a header back from the storage cursor and validate it: the
    /// leading bytes must equal `expected_signature`, and the sizes must pass
    /// the checks of `Metadata::new` for `T`.
    pub fn read<S: Storage, T: Item>(storage: &mut S, expected_signature: &[u8]) -> (r:
        Result<Metadata, SerializationError>)
        ensures
            final(storage).contents() == old(storage).contents(),
            r is Ok ==> {
                &&& r.unwrap().signature@ == expected_signature@
                &&& r.unwrap().valid(T::size_spec() as int)
                &&& 0 <= old(storage).cursor()
                &&& old(storage).cursor() + r.unwrap().spec_size() <= old(
                    storage,
                ).contents().len()
                &&& old(storage).contents().subrange(
                    old(storage).cursor(),
                    old(storage).cursor() + r.unwrap().spec_size(),
                ) == r.unwrap().spec_bytes()
                &&& final(storage).cursor() == old(storage).cursor() + r.unwrap().spec_size()
            },
            r matches Err(SerializationError::InvalidSignature { expected, found }) ==> {
                &&& expected@ == expected_signature@
                &&& found@ != expected_signature@
                &&& 0 <= old(storage).cursor()
                &&& old(storage).cursor() + expected_signature@.len() <= old(
                    storage,
                ).contents().len()
                &&& found@ == old(storage).contents().subrange(
                    old(storage).cursor(),
                    old(storage).cursor() + expected_signature@.len(),
                )
            },
            r matches Err(SerializationError::ConstructError(err)) ==> exists|ps: usize|
                {
                    &&& #[trigger] spec_u64_le(ps as u64) == old(storage).contents().subrange(
                        old(storage).cursor() + expected_signature@.len(),
                        old(storage).cursor() + expected_signature@.len() + 8,
                    )
                    &&& (err == ConstructError::ZeroDataChunkSize <==> ps == 0)
                    &&& (err == ConstructError::SmallDataChunkSize <==> 0 < ps && (
                    ps as int) < T::size_spec())
                },
    {
        let ghost c0 = storage.cursor();
        let found = match storage.read_exact(expected_signature.len()) {
            Ok(b) => b,
            Err(e) => {
                return Err(SerializationError::IoError(e));
            },
        };
        if !bytes_equal(found.as_slice(), expected_signature) {
            let expected = copy_bytes(expected_signature);
            return Err(SerializationError::InvalidSignature { expected, found });
        }
        let page_size = match read_u64_field(storage) {
            Ok(v) => v,
            Err(e) => {
                return Err(e);
            },
        };
        let array_size = match read_u64_field(storage) {
            Ok(v) => v,
            Err(e) => {
                return Err(e);
            },
        };
        let signature = copy_bytes(expected_signature);
        let metadata = match Metadata::new::<T>(signature, page_size, array_size) {
            Ok(m) => m,
            Err(e) => {
                proof {
                    let sl = expected_signature@.len() as int;
                    assert(spec_u64_le(page_size as u64) == old(storage).contents().subrange(
                        c0 + sl,
                        c0 + sl + 8,
                    ));
                }
                return Err(SerializationError::ConstructError(e));
            },
        };
        proof {
            let c = old(storage).contents();
            let sl = expected_signature@.len() as int;
            assert(c.subrange(c0, c0 + sl) == found@);
            assert(c.subrange(c0 + sl, c0 + sl + 8) == spec_u64_le(page_size as u64));
            assert(c.subrange(c0 + sl + 8, c0 + sl + 16) == spec_u64_le(array_size as u64));
            assert(c.subrange(c0, c0 + metadata.spec_size()) =~= c.subrange(c0, c0 + sl)
                + c.subrange(c0 + sl, c0 + sl + 8) + c.subrange(c0 + sl + 8, c0 + sl + 16));
        }
        Ok(metadata)
    }
}

/// Whether two byte runs hold the same bytes.
fn bytes_equal(a: &[u8], b: &[u8]) -> (r: bool)
    ensures
        r == (a@ == b@),
{
    if a.len() != b.len() {
        proof {
            assert(a@.len() != b@.len());
        }
        return false;
    }
    let mut i: usize = 0;
    while i < a.len()
        invariant
            i <= a@.len(),
            a@.len() == b@.len(),
            forall|x: int| 0 <= x < i ==> a@[x] == b@[x],
        decreases a@.len() - i,
    {
        if a[i] != b[i] {
            return false;
        }
        i = i + 1;
    }
    proof {
        assert(a@ =~= b@);
    }
    true
}

/// A fresh buffer holding the same bytes.
fn copy_bytes(a: &[u8]) -> (r: Vec<u8>)
    ensures
        r@ == a@,
{
    let mut r: Vec<u8> = Vec::new();
    r.extend_from_slice(a);
    proof {
        assert(r@ =~= a@);
    }
    r
}

/// Read one 64-bit little-endian header field that must fit in `usize`.
fn read_u64_field<S: Storage>(storage: &mut S) -> (r: Result<usize, SerializationError>)
    ensures
        final(storage).contents() == old(storage).contents(),
        r is Ok ==> {
            &&& 0 <= old(storage).cursor()
            &&& old(storage).cursor() + 8 <= old(storage).contents().len()
            &&& old(storage).contents().subrange(
                old(storage).cursor(),
                old(storage).cursor() + 8,
            ) == spec_u64_le(r.unwrap() as u64)
            &&& final(storage).cursor() == old(storage).cursor() + 8
        },
        r matches Err(e) ==> e is IoError,
{
    let bytes = match storage.read_exact(8) {
        Ok(b) => b,
        Err(e) => {
            return Err(SerializationError::IoError(e));
        },
    };
    let value = u64::decode(bytes.as_slice());
    if value > (usize::MAX as u64) {
        return Err(SerializationError::IoError(StorageError));
    }
    let value_usize = value as usize;
    proof {
        assert(value_usize as u64 == value);
        assert(spec_u64_le(value_usize as u64) == bytes@);
    }
    Ok(value_usize)
}

} // verus!

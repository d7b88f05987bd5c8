use vstd::prelude::*;
use core::marker::PhantomData;
use crate::item::Item;
use crate::storage::Storage;
use crate::metadata::ConstructError;
use crate::virtual_array::{
    default_signature, disk_view, spec_calc_page_size, spec_default_signature, VirtualArray,
    VirtualArrayError,
};

verus! {

/// Placeholder for a builder parameter that has not been chosen yet.
pub struct NoneType;

/// Staged construction of a virtual array: collect the resource, the item
/// type, the format tag and the cache capacity, then `create` a fresh array
/// or `open` an existing one.
pub struct VirtualArrayBuilder<T, S: Storage> {
    source: S,
    signature: Vec<u8>,
    buffer_size: Option<usize>,
    _item_marker: PhantomData<T>,
}

impl<S: Storage> VirtualArrayBuilder<NoneType, S> {
    /// Start from a byte resource, with the default format tag and no item
    /// type or cache capacity chosen yet.
    pub fn from_storage(storage: S) -> (r: VirtualArrayBuilder<NoneType, S>)
        ensures
            r.spec_source() == storage,
            r.spec_signature() == spec_default_signature(),
            r.spec_buffer_size() is None,
    {
        VirtualArrayBuilder {
            source: storage,
            signature: default_signature(),
            buffer_size: None,
            _item_marker: PhantomData,
        }
    }

    /// Convenience name for `from_storage`.
    pub fn from_repository(storage: S) -> (r: VirtualArrayBuilder<NoneType, S>)
        ensures
            r.spec_source() == storage,
            r.spec_signature() == spec_default_signature(),
            r.spec_buffer_size() is None,
    {
        Self::from_storage(storage)
    }
}

impl<T, S: Storage> VirtualArrayBuilder<T, S> {
    pub closed spec fn spec_source(self) -> S {
        self.source
    }

    pub closed spec fn spec_signature(self) -> Seq<u8> {
        self.signature@
    }

    pub closed spec fn spec_buffer_size(self) -> Option<usize> {
        self.buffer_size
    }

    /// Choose the item type the array will hold.
    pub fn item_type<I>(self) -> (r: VirtualArrayBuilder<I, S>)
        ensures
            r.spec_source() == self.spec_source(),
            r.spec_signature() == self.spec_signature(),
            r.spec_buffer_size() == self.spec_buffer_size(),
    {
        VirtualArrayBuilder {
            source: self.source,
            signature: self.signature,
            buffer_size: self.buffer_size,
            _item_marker: PhantomData,
        }
    }

    /// Choose the format tag written to, and expected at, the start of the
    /// backing file.
    pub fn signature(self, signature: Vec<u8>) -> (r: VirtualArrayBuilder<T, S>)
        ensures
            r.spec_source() == self.spec_source(),
            r.spec_signature() == signature@,
            r.spec_buffer_size() == self.spec_buffer_size(),
    {
        VirtualArrayBuilder {
            source: self.source,
            signature,
            buffer_size: self.buffer_size,
            _item_marker: PhantomData,
        }
    }

    /// Choose how many pages may be resident at once.
    pub fn buffer_size(self, buffer_size: usize) -> (r: VirtualArrayBuilder<T, S>)
        ensures
            r.spec_source() == self.spec_source(),
            r.spec_signature() == self.spec_signature(),
            r.spec_buffer_size() == Some(buffer_size),
    {
        VirtualArrayBuilder {
            source: self.source,
            signature: self.signature,
            buffer_size: Some(buffer_size),
            _item_marker: PhantomData,
        }
    }
}

impl<T: Item, S: Storage> VirtualArrayBuilder<T, S> {
    /// Lay a fresh array out on the resource: `array_size` logical elements
    /// in pages of (at least) `data_chunk_size` bytes.
    pub fn create(self, array_size: usize, data_chunk_size: usize) -> (r: Result<
        VirtualArray<T, S>,
        VirtualArrayError,
    >)
        requires
            self.spec_buffer_size() matches Some(b) && b >= 1,
            self.spec_signature().len() + 16 <= usize::MAX,
            data_chunk_size + T::size_spec() <= usize::MAX,
        ensures
            r matches Ok(va) ==> {
                &&& va.wf()
                &&& va.spec_metadata().signature@ == self.spec_signature()
                &&& va.spec_metadata().page_size as int == spec_calc_page_size(
                    data_chunk_size as int,
                    T::size_spec() as int,
                )
                &&& va.spec_metadata().array_size == array_size
                &&& Some(va.spec_buffer_size() as usize) == self.spec_buffer_size()
                &&& va.resident_count() == 0
                &&& va.elements() == Seq::new(array_size as nat, |i: int| None::<Seq<u8>>)
                &&& disk_view(
                    va.spec_contents(),
                    va.spec_sig_len(),
                    va.epp(),
                    T::size_spec() as int,
                    va.spec_array_size(),
                ) == va.elements()
            },
            data_chunk_size == 0 <==> r matches Err(
                VirtualArrayError::ConstructMetadataError(ConstructError::ZeroDataChunkSize),
            ),
    {
        let buffer_size = match self.buffer_size {
            Some(b) => b,
            None => {
                proof {
                    assert(false);
                }
                return Err(
                    VirtualArrayError::ConstructMetadataError(
                        ConstructError::ZeroDataChunkSize,
                    ),
                );
            },
        };
        VirtualArray::<T, S>::create_with_signature(
            self.source,
            self.signature,
            array_size,
            buffer_size,
            data_chunk_size,
        )
    }

    /// Open the existing array on the resource, validating its format tag.
    pub fn open(self) -> (r: Result<VirtualArray<T, S>, VirtualArrayError>)
        requires
            self.spec_buffer_size() matches Some(b) && b >= 1,
            self.spec_signature().len() + 16 <= usize::MAX,
        ensures
            r matches Ok(va) ==> {
                &&& va.wf()
                &&& Some(va.spec_buffer_size() as usize) == self.spec_buffer_size()
                &&& va.resident_count() == 0
                &&& va.spec_metadata().signature@ == self.spec_signature()
                &&& va.spec_contents() == self.spec_source().contents()
                &&& self.spec_source().contents().len() >= va.spec_metadata().spec_size()
                &&& self.spec_source().contents().subrange(0, va.spec_metadata().spec_size())
                    == va.spec_metadata().spec_bytes()
                &&& va.elements() == disk_view(
                    self.spec_source().contents(),
                    va.spec_sig_len(),
                    va.epp(),
                    T::size_spec() as int,
                    va.spec_array_size(),
                )
            },
            r matches Err(VirtualArrayError::MetadataSerializationError(
                crate::metadata::SerializationError::InvalidSignature { expected, found },
            )) ==> expected@ == self.spec_signature() && found@ != self.spec_signature(),
    {
        let buffer_size = match self.buffer_size {
            Some(b) => b,
            None => {
                proof {
                    assert(false);
                }
                return Err(VirtualArrayError::IoError(crate::storage::StorageError));
            },
        };
        VirtualArray::<T, S>::open_with_signature(
            self.source,
            self.signature.as_slice(),
            buffer_size,
        )
    }
}

} // verus!

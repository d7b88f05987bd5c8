//! A file-backed logical array split into fixed-size pages, with a bounded
//! in-memory page cache, presence bitmaps, and a byte-exact on-disk codec.

use vstd::prelude::*;

pub mod bitmap;
pub mod builder;
pub mod item;
pub mod laws;
pub mod metadata;
pub mod page;
pub mod serializer;
pub mod storage;
pub mod virtual_array;

pub use bitmap::Bitmap;
pub use bitmap::calc_bitmap_byte_size;
pub use item::BytePair;
pub use item::Item;
pub use metadata::ConstructError;
pub use metadata::Metadata;
pub use metadata::spec_metadata_size;
pub use page::DataChunk;
pub use page::Page;
pub use page::PageError;
pub use serializer::DefaultSerializer;
pub use virtual_array::VirtualArray;
pub use virtual_array::VirtualArrayError;
pub use virtual_array::disk_view;
pub use virtual_array::calc_page_size;
pub use virtual_array::default_signature;
pub use virtual_array::get_page_offset;
pub use virtual_array::seek_to_page;
pub use virtual_array::seek_to_start;
pub use builder::NoneType;
pub use builder::VirtualArrayBuilder;
pub use laws::lemma_close_open_round_trip;
pub use laws::lemma_delete_get_absent;
pub use laws::lemma_eviction_bound;
pub use laws::lemma_header_determines_metadata;
pub use laws::lemma_index_translation;
pub use laws::lemma_open_idempotent;
pub use laws::lemma_set_get_round_trip;
pub use storage::MemStorage;
pub use storage::Storage;
pub use storage::StorageError;

//! A single-node vector search library: paged posting lists, versioned
//! vectors, radix-trie inverted indexes with quantized values, BM25 and
//! dot-product scoring, fixed-point quantizers, byte-level serializers
//! over a paged buffer manager, and an append-only versioning scheme.
//!
//! Values that the surrounding system handles as 32-bit floats are
//! carried here as fixed-point integers (see `fixed`), so that every
//! arithmetic step is verified; conversions to and from machine floats
//! happen outside the library.

pub mod api_service;
pub mod bufio;
pub mod calibration;
pub mod dense_index;
pub mod file_persist;
pub mod fixed;
pub mod inverted_index;
pub mod page;
pub mod path;
pub mod serializer;
pub mod sparse_ann_query;
pub mod tf_idf_index;
pub mod tokenize;
pub mod versioned_vec;
pub mod versioning;

pub use page::{Page, Pagepool};

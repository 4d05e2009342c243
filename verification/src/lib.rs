//! Immutable image-layer files for a versioned page store.
//!
//! An image layer holds every key/value pair of one contiguous key range as
//! of one LSN. A key of the range that the layer does not hold does not
//! exist at that LSN.
//!
//! This crate holds the format and the rules and does no I/O of its own. A
//! writer collects the values and hands out the bytes of the file. A layer
//! reads its file through whatever implements [`block_io::BlockReader`];
//! [`block_io::MemoryFile`] is a reader over bytes in memory.
//!
//! ```text
//! offset 0                        summary, zero-padded to one page
//! offset PAGE_SZ                  values: length-prefixed blobs, back to back
//! offset index_start_blk*PAGE_SZ  index: record count, then (key, blob ref) records
//! ```
//!
//! What is proved of writers, files and layers together stands in [`laws`].
pub mod bin_ser;
pub mod blob_io;
pub mod block_io;
pub mod error;
pub mod filename;
pub mod hex;
pub mod image_layer;
pub mod index;
pub mod laws;
pub mod layer_file;
pub mod lsn;
pub mod repository;
pub mod storage_layer;
pub mod summary;
pub mod zid;

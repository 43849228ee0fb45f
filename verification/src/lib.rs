//! An embedded, file-backed row store for typed, fixed-width records.
//!
//! The crate is the storage engine proper: the byte layout of fields and
//! records, the record file, the side files that hold variable-length
//! payloads, the range cache, the sorted index and the table that ties them
//! together. Files are held as byte images; every change to an image is also
//! written to a log of disk operations, so that a caller can bring the files
//! on disk up to date in the way the engine decided (append, splice through a
//! temporary file, rewrite, truncate).
pub mod bd_path;
pub mod bin_file;
pub mod binary;
pub mod cache;
pub mod cached_bin_file;
pub mod dyn_binary;
pub mod error;
pub mod foreign;
pub mod helper;
pub mod index_file;
pub mod index_laws;
pub mod laws;
pub mod le_bytes;
pub mod order;
pub mod plain;
pub mod prelude;
pub mod record;
pub mod side_files;
pub mod table;
pub mod table_laws;


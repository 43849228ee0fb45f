//! The names that most callers need.
pub use crate::bd_path::BDPath;
pub use crate::bin_file::{BaseBinFile, BinFile};
pub use crate::binary::Binary;
pub use crate::cache::Cache;
pub use crate::cached_bin_file::CachedBinFile;
pub use crate::dyn_binary::DynanicBinary;
pub use crate::error::DbError;
pub use crate::foreign::Foreign;
pub use crate::index_file::{
    CachedIndexFile, IndexFile, IndexGet, IndexRow, SpecificIndexFile, UnspecifiedIndex,
};
pub use crate::table::{CachedTableFile, SpecificTableFile, Table, TableFile, TableGet};

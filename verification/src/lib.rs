//! An embedded, single-file key/value store: fixed-size pages, a dual
//! meta-page commit pointer, and a freelist of reusable page ids.
//!
//! This crate holds the storage-engine foundation: the on-disk page
//! format, meta-page validation and selection, the freelist, and the
//! in-memory file collaborators that stand in for an operating system's
//! filesystem.

use vstd::prelude::*;

pub mod db;
pub mod errors;
pub mod freelist;
pub mod fs;
pub mod keys;
pub mod meta;
pub mod node;
pub mod page;

pub use db::{OpenOptions, DB};
pub use errors::{Error, IoErrorKind};
pub use fs::{DbFile, File, IndexByPageID, MemoryMap, MetaData, Mmap, OpenOption, PathLike,
    SeekFrom};
pub use fs::memfile::{FakeMap, FileOpenOptions, FileStore, IndexByPageIDImpl, MemoryFile};

verus! {

/// Marker stored in every meta page; a page without it is not a meta page.
pub const MAGIC_VALUE: u32 = 0x00AB_CDEF;

/// On-disk format version this engine reads and writes.
pub const VERSION: u32 = 1;

/// Default page size used when the caller does not choose one.
pub const DEFAULT_PAGE_SIZE: u64 = 4096;

/// Default number of pages allocated for a brand-new database file.
pub const DEFAULT_NUM_PAGES: usize = 32;

/// Page size the host suggests; this build uses the common 4 KiB.
pub fn get_page_size() -> (r: usize)
    ensures
        r == DEFAULT_PAGE_SIZE,
{
    4096
}

} // verus!

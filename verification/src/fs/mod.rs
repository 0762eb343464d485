//! The engine's only view of the outside world: a file capability set,
//! a path abstraction, and the page-index mapping produced from a file.
//!
//! The engine runs without an operating system filesystem: the concrete
//! collaborators live in [`memfile`] and keep whole files in memory.

pub mod memfile;

use vstd::prelude::*;
use crate::errors::Error;
use crate::fs::memfile::{FileStore, MemoryFile, store_files};

verus! {

/// Where a seek starts from.
#[derive(Debug, Clone, Copy, PartialEq, Eq, Structural)]
pub enum SeekFrom {
    /// Absolute offset from the start of the file.
    Start(u64),
    /// Offset relative to the current position.
    Current(i64),
    /// Offset relative to the end of the file.
    End(i64),
}

/// The byte position a seek asks for, before any range check.
pub open spec fn spec_seek_target(pos: int, len: int, from: SeekFrom) -> int {
    match from {
        SeekFrom::Start(l) => l as int,
        SeekFrom::Current(l) => pos + l,
        SeekFrom::End(l) => len + l,
    }
}

/// What a file reports about itself: its length.
pub struct MetaData {
    /// Length of the file in bytes.
    pub len: u64,
}

impl MetaData {
    /// The file length in bytes.
    pub fn len(&self) -> (r: u64)
        ensures
            r == self.len,
    {
        self.len
    }
}

/// The file capability set the engine consumes: seek, read, write and
/// flush, plus the extension calls (locking, growth, metadata, sync).
/// The contracts speak of the file as a byte sequence and a position;
/// the store is the durability target, and every mutation of the bytes
/// publishes the file under its name there.
pub trait DbFile: Sized {
    /// The file's bytes.
    spec fn data_spec(&self) -> Seq<u8>;

    /// The current read/write position.
    spec fn pos_spec(&self) -> int;

    /// The name the file is stored under.
    spec fn name_spec(&self) -> Seq<char>;

    /// Moves the position. Fails without moving when the target lies
    /// before the start or past what a position can hold.
    fn seek(&mut self, pos: SeekFrom) -> (r: Result<u64, Error>)
        ensures
            final(self).data_spec() == old(self).data_spec(),
            ({
                let t = spec_seek_target(
                    old(self).pos_spec(),
                    old(self).data_spec().len() as int,
                    pos,
                );
                if 0 <= t <= usize::MAX as int {
                    &&& r is Ok
                    &&& r->Ok_0 == t as u64
                    &&& final(self).pos_spec() == t
                } else {
                    &&& r is Err
                    &&& final(self).pos_spec() == old(self).pos_spec()
                }
            }),
    ;

    /// Fills the front of `buf` with bytes from the position on, up to
    /// `buf`'s length, and advances the position by what was read.
    fn read(&mut self, buf: &mut Vec<u8>) -> (r: Result<usize, Error>)
        ensures
            final(self).data_spec() == old(self).data_spec(),
            final(buf)@.len() == old(buf)@.len(),
            r is Ok ==> ({
                let avail = if old(self).pos_spec() >= old(self).data_spec().len() {
                    0int
                } else {
                    old(self).data_spec().len() - old(self).pos_spec()
                };
                let act = if avail > old(buf)@.len() {
                    old(buf)@.len() as int
                } else {
                    avail
                };
                &&& r->Ok_0 == act
                &&& final(self).pos_spec() == old(self).pos_spec() + act
                &&& forall|i: int|
                    0 <= i < old(buf)@.len() ==> final(buf)@[i] == (if i < act {
                        old(self).data_spec()[old(self).pos_spec() + i]
                    } else {
                        old(buf)@[i]
                    })
            }),
    ;

    /// Writes all of `buf` at the position, zero-filling any gap between
    /// the old end of the file and the position, and advances past it.
    /// The written file is published to the store under its name at
    /// once.
    fn write(&mut self, store: &mut FileStore, buf: &[u8]) -> (r: Result<usize, Error>)
        requires
            old(self).pos_spec() + buf@.len() <= usize::MAX as int,
        ensures
            final(self).name_spec() == old(self).name_spec(),
            r is Ok ==> store_files(*final(store)) == store_files(*old(store)).insert(
                old(self).name_spec(),
                final(self).data_spec(),
            ),
            r is Err ==> store_files(*final(store)) == store_files(*old(store)),
            r is Ok ==> ({
                let start = old(self).pos_spec();
                let m = buf@.len() as int;
                let oldlen = old(self).data_spec().len() as int;
                &&& r->Ok_0 == m
                &&& final(self).pos_spec() == start + m
                &&& final(self).data_spec().len() == (if start + m > oldlen {
                    start + m
                } else {
                    oldlen
                })
                &&& forall|i: int|
                    0 <= i < final(self).data_spec().len() ==> final(self).data_spec()[i] == (
                    if start <= i < start + m {
                        buf@[i - start]
                    } else if i < oldlen {
                        old(self).data_spec()[i]
                    } else {
                        0u8
                    })
            }),
            r is Err ==> *final(self) == *old(self),
    ;

    /// Flushes buffered writes; the bytes and position do not change.
    fn flush(&mut self) -> (r: Result<(), Error>)
        ensures
            *final(self) == *old(self),
    ;

    /// Takes the advisory exclusive lock on the file.
    fn lock_exclusive(&self) -> (r: Result<(), Error>);

    /// Releases the advisory lock.
    fn unlock(&self) -> (r: Result<(), Error>);

    /// Grows the file to `new_size` bytes, zero-filling the tail. A file
    /// already at least that large stays as it is. The grown file is
    /// published to the store under its name at once.
    fn allocate(&mut self, store: &mut FileStore, new_size: u64) -> (r: Result<(), Error>)
        requires
            new_size <= usize::MAX as u64,
        ensures
            final(self).name_spec() == old(self).name_spec(),
            final(self).pos_spec() == old(self).pos_spec(),
            r is Ok ==> store_files(*final(store)) == store_files(*old(store)).insert(
                old(self).name_spec(),
                final(self).data_spec(),
            ),
            r is Err ==> store_files(*final(store)) == store_files(*old(store)),
            r is Ok ==> ({
                let oldlen = old(self).data_spec().len() as int;
                &&& final(self).data_spec().len() == (if oldlen > new_size as int {
                    oldlen
                } else {
                    new_size as int
                })
                &&& forall|i: int|
                    0 <= i < final(self).data_spec().len() ==> final(self).data_spec()[i] == (
                    if i < oldlen {
                        old(self).data_spec()[i]
                    } else {
                        0u8
                    })
            }),
            r is Err ==> *final(self) == *old(self),
    ;

    /// Reports the file's length.
    fn metadata(&self) -> (r: Result<MetaData, Error>)
        ensures
            r is Ok ==> r->Ok_0.len == self.data_spec().len(),
    ;

    /// Pushes everything to durable storage; no visible state changes.
    fn sync_all(&self) -> (r: Result<(), Error>);

    /// The file's length in bytes.
    fn size(&self) -> (r: usize)
        ensures
            r == self.data_spec().len(),
    ;

    /// Address hint for map-backed files; collaborators without a raw
    /// mapping report zero.
    fn addr(&self) -> (r: usize);
}

/// A file handle the engine owns: the in-memory collaborator under the
/// capability set above.
pub struct File {
    /// The in-memory file this handle drives.
    pub file: MemoryFile,
}

impl File {
    /// Wraps a collaborator file in the engine's handle.
    pub fn new(file: MemoryFile) -> (r: File)
        ensures
            r.file == file,
    {
        File { file }
    }
}

/// A name a file can be opened under.
pub trait PathLike: Sized {
    /// The path as a character sequence.
    spec fn path_spec(&self) -> Seq<char>;

    /// Whether a file of this name is in the store.
    fn exists_in(&self, store: &FileStore) -> (r: bool)
        ensures
            r == store_files(*store).dom().contains(self.path_spec()),
    ;

    /// The path as an owned string.
    fn path(&self) -> (r: String)
        ensures
            r@ == self.path_spec(),
    ;
}

/// Builder for opening a file, mirroring the usual open options.
pub trait OpenOption: Sized {
    /// A builder with nothing set.
    fn new() -> Self;

    /// Asks for read access.
    fn read(self, read: bool) -> Self;

    /// Asks for write access.
    fn write(self, write: bool) -> Self;

    /// Asks that a missing file be created.
    fn create(self, create: bool) -> Self;

    /// Opens the named file in the store, creating it empty when absent.
    fn open<T: PathLike>(&mut self, store: &mut FileStore, path: &T) -> (r: Result<File, Error>)
        ensures
            r is Ok ==> ({
                let f = r->Ok_0;
                &&& f.file.name@ == path.path_spec()
                &&& f.file.pos == 0
                &&& f.file.data@ == (if store_files(*old(store)).dom().contains(path.path_spec()) {
                    store_files(*old(store))[path.path_spec()]
                } else {
                    Seq::<u8>::empty()
                })
                &&& store_files(*final(store)) == store_files(*old(store)).insert(
                    path.path_spec(),
                    f.file.data@,
                )
            }),
            r is Err ==> store_files(*final(store)) == store_files(*old(store)),
    ;
}

/// Produces a page index from a file: the engine's read path.
pub trait MemoryMap: Sized {
    /// The concrete page index this collaborator builds.
    type Index: IndexByPageID;

    /// Captures the file's bytes as a page-addressable view.
    fn do_map(&self, file: &mut File) -> (r: Result<Self::Index, Error>)
        ensures
            *final(file) == *old(file),
            r is Ok ==> r->Ok_0.data_spec() == old(file).file.data_spec(),
    ;
}

/// Resolves a page id to that page's bytes.
pub trait IndexByPageID: Sized {
    /// The mapped bytes.
    spec fn data_spec(&self) -> Seq<u8>;

    /// The bytes of page `page_id`: exactly `page_size` of them, taken
    /// at offset `page_id * page_size`. Fails exactly when the page
    /// lies past the end of the mapped bytes.
    fn index(&self, page_id: u64, page_size: usize) -> (r: Result<Vec<u8>, Error>)
        requires
            page_size >= 1,
        ensures
            r is Ok <==> (page_id as int + 1) * (page_size as int) <= self.data_spec().len(),
            r is Ok ==> r->Ok_0@ == self.data_spec().subrange(
                page_id as int * page_size as int,
                (page_id as int + 1) * (page_size as int),
            ),
            r is Ok ==> r->Ok_0@.len() == page_size,
    ;

    /// How many bytes are mapped.
    fn len(&self) -> (r: usize)
        ensures
            r == self.data_spec().len(),
    ;
}

/// A raw view over a mapped file: its size and starting address.
pub struct Mmap {
    /// Bytes mapped.
    pub size: usize,
    /// Address hint of the mapping; zero for the in-memory collaborator.
    pub addr: usize,
}

} // verus!

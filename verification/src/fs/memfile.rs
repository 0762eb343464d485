//! The in-memory file collaborators: a named byte-buffer store, a file
//! handle over one buffer, and a page index that snapshots the buffer.

use vstd::prelude::*;
use crate::errors::{Error, IoErrorKind};
use crate::fs::{
    DbFile, File, IndexByPageID, MemoryMap, MetaData, Mmap, OpenOption, PathLike, SeekFrom,
};

verus! {

/// The named byte buffers that stand in for a filesystem. Opening a
/// database reads a buffer out of the store; persisting writes it back.
#[verifier::external_body]
pub struct FileStore {
    files: hashbrown::HashMap<String, Vec<u8>>,
}

/// What the store holds: a map from file name to file bytes.
pub uninterp spec fn store_files(s: FileStore) -> Map<Seq<char>, Seq<u8>>;

impl FileStore {
    /// An empty store: no file exists yet.
    ///
    /// Relies on hashbrown::HashMap::new: the new map holds no entries.
    #[verifier::external_body]
    pub fn new() -> (store: FileStore)
        ensures
            store_files(store).dom() == Set::<Seq<char>>::empty(),
    {
        FileStore { files: hashbrown::HashMap::new() }
    }

    /// The bytes stored under `name`, if that file exists.
    ///
    /// Relies on hashbrown::HashMap::get: returns the value stored under
    /// an equal key, and nothing for an absent key.
    #[verifier::external_body]
    pub fn get_data(&self, name: &str) -> (r: Option<Vec<u8>>)
        ensures
            r is Some <==> store_files(*self).dom().contains(name@),
            r is Some ==> r->0@ == store_files(*self)[name@],
    {
        self.files.get(name).cloned()
    }

    /// Whether a file of this name exists in the store.
    ///
    /// Relies on hashbrown::HashMap::contains_key: true exactly for a
    /// key equal to one that was inserted.
    #[verifier::external_body]
    pub fn contains(&self, name: &str) -> (r: bool)
        ensures
            r == store_files(*self).dom().contains(name@),
    {
        self.files.contains_key(name)
    }

    /// Stores `data` under `name`, replacing what was there.
    ///
    /// Relies on hashbrown::HashMap::insert: the value is thereafter
    /// found under the key, and every other entry stays.
    #[verifier::external_body]
    pub fn save(&mut self, name: &str, data: &Vec<u8>)
        ensures
            store_files(*final(self)) == store_files(*old(self)).insert(name@, data@),
    {
        self.files.insert(name.to_owned(), data.clone());
    }
}

/// One in-memory file: its name in the store, a position, its bytes.
#[derive(Debug, Clone)]
pub struct MemoryFile {
    /// The name the file is stored under.
    pub name: String,
    /// Current read/write position.
    pub pos: usize,
    /// The file's bytes.
    pub data: Vec<u8>,
}

impl MemoryFile {
    /// Opens the named file out of the store, creating it empty when it
    /// does not exist, with the position at the start.
    pub fn open<T: PathLike>(store: &mut FileStore, name: &T) -> (r: Option<MemoryFile>)
        ensures
            r is Some,
            r->0.name@ == name.path_spec(),
            r->0.pos == 0,
            r->0.data@ == (if store_files(*old(store)).dom().contains(name.path_spec()) {
                store_files(*old(store))[name.path_spec()]
            } else {
                Seq::<u8>::empty()
            }),
            store_files(*final(store)) == store_files(*old(store)).insert(
                name.path_spec(),
                r->0.data@,
            ),
    {
        let key = name.path();
        let r = match store.get_data(key.as_str()) {
            Some(data) => MemoryFile { name: key, pos: 0, data },
            None => {
                let data: Vec<u8> = Vec::new();
                store.save(key.as_str(), &data);
                MemoryFile { name: key, pos: 0, data }
            },
        };
        proof {
            assert(store_files(*store) =~= store_files(*old(store)).insert(
                name.path_spec(),
                r.data@,
            ));
        }
        Some(r)
    }
}

impl DbFile for MemoryFile {
    open spec fn data_spec(&self) -> Seq<u8> {
        self.data@
    }

    open spec fn pos_spec(&self) -> int {
        self.pos as int
    }

    open spec fn name_spec(&self) -> Seq<char> {
        self.name@
    }

    fn seek(&mut self, pos: SeekFrom) -> (r: Result<u64, Error>)
        ensures
            final(self).name == old(self).name,
    {
        let t: i128 = match pos {
            SeekFrom::Start(l) => l as i128,
            SeekFrom::Current(l) => self.pos as i128 + l as i128,
            SeekFrom::End(l) => self.data.len() as i128 + l as i128,
        };
        if t < 0 || t > usize::MAX as i128 {
            return Err(Error::Io(IoErrorKind::InvalidSeek));
        }
        self.pos = t as usize;
        Ok(t as u64)
    }

    fn read(&mut self, buf: &mut Vec<u8>) -> (r: Result<usize, Error>)
        ensures
            r is Ok,
            final(self).name == old(self).name,
    {
        let len = self.data.len();
        let blen = buf.len();
        let avail = if self.pos >= len {
            0
        } else {
            len - self.pos
        };
        let act = if avail > blen {
            blen
        } else {
            avail
        };
        let mut i: usize = 0;
        while i < act
            invariant
                0 <= i <= act,
                act <= blen,
                blen == buf@.len(),
                act <= len - self.pos || act == 0,
                len == self.data@.len(),
                self == old(self),
                forall|k: int|
                    0 <= k < blen ==> buf@[k] == (if k < i {
                        self.data@[self.pos + k]
                    } else {
                        old(buf)@[k]
                    }),
            decreases act - i,
        {
            buf[i] = self.data[self.pos + i];
            i = i + 1;
        }
        self.pos = self.pos + act;
        Ok(act)
    }

    fn write(&mut self, store: &mut FileStore, buf: &[u8]) -> (r: Result<usize, Error>)
        ensures
            r is Ok,
            final(self).name == old(self).name,
    {
        let m = buf.len();
        let end = self.pos + m;
        let start = self.pos;
        if end > self.data.len() {
            let oldlen = self.data.len();
            self.data.resize(end, 0u8);
            proof {
                assert forall|i: int|
                    oldlen <= i < self.data@.len() implies self.data@[i] == 0u8 by {
                    assert(vstd::pervasive::cloned(0u8, self.data@[i]));
                }
            }
        }
        let dlen = self.data.len();
        let mut i: usize = 0;
        while i < m
            invariant
                0 <= i <= m,
                m == buf@.len(),
                dlen == self.data@.len(),
                start + m <= dlen,
                self.pos == start,
                self.name == old(self).name,
                self.data@.len() == (if start + m > old(self).data@.len() {
                    start + m as int
                } else {
                    old(self).data@.len() as int
                }),
                forall|k: int|
                    0 <= k < self.data@.len() ==> self.data@[k] == (if start <= k < start + i {
                        buf@[k - start]
                    } else if k < old(self).data@.len() {
                        old(self).data@[k]
                    } else {
                        0u8
                    }),
            decreases m - i,
        {
            self.data[start + i] = buf[i];
            i = i + 1;
        }
        self.pos = end;
        store.save(self.name.as_str(), &self.data);
        Ok(m)
    }

    fn flush(&mut self) -> (r: Result<(), Error>)
        ensures
            r is Ok,
    {
        Ok(())
    }

    fn lock_exclusive(&self) -> (r: Result<(), Error>)
        ensures
            r is Ok,
    {
        Ok(())
    }

    fn unlock(&self) -> (r: Result<(), Error>)
        ensures
            r is Ok,
    {
        Ok(())
    }

    fn allocate(&mut self, store: &mut FileStore, new_size: u64) -> (r: Result<(), Error>)
        ensures
            r is Ok,
            final(self).name == old(self).name,
    {
        if self.data.len() > new_size as usize {
            store.save(self.name.as_str(), &self.data);
            return Ok(());
        }
        let oldlen = self.data.len();
        self.data.resize(new_size as usize, 0u8);
        proof {
            assert forall|i: int| oldlen <= i < self.data@.len() implies self.data@[i] == 0u8 by {
                assert(vstd::pervasive::cloned(0u8, self.data@[i]));
            }
        }
        store.save(self.name.as_str(), &self.data);
        Ok(())
    }

    fn metadata(&self) -> (r: Result<MetaData, Error>)
        ensures
            r is Ok,
    {
        Ok(MetaData { len: self.data.len() as u64 })
    }

    fn sync_all(&self) -> (r: Result<(), Error>)
        ensures
            r is Ok,
    {
        Ok(())
    }

    fn size(&self) -> (r: usize) {
        self.data.len()
    }

    fn addr(&self) -> (r: usize) {
        0
    }
}

/// Open-options builder for the in-memory store.
pub struct FileOpenOptions;

impl OpenOption for FileOpenOptions {
    fn new() -> Self {
        FileOpenOptions
    }

    fn read(self, _read: bool) -> Self {
        self
    }

    fn write(self, _write: bool) -> Self {
        self
    }

    fn create(self, _create: bool) -> Self {
        self
    }

    fn open<T: PathLike>(&mut self, store: &mut FileStore, path: &T) -> (r: Result<File, Error>)
        ensures
            r is Ok,
    {
        match MemoryFile::open(store, path) {
            Some(f) => Ok(File::new(f)),
            None => Err(Error::Io(IoErrorKind::OpenFailed)),
        }
    }
}

impl PathLike for &str {
    open spec fn path_spec(&self) -> Seq<char> {
        self@
    }

    fn exists_in(&self, store: &FileStore) -> (r: bool) {
        store.contains(self)
    }

    fn path(&self) -> (r: String) {
        (*self).to_owned()
    }
}

impl PathLike for String {
    open spec fn path_spec(&self) -> Seq<char> {
        self@
    }

    fn exists_in(&self, store: &FileStore) -> (r: bool) {
        store.contains(self.as_str())
    }

    fn path(&self) -> (r: String) {
        self.as_str().to_owned()
    }
}

/// Map collaborator for the in-memory store: it snapshots the file's
/// bytes into a page index.
#[derive(Clone)]
pub struct FakeMap;

impl FakeMap {
    /// A raw view of the mapped file: its size, and no address, since
    /// the in-memory index copies the bytes instead of aliasing them.
    pub fn map(&self, file: &File) -> (r: Mmap)
        ensures
            r.size == file.file.data@.len(),
    {
        Mmap { size: file.file.size(), addr: file.file.addr() }
    }
}

impl MemoryMap for FakeMap {
    type Index = IndexByPageIDImpl;

    fn do_map(&self, file: &mut File) -> (r: Result<IndexByPageIDImpl, Error>)
        ensures
            r is Ok,
    {
        let data = vstd::slice::slice_to_vec(file.file.data.as_slice());
        Ok(IndexByPageIDImpl { data })
    }
}

/// Page index over a snapshot of the mapped bytes.
pub struct IndexByPageIDImpl {
    /// The mapped bytes.
    pub data: Vec<u8>,
}

impl IndexByPageID for IndexByPageIDImpl {
    open spec fn data_spec(&self) -> Seq<u8> {
        self.data@
    }

    fn index(&self, page_id: u64, page_size: usize) -> (r: Result<Vec<u8>, Error>) {
        let len = self.data.len();
        let cap = len / page_size;
        proof {
            vstd::arithmetic::div_mod::lemma_fundamental_div_mod(len as int, page_size as int);
        }
        if page_id >= cap as u64 {
            proof {
                let pid = page_id as int;
                let psz = page_size as int;
                let c = cap as int;
                assert((pid + 1) * psz > len as int) by (nonlinear_arith)
                    requires
                        pid >= c,
                        psz >= 1,
                        len as int == psz * c + len as int % psz,
                        0 <= len as int % psz,
                        (len as int % psz) < psz,
                ;
            }
            return Err(Error::Io(IoErrorKind::OutOfBounds));
        }
        proof {
            let pid = page_id as int;
            let psz = page_size as int;
            let c = cap as int;
            assert((pid + 1) * psz <= c * psz) by (nonlinear_arith)
                requires
                    pid + 1 <= c,
                    psz >= 1,
            ;
            assert(c * psz <= len as int);
            assert(pid * psz + psz == (pid + 1) * psz) by (nonlinear_arith);
        }
        let start = (page_id as usize) * page_size;
        let out = vstd::slice::slice_to_vec(
            vstd::slice::slice_subrange(self.data.as_slice(), start, start + page_size),
        );
        Ok(out)
    }

    fn len(&self) -> (r: usize) {
        self.data.len()
    }
}

} // verus!

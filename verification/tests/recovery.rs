//! Recovery behavior: one corrupt meta slot must not lose the database,
//! and the valid meta with the larger transaction id wins.

use jammdb::meta::{BucketMeta, Meta};
use jammdb::{DbFile, FakeMap, FileOpenOptions, FileStore, MemoryFile, DB};

fn seed(store: &mut FileStore, name: &str) {
    let db = DB::open::<FileOpenOptions, _>(store, FakeMap, &name).unwrap();
    assert_eq!(db.pagesize(), 4096);
}

#[test]
fn corrupt_first_meta_slot_recovers() {
    let mut store = FileStore::new();
    seed(&mut store, "recover.db");
    {
        let mut f = MemoryFile::open(&mut store, &"recover.db").unwrap();
        let garbage = vec![0xABu8; 128];
        f.write(&mut store, garbage.as_slice()).unwrap();
    }
    let db = DB::open::<FileOpenOptions, _>(&mut store, FakeMap, &"recover.db").unwrap();
    let meta = db.inner.meta().unwrap();
    assert_eq!(meta.meta_page, 1);
    assert_eq!(meta.root.root_page, 3);
    assert_eq!(meta.num_pages, 4);
}

#[test]
fn corrupt_second_meta_slot_recovers() {
    let mut store = FileStore::new();
    seed(&mut store, "recover2.db");
    {
        let mut f = MemoryFile::open(&mut store, &"recover2.db").unwrap();
        f.seek(jammdb::SeekFrom::Start(4096)).unwrap();
        let garbage = vec![0xCDu8; 128];
        f.write(&mut store, garbage.as_slice()).unwrap();
    }
    let db = DB::open::<FileOpenOptions, _>(&mut store, FakeMap, &"recover2.db").unwrap();
    let meta = db.inner.meta().unwrap();
    assert_eq!(meta.meta_page, 0);
    assert_eq!(meta.root.root_page, 3);
}

#[test]
fn corrupt_both_meta_slots_is_invalid_db() {
    let mut store = FileStore::new();
    seed(&mut store, "dead.db");
    {
        let mut f = MemoryFile::open(&mut store, &"dead.db").unwrap();
        let garbage = vec![0xEEu8; 2 * 4096];
        f.write(&mut store, garbage.as_slice()).unwrap();
    }
    let r = DB::open::<FileOpenOptions, _>(&mut store, FakeMap, &"dead.db");
    assert!(matches!(r, Err(jammdb::Error::InvalidDB(_))));
}

#[test]
fn newer_meta_slot_wins() {
    let mut store = FileStore::new();
    seed(&mut store, "newest.db");
    {
        let mut m = Meta {
            magic: jammdb::MAGIC_VALUE,
            version: jammdb::VERSION,
            pagesize: 4096,
            meta_page: 0,
            root: BucketMeta { root_page: 3, next_int: 7 },
            freelist_page: 2,
            num_pages: 4,
            tx_id: 1,
            hash: 0,
        };
        m.hash = m.hash_self();
        assert!(m.valid());
        let bytes = jammdb::page::meta_page_bytes(&m);
        let mut f = MemoryFile::open(&mut store, &"newest.db").unwrap();
        f.write(&mut store, bytes.as_slice()).unwrap();
    }
    let db = DB::open::<FileOpenOptions, _>(&mut store, FakeMap, &"newest.db").unwrap();
    let meta = db.inner.meta().unwrap();
    assert_eq!(meta.tx_id, 1);
    assert_eq!(meta.meta_page, 0);
    assert_eq!(meta.root.next_int, 7);
}

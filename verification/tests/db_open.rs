//! Opening databases: fresh files, reopening, and page-size checks.

use jammdb::{FakeMap, FileOpenOptions, FileStore, OpenOptions, DB};

#[test]
fn test_open_options() {
    assert_ne!(jammdb::get_page_size(), 5000);
    let mut store = FileStore::new();
    {
        let db = OpenOptions::new()
            .pagesize(5000)
            .num_pages(100)
            .open::<_, FileOpenOptions, _>(&mut store, FakeMap, &"test_open_options.db")
            .unwrap();
        assert_eq!(db.pagesize(), 5000);
    }
    {
        let db = OpenOptions::new()
            .pagesize(5000)
            .num_pages(100)
            .open::<_, FileOpenOptions, _>(&mut store, FakeMap, &"test_open_options.db")
            .unwrap();
        assert_eq!(db.pagesize(), 5000);
    }
}

#[test]
fn fresh_db_uses_default_pagesize() {
    let mut store = FileStore::new();
    let db = DB::open::<FileOpenOptions, _>(&mut store, FakeMap, &"fresh.db").unwrap();
    assert_eq!(db.pagesize(), 4096);
}

#[test]
fn reopen_with_other_pagesize_is_invalid_db() {
    let mut store = FileStore::new();
    {
        let db = OpenOptions::new()
            .pagesize(5000)
            .num_pages(100)
            .open::<_, FileOpenOptions, _>(&mut store, FakeMap, &"mismatch.db")
            .unwrap();
        assert_eq!(db.pagesize(), 5000);
    }
    let r = DB::open::<FileOpenOptions, _>(&mut store, FakeMap, &"mismatch.db");
    assert!(matches!(r, Err(jammdb::Error::InvalidDB(_))));
}

#[test]
fn fresh_db_seed_meta_is_selected() {
    let mut store = FileStore::new();
    let db = DB::open::<FileOpenOptions, _>(&mut store, FakeMap, &"seeded.db").unwrap();
    let meta = db.inner.meta().unwrap();
    assert_eq!(meta.magic, jammdb::MAGIC_VALUE);
    assert_eq!(meta.version, jammdb::VERSION);
    assert_eq!(meta.pagesize, 4096);
    assert_eq!(meta.root.root_page, 3);
    assert_eq!(meta.root.next_int, 0);
    assert_eq!(meta.freelist_page, 2);
    assert_eq!(meta.num_pages, 4);
    assert_eq!(meta.tx_id, 0);
    assert!(db.inner.freelist.free.is_empty());
    assert!(db.inner.freelist.pending.is_empty());
}

#[test]
fn fresh_file_has_configured_size() {
    let mut store = FileStore::new();
    let db = OpenOptions::new()
        .pagesize(2048)
        .num_pages(8)
        .open::<_, FileOpenOptions, _>(&mut store, FakeMap, &"sized.db")
        .unwrap();
    assert_eq!(db.inner.file.file.data.len(), 2048 * 8);
}

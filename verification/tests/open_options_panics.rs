//! The option builders refuse out-of-range settings by panicking, as
//! their documentation says.

use jammdb::{FakeMap, FileOpenOptions, FileStore, OpenOptions, DB};

#[test]
#[should_panic]
fn test_open_options_min_pages() {
    OpenOptions::new().num_pages(3);
}

#[test]
#[should_panic]
fn test_open_options_min_pagesize() {
    OpenOptions::new().pagesize(1000);
}

#[test]
#[should_panic]
fn test_different_pagesizes() {
    assert_ne!(jammdb::get_page_size(), 5000);
    let mut store = FileStore::new();
    {
        let db = OpenOptions::new()
            .pagesize(5000)
            .num_pages(100)
            .open::<_, FileOpenOptions, _>(&mut store, FakeMap, &"test_different_pagesizes.db")
            .unwrap();
        assert_eq!(db.pagesize(), 5000);
    }
    DB::open::<FileOpenOptions, _>(&mut store, FakeMap, &"test_different_pagesizes.db").unwrap();
}

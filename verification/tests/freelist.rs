//! The freelist: contiguous allocation, pending release, accounting.

use jammdb::freelist::Freelist;

#[test]
fn allocate_first_fit_contiguous() {
    let mut fl = Freelist::new();
    fl.init(vec![3, 4, 5, 10, 11]);
    assert_eq!(fl.allocate(2), Some(3));
    assert_eq!(fl.pages(), vec![5, 10, 11]);
    assert_eq!(fl.allocate(2), Some(10));
    assert_eq!(fl.pages(), vec![5]);
    assert_eq!(fl.allocate(1), Some(5));
    assert_eq!(fl.pages(), Vec::<u64>::new());
    assert_eq!(fl.allocate(1), None);
}

#[test]
fn allocate_none_when_no_run_exists() {
    let mut fl = Freelist::new();
    fl.init(vec![2, 4, 6, 8]);
    assert_eq!(fl.allocate(2), None);
    assert_eq!(fl.pages(), vec![2, 4, 6, 8]);
    assert_eq!(fl.allocate(1), Some(2));
}

#[test]
fn allocate_prefers_first_run() {
    let mut fl = Freelist::new();
    fl.init(vec![5, 6, 7, 20, 21, 22, 23]);
    assert_eq!(fl.allocate(3), Some(5));
    assert_eq!(fl.allocate(4), Some(20));
    assert_eq!(fl.pages(), Vec::<u64>::new());
}

#[test]
fn release_moves_only_older_transactions() {
    let mut fl = Freelist::new();
    fl.init(vec![2]);
    fl.free(5, vec![7]);
    fl.free(6, vec![3]);
    fl.release(5);
    assert_eq!(fl.pages(), vec![2]);
    fl.release(6);
    assert_eq!(fl.pages(), vec![2, 7]);
    fl.release(7);
    assert_eq!(fl.pages(), vec![2, 3, 7]);
}

#[test]
fn release_keeps_free_layer_sorted() {
    let mut fl = Freelist::new();
    fl.init(vec![10, 20]);
    fl.free(1, vec![5, 15, 25]);
    fl.release(2);
    assert_eq!(fl.pages(), vec![5, 10, 15, 20, 25]);
}

#[test]
fn freed_pages_stay_pending_until_release() {
    let mut fl = Freelist::new();
    fl.init(vec![4, 5]);
    fl.free(9, vec![6]);
    // the pending page is not allocatable
    assert_eq!(fl.allocate(3), None);
    assert_eq!(fl.allocate(2), Some(4));
    fl.release(10);
    assert_eq!(fl.pages(), vec![6]);
}

//! Splitting an oversize leaf: order kept, every sibling fits a page,
//! and siblings re-serialize into valid pages.

use jammdb::node::split_leaf_entries;
use jammdb::page::{leaf_page_bytes, parse_leaf, LeafEntry, LEAF_FLAG_KV};

fn kv(key: String, value: String) -> LeafEntry {
    LeafEntry {
        flags: LEAF_FLAG_KV,
        key: key.into_bytes(),
        value: value.into_bytes(),
        page_id: 0,
    }
}

#[test]
fn split_keeps_order_and_fits_pages() {
    let mut entries: Vec<LeafEntry> = Vec::new();
    for i in 0..100 {
        entries.push(kv(format!("key-{:04}", i), "x".repeat(100)));
    }
    let chunks = split_leaf_entries(entries, 1024);
    assert!(chunks.len() > 1);
    let mut seen: Vec<Vec<u8>> = Vec::new();
    for chunk in &chunks {
        assert!(!chunk.is_empty());
        // each sibling's body fits one page
        let body: usize = 16 + 24 * chunk.len()
            + chunk.iter().map(|e| e.key.len() + e.value.len()).sum::<usize>();
        assert!(body <= 1024 || chunk.len() == 1);
        for e in chunk {
            seen.push(e.key.clone());
        }
    }
    assert_eq!(seen.len(), 100);
    for i in 0..100 {
        assert_eq!(seen[i], format!("key-{:04}", i).into_bytes());
    }
}

#[test]
fn split_siblings_serialize_into_valid_pages() {
    let mut entries: Vec<LeafEntry> = Vec::new();
    for i in 0..40 {
        entries.push(kv(format!("k{:03}", i), "v".repeat(60)));
    }
    let chunks = split_leaf_entries(entries, 1024);
    for (n, chunk) in chunks.into_iter().enumerate() {
        let want: Vec<Vec<u8>> = chunk.iter().map(|e| e.key.clone()).collect();
        let page = leaf_page_bytes(n as u64 + 4, &chunk, 1024);
        assert_eq!(page.len(), 1024);
        let back = parse_leaf(page.as_slice()).unwrap();
        let got: Vec<Vec<u8>> = back.iter().map(|e| e.key.clone()).collect();
        assert_eq!(got, want);
    }
}

#[test]
fn oversized_entry_gets_its_own_sibling() {
    let entries = vec![
        kv("a".to_string(), "small".to_string()),
        kv("b".to_string(), "y".repeat(5000)),
        kv("c".to_string(), "small".to_string()),
    ];
    let chunks = split_leaf_entries(entries, 1024);
    // the middle entry cannot share a page with anything
    let big_chunk = chunks.iter().find(|c| c.iter().any(|e| e.key == b"b".to_vec())).unwrap();
    assert_eq!(big_chunk.len(), 1);
}

#[test]
fn small_run_stays_whole() {
    let entries = vec![kv("a".to_string(), "1".to_string()), kv("b".to_string(), "2".to_string())];
    let chunks = split_leaf_entries(entries, 1024);
    assert_eq!(chunks.len(), 1);
    assert_eq!(chunks[0].len(), 2);
}

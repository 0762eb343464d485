//! Leaf and branch page bodies: round trips, ordering enforcement, and
//! the entry kinds.

use jammdb::page::{
    branch_page_bytes, branch_seek, header_bytes, leaf_get, leaf_page_bytes, leaf_seek,
    parse_branch, parse_header, parse_leaf, BranchEntry, LeafEntry, PageHeader, LEAF_FLAG_BUCKET,
    LEAF_FLAG_KV, PAGE_TYPE_BRANCH, PAGE_TYPE_LEAF,
};

fn kv(key: &str, value: &str) -> LeafEntry {
    LeafEntry {
        flags: LEAF_FLAG_KV,
        key: key.as_bytes().to_vec(),
        value: value.as_bytes().to_vec(),
        page_id: 0,
    }
}

#[test]
fn leaf_round_trip() {
    let entries = vec![kv("Ezra", "Bridger"), kv("Kanan", "Jarrus")];
    let page = leaf_page_bytes(3, &entries, 1024);
    assert_eq!(page.len(), 1024);
    let hdr = parse_header(page.as_slice());
    assert_eq!(hdr.id, 3);
    assert_eq!(hdr.page_type, PAGE_TYPE_LEAF);
    assert_eq!(hdr.count, 2);
    assert_eq!(hdr.overflow, 0);
    let back = parse_leaf(page.as_slice()).unwrap();
    assert_eq!(back.len(), 2);
    assert_eq!(back[0].key, b"Ezra".to_vec());
    assert_eq!(back[0].value, b"Bridger".to_vec());
    assert_eq!(back[1].key, b"Kanan".to_vec());
    assert_eq!(back[1].value, b"Jarrus".to_vec());
    assert_eq!(back[0].flags, LEAF_FLAG_KV);
}

#[test]
fn leaf_keeps_bucket_flag_and_page_id() {
    let entries = vec![LeafEntry {
        flags: LEAF_FLAG_BUCKET,
        key: b"nested".to_vec(),
        value: vec![1, 2, 3],
        page_id: 9,
    }];
    let page = leaf_page_bytes(5, &entries, 1024);
    let back = parse_leaf(page.as_slice()).unwrap();
    assert_eq!(back[0].flags, LEAF_FLAG_BUCKET);
    assert_eq!(back[0].page_id, 9);
    assert_eq!(back[0].value, vec![1, 2, 3]);
}

#[test]
fn leaf_rejects_unsorted_keys() {
    let entries = vec![kv("b", "1"), kv("a", "2")];
    let page = leaf_page_bytes(3, &entries, 1024);
    let r = parse_leaf(page.as_slice());
    assert!(matches!(r, Err(jammdb::Error::InvalidDB(_))));
}

#[test]
fn leaf_rejects_duplicate_keys() {
    let entries = vec![kv("same", "1"), kv("same", "2")];
    let page = leaf_page_bytes(3, &entries, 1024);
    let r = parse_leaf(page.as_slice());
    assert!(matches!(r, Err(jammdb::Error::InvalidDB(_))));
}

#[test]
fn leaf_rejects_entry_past_page_end() {
    let mut page = header_bytes(&PageHeader {
        id: 3,
        page_type: PAGE_TYPE_LEAF,
        count: 1,
        overflow: 0,
    });
    // one record whose key offset points far past the page
    page.extend_from_slice(&0u32.to_le_bytes());
    page.extend_from_slice(&5000u32.to_le_bytes());
    page.extend_from_slice(&4u32.to_le_bytes());
    page.extend_from_slice(&0u32.to_le_bytes());
    page.extend_from_slice(&0u64.to_le_bytes());
    page.resize(1024, 0);
    let r = parse_leaf(page.as_slice());
    assert!(matches!(r, Err(jammdb::Error::InvalidDB(_))));
}

#[test]
fn leaf_spills_into_overflow_pages() {
    let big = "v".repeat(3000);
    let entries = vec![kv("a", &big), kv("b", &big)];
    let page = leaf_page_bytes(7, &entries, 1024);
    assert_eq!(page.len() % 1024, 0);
    let hdr = parse_header(page.as_slice());
    assert_eq!(hdr.overflow as usize + 1, page.len() / 1024);
    assert!(hdr.overflow > 0);
    let back = parse_leaf(page.as_slice()).unwrap();
    assert_eq!(back[0].value.len(), 3000);
    assert_eq!(back[1].key, b"b".to_vec());
}

#[test]
fn empty_leaf_round_trip() {
    let entries: Vec<LeafEntry> = Vec::new();
    let page = leaf_page_bytes(3, &entries, 1024);
    let back = parse_leaf(page.as_slice()).unwrap();
    assert!(back.is_empty());
}

#[test]
fn branch_round_trip() {
    let entries = vec![
        BranchEntry { key: b"apple".to_vec(), page_id: 4 },
        BranchEntry { key: b"mango".to_vec(), page_id: 9 },
        BranchEntry { key: b"peach".to_vec(), page_id: 12 },
    ];
    let page = branch_page_bytes(6, &entries, 1024);
    assert_eq!(page.len(), 1024);
    let hdr = parse_header(page.as_slice());
    assert_eq!(hdr.id, 6);
    assert_eq!(hdr.page_type, PAGE_TYPE_BRANCH);
    assert_eq!(hdr.count, 3);
    let back = parse_branch(page.as_slice()).unwrap();
    assert_eq!(back.len(), 3);
    assert_eq!(back[0].key, b"apple".to_vec());
    assert_eq!(back[0].page_id, 4);
    assert_eq!(back[2].key, b"peach".to_vec());
    assert_eq!(back[2].page_id, 12);
}

#[test]
fn branch_rejects_unsorted_keys() {
    let entries = vec![
        BranchEntry { key: b"m".to_vec(), page_id: 4 },
        BranchEntry { key: b"a".to_vec(), page_id: 9 },
    ];
    let page = branch_page_bytes(6, &entries, 1024);
    let r = parse_branch(page.as_slice());
    assert!(matches!(r, Err(jammdb::Error::InvalidDB(_))));
}

#[test]
fn key_order_is_byte_lexicographic() {
    // a strict prefix comes first, and comparison is by byte value
    let entries = vec![kv("ab", "1"), kv("abc", "2"), kv("b", "3")];
    let page = leaf_page_bytes(3, &entries, 1024);
    let back = parse_leaf(page.as_slice()).unwrap();
    assert_eq!(back.len(), 3);
    let wrong = vec![kv("abc", "1"), kv("ab", "2")];
    let page2 = leaf_page_bytes(3, &wrong, 1024);
    assert!(parse_leaf(page2.as_slice()).is_err());
}

#[test]
fn leaf_seek_finds_first_not_below() {
    let entries = vec![kv("b", "1"), kv("d", "2"), kv("f", "3")];
    assert_eq!(leaf_seek(&entries, b"a".as_slice()), 0);
    assert_eq!(leaf_seek(&entries, b"b".as_slice()), 0);
    assert_eq!(leaf_seek(&entries, b"c".as_slice()), 1);
    assert_eq!(leaf_seek(&entries, b"f".as_slice()), 2);
    assert_eq!(leaf_seek(&entries, b"g".as_slice()), 3);
}

#[test]
fn leaf_get_exact_match_only() {
    let entries = vec![kv("Ezra", "Bridger"), kv("Kanan", "Jarrus")];
    let i = leaf_get(&entries, b"Kanan".as_slice()).unwrap();
    assert_eq!(entries[i].value, b"Jarrus".to_vec());
    assert!(leaf_get(&entries, b"Sabine".as_slice()).is_none());
    assert!(leaf_get(&entries, b"Kana".as_slice()).is_none());
    assert!(leaf_get(&entries, b"Kanan2".as_slice()).is_none());
}

#[test]
fn branch_seek_picks_covering_child() {
    let entries = vec![
        BranchEntry { key: b"d".to_vec(), page_id: 4 },
        BranchEntry { key: b"m".to_vec(), page_id: 9 },
    ];
    assert_eq!(branch_seek(&entries, b"a".as_slice()), 0);
    assert_eq!(branch_seek(&entries, b"d".as_slice()), 0);
    assert_eq!(branch_seek(&entries, b"k".as_slice()), 0);
    assert_eq!(branch_seek(&entries, b"m".as_slice()), 1);
    assert_eq!(branch_seek(&entries, b"z".as_slice()), 1);
}

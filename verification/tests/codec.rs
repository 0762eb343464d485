//! The byte codecs: page header, meta record with its checksum, and the
//! freelist body, each against exact expected values.

use jammdb::meta::{fnv64, BucketMeta, Meta, FNV_OFFSET_BASIS};
use jammdb::page::{
    freelist_page_bytes, header_bytes, meta_page_bytes, parse_freelist, parse_header, parse_meta,
    PageHeader, FREELIST_COUNT_SENTINEL, PAGE_TYPE_FREELIST, PAGE_TYPE_LEAF, PAGE_TYPE_META,
};

#[test]
fn fnv64_known_values() {
    assert_eq!(fnv64(&[]), FNV_OFFSET_BASIS);
    assert_eq!(fnv64(&[]), 0xcbf2_9ce4_8422_2325);
    assert_eq!(fnv64(b"a".as_slice()), 0xaf63_dc4c_8601_ec8c);
    assert_eq!(fnv64(b"foobar".as_slice()), 0x85944171f73967e8);
}

#[test]
fn header_round_trip() {
    let h = PageHeader { id: 42, page_type: PAGE_TYPE_LEAF, count: 7, overflow: 3 };
    let bytes = header_bytes(&h);
    assert_eq!(bytes.len(), 16);
    let back = parse_header(bytes.as_slice());
    assert_eq!(back.id, 42);
    assert_eq!(back.page_type, PAGE_TYPE_LEAF);
    assert_eq!(back.count, 7);
    assert_eq!(back.overflow, 3);
}

#[test]
fn meta_round_trip_and_checksum() {
    let mut m = Meta {
        magic: jammdb::MAGIC_VALUE,
        version: jammdb::VERSION,
        pagesize: 4096,
        meta_page: 1,
        root: BucketMeta { root_page: 9, next_int: 5 },
        freelist_page: 6,
        num_pages: 12,
        tx_id: 3,
        hash: 0,
    };
    m.hash = m.hash_self();
    assert!(m.valid());
    let bytes = meta_page_bytes(&m);
    assert_eq!(bytes.len(), 80);
    let hdr = parse_header(bytes.as_slice());
    assert_eq!(hdr.id, 1);
    assert_eq!(hdr.page_type, PAGE_TYPE_META);
    let back = parse_meta(bytes.as_slice());
    assert_eq!(back.magic, m.magic);
    assert_eq!(back.version, m.version);
    assert_eq!(back.pagesize, 4096);
    assert_eq!(back.meta_page, 1);
    assert_eq!(back.root.root_page, 9);
    assert_eq!(back.root.next_int, 5);
    assert_eq!(back.freelist_page, 6);
    assert_eq!(back.num_pages, 12);
    assert_eq!(back.tx_id, 3);
    assert!(back.valid());
}

#[test]
fn flipped_byte_fails_checksum() {
    let mut m = Meta {
        magic: jammdb::MAGIC_VALUE,
        version: jammdb::VERSION,
        pagesize: 4096,
        meta_page: 0,
        root: BucketMeta { root_page: 3, next_int: 0 },
        freelist_page: 2,
        num_pages: 4,
        tx_id: 1,
        hash: 0,
    };
    m.hash = m.hash_self();
    let mut bytes = meta_page_bytes(&m);
    // flip one bit inside the transaction id field
    bytes[64] ^= 1;
    let back = parse_meta(bytes.as_slice());
    assert!(!back.valid());
}

#[test]
fn zeroed_page_is_not_a_valid_meta() {
    let zeros = vec![0u8; 1024];
    let back = parse_meta(zeros.as_slice());
    assert!(!back.valid());
}

#[test]
fn freelist_round_trip_small() {
    let ids: Vec<u64> = vec![3, 5, 6, 9];
    let page = freelist_page_bytes(2, &ids, 1024);
    assert_eq!(page.len(), 1024);
    let hdr = parse_header(page.as_slice());
    assert_eq!(hdr.id, 2);
    assert_eq!(hdr.page_type, PAGE_TYPE_FREELIST);
    assert_eq!(hdr.count, 4);
    assert_eq!(hdr.overflow, 0);
    let back = parse_freelist(page.as_slice()).unwrap();
    assert_eq!(back, ids);
}

#[test]
fn freelist_round_trip_sentinel() {
    let n: u64 = FREELIST_COUNT_SENTINEL as u64 + 5;
    let ids: Vec<u64> = (0..n).map(|i| 2 * i).collect();
    let page = freelist_page_bytes(7, &ids, 4096);
    assert_eq!(page.len() % 4096, 0);
    let hdr = parse_header(page.as_slice());
    assert_eq!(hdr.count, FREELIST_COUNT_SENTINEL);
    assert_eq!(hdr.overflow as usize + 1, page.len() / 4096);
    let back = parse_freelist(page.as_slice()).unwrap();
    assert_eq!(back, ids);
}

#[test]
fn freelist_rejects_unsorted_ids() {
    let mut page = header_bytes(&PageHeader {
        id: 2,
        page_type: PAGE_TYPE_FREELIST,
        count: 2,
        overflow: 0,
    });
    page.extend_from_slice(&9u64.to_le_bytes());
    page.extend_from_slice(&7u64.to_le_bytes());
    page.resize(1024, 0);
    let r = parse_freelist(page.as_slice());
    assert!(matches!(r, Err(jammdb::Error::InvalidDB(_))));
}

#[test]
fn freelist_rejects_truncated_body() {
    let mut page = header_bytes(&PageHeader {
        id: 2,
        page_type: PAGE_TYPE_FREELIST,
        count: 200,
        overflow: 0,
    });
    page.resize(64, 0);
    let r = parse_freelist(page.as_slice());
    assert!(matches!(r, Err(jammdb::Error::InvalidDB(_))));
}

#[test]
fn empty_freelist_page_parses_empty() {
    let ids: Vec<u64> = Vec::new();
    let page = freelist_page_bytes(2, &ids, 1024);
    let back = parse_freelist(page.as_slice()).unwrap();
    assert!(back.is_empty());
}

#[test]
fn next_integer_is_monotonic() {
    let mut bm = BucketMeta { root_page: 3, next_int: 0 };
    assert_eq!(bm.next_integer(), 0);
    assert_eq!(bm.next_integer(), 1);
    assert_eq!(bm.next_integer(), 2);
    assert_eq!(bm.next_int, 3);
    assert_eq!(bm.root_page, 3);
}

//! The on-disk page format: header, meta body and freelist body, all
//! decoded and encoded byte-wise in little-endian order so the file stays
//! portable across hosts.

use vstd::prelude::*;
use vstd::bytes::{
    spec_u16_to_le_bytes, spec_u16_from_le_bytes, spec_u32_to_le_bytes, spec_u32_from_le_bytes,
    spec_u64_to_le_bytes, spec_u64_from_le_bytes, u16_from_le_bytes, u16_to_le_bytes,
    u32_from_le_bytes, u32_to_le_bytes, u64_from_le_bytes, u64_to_le_bytes,
    lemma_auto_spec_u16_to_from_le_bytes, lemma_auto_spec_u32_to_from_le_bytes,
    lemma_auto_spec_u64_to_from_le_bytes,
};
use vstd::slice::{slice_subrange, slice_index_get};
use crate::errors::Error;
use crate::meta::{BucketMeta, Meta, spec_meta_content_bytes};

verus! {

/// Page holding interior tree entries.
pub const PAGE_TYPE_BRANCH: u8 = 0x01;

/// Page holding key/value and nested-bucket entries.
pub const PAGE_TYPE_LEAF: u8 = 0x02;

/// One of the two commit-pointer pages.
pub const PAGE_TYPE_META: u8 = 0x04;

/// Page holding the serialized freelist.
pub const PAGE_TYPE_FREELIST: u8 = 0x10;

/// Continuation of a logical page larger than one physical page.
pub const PAGE_TYPE_OVERFLOW: u8 = 0x20;

/// Bytes of the page header: id (8), type (1), one reserved byte,
/// count (2), overflow (4).
pub const PAGE_HEADER_SIZE: usize = 16;

/// Bytes of a serialized meta page: header plus body plus checksum.
pub const META_PAGE_BYTES: usize = 80;

/// Sentinel in the header's count field: the freelist's true length is
/// stored as the first word of the body instead.
pub const FREELIST_COUNT_SENTINEL: u16 = 0xFFFF;

/// Fixed header every page starts with.
#[derive(Debug, Clone, Copy, PartialEq, Eq, Structural)]
pub struct PageHeader {
    /// Page id; the page sits at byte offset `id * page_size`.
    pub id: u64,
    /// One of the `PAGE_TYPE_*` codes.
    pub page_type: u8,
    /// Number of entries in the body (or the freelist sentinel).
    pub count: u16,
    /// How many physical pages follow this one as continuation.
    pub overflow: u32,
}

/// A strictly ascending sequence of page ids.
pub open spec fn sorted_strict(s: Seq<u64>) -> bool {
    forall|i: int, j: int| 0 <= i < j < s.len() ==> s[i] < s[j]
}

/// The header encoded in the first sixteen bytes of a page.
pub open spec fn spec_parse_header(p: Seq<u8>) -> PageHeader
    recommends
        p.len() >= PAGE_HEADER_SIZE,
{
    PageHeader {
        id: spec_u64_from_le_bytes(p.subrange(0, 8)),
        page_type: p[8],
        count: spec_u16_from_le_bytes(p.subrange(10, 12)),
        overflow: spec_u32_from_le_bytes(p.subrange(12, 16)),
    }
}

/// The sixteen bytes a header serializes to.
pub open spec fn spec_header_bytes(h: PageHeader) -> Seq<u8> {
    spec_u64_to_le_bytes(h.id) + seq![h.page_type, 0u8] + spec_u16_to_le_bytes(h.count)
        + spec_u32_to_le_bytes(h.overflow)
}

/// Decoding the sixteen bytes a header serializes to gives the header back.
pub proof fn lemma_header_roundtrip(h: PageHeader)
    ensures
        spec_header_bytes(h).len() == PAGE_HEADER_SIZE,
        spec_parse_header(spec_header_bytes(h)) == h,
{
    lemma_auto_spec_u16_to_from_le_bytes();
    lemma_auto_spec_u32_to_from_le_bytes();
    lemma_auto_spec_u64_to_from_le_bytes();
    let b = spec_header_bytes(h);
    assert(b.subrange(0, 8) =~= spec_u64_to_le_bytes(h.id));
    assert(b.subrange(10, 12) =~= spec_u16_to_le_bytes(h.count));
    assert(b.subrange(12, 16) =~= spec_u32_to_le_bytes(h.overflow));
}

/// Reads the page header out of the first sixteen bytes.
pub fn parse_header(p: &[u8]) -> (r: PageHeader)
    requires
        p@.len() >= PAGE_HEADER_SIZE,
    ensures
        r == spec_parse_header(p@),
{
    let id = u64_from_le_bytes(slice_subrange(p, 0, 8));
    let page_type = *slice_index_get(p, 8);
    let count = u16_from_le_bytes(slice_subrange(p, 10, 12));
    let overflow = u32_from_le_bytes(slice_subrange(p, 12, 16));
    PageHeader { id, page_type, count, overflow }
}

/// Serializes a page header into its sixteen bytes.
pub fn header_bytes(h: &PageHeader) -> (r: Vec<u8>)
    ensures
        r@ == spec_header_bytes(*h),
        r@.len() == PAGE_HEADER_SIZE,
{
    proof {
        lemma_auto_spec_u16_to_from_le_bytes();
        lemma_auto_spec_u32_to_from_le_bytes();
        lemma_auto_spec_u64_to_from_le_bytes();
    }
    let mut out = u64_to_le_bytes(h.id);
    out.push(h.page_type);
    out.push(0u8);
    let mut t2 = u16_to_le_bytes(h.count);
    out.append(&mut t2);
    let mut t4 = u32_to_le_bytes(h.overflow);
    out.append(&mut t4);
    proof {
        assert(out@ =~= spec_header_bytes(*h));
    }
    out
}

/// The meta record encoded in a meta page's body (bytes 16 through 79).
pub open spec fn spec_parse_meta(p: Seq<u8>) -> Meta
    recommends
        p.len() >= META_PAGE_BYTES,
{
    Meta {
        magic: spec_u32_from_le_bytes(p.subrange(16, 20)),
        version: spec_u32_from_le_bytes(p.subrange(20, 24)),
        pagesize: spec_u32_from_le_bytes(p.subrange(24, 28)) as u64,
        meta_page: spec_u32_from_le_bytes(p.subrange(28, 32)),
        root: BucketMeta {
            root_page: spec_u64_from_le_bytes(p.subrange(32, 40)),
            next_int: spec_u64_from_le_bytes(p.subrange(40, 48)),
        },
        freelist_page: spec_u64_from_le_bytes(p.subrange(48, 56)),
        num_pages: spec_u64_from_le_bytes(p.subrange(56, 64)),
        tx_id: spec_u64_from_le_bytes(p.subrange(64, 72)),
        hash: spec_u64_from_le_bytes(p.subrange(72, 80)),
    }
}

/// The eighty bytes a meta page starts with: header, body, checksum.
pub open spec fn spec_meta_page_bytes(m: Meta) -> Seq<u8> {
    spec_header_bytes(
        PageHeader { id: m.meta_page as u64, page_type: PAGE_TYPE_META, count: 0, overflow: 0 },
    ) + spec_meta_content_bytes(m) + spec_u64_to_le_bytes(m.hash)
}

/// Decoding an encoded meta page gives the record back, as long as its
/// page size fits the 32-bit field it is stored in.
pub proof fn lemma_meta_page_roundtrip(m: Meta)
    requires
        m.pagesize <= u32::MAX,
    ensures
        spec_meta_page_bytes(m).len() == META_PAGE_BYTES,
        spec_parse_meta(spec_meta_page_bytes(m)) == m,
{
    lemma_auto_spec_u16_to_from_le_bytes();
    lemma_auto_spec_u32_to_from_le_bytes();
    lemma_auto_spec_u64_to_from_le_bytes();
    let b = spec_meta_page_bytes(m);
    assert(b.subrange(16, 20) =~= spec_u32_to_le_bytes(m.magic));
    assert(b.subrange(20, 24) =~= spec_u32_to_le_bytes(m.version));
    assert(b.subrange(24, 28) =~= spec_u32_to_le_bytes(m.pagesize as u32));
    assert(b.subrange(28, 32) =~= spec_u32_to_le_bytes(m.meta_page));
    assert(b.subrange(32, 40) =~= spec_u64_to_le_bytes(m.root.root_page));
    assert(b.subrange(40, 48) =~= spec_u64_to_le_bytes(m.root.next_int));
    assert(b.subrange(48, 56) =~= spec_u64_to_le_bytes(m.freelist_page));
    assert(b.subrange(56, 64) =~= spec_u64_to_le_bytes(m.num_pages));
    assert(b.subrange(64, 72) =~= spec_u64_to_le_bytes(m.tx_id));
    assert(b.subrange(72, 80) =~= spec_u64_to_le_bytes(m.hash));
    assert((m.pagesize as u32) as u64 == m.pagesize);
}

/// Reads the meta record out of a meta page's first eighty bytes.
pub fn parse_meta(p: &[u8]) -> (r: Meta)
    requires
        p@.len() >= META_PAGE_BYTES,
    ensures
        r == spec_parse_meta(p@),
{
    let magic = u32_from_le_bytes(slice_subrange(p, 16, 20));
    let version = u32_from_le_bytes(slice_subrange(p, 20, 24));
    let pagesize = u32_from_le_bytes(slice_subrange(p, 24, 28)) as u64;
    let meta_page = u32_from_le_bytes(slice_subrange(p, 28, 32));
    let root_page = u64_from_le_bytes(slice_subrange(p, 32, 40));
    let next_int = u64_from_le_bytes(slice_subrange(p, 40, 48));
    let freelist_page = u64_from_le_bytes(slice_subrange(p, 48, 56));
    let num_pages = u64_from_le_bytes(slice_subrange(p, 56, 64));
    let tx_id = u64_from_le_bytes(slice_subrange(p, 64, 72));
    let hash = u64_from_le_bytes(slice_subrange(p, 72, 80));
    Meta {
        magic,
        version,
        pagesize,
        meta_page,
        root: BucketMeta { root_page, next_int },
        freelist_page,
        num_pages,
        tx_id,
        hash,
    }
}

/// Serializes a meta record into the eighty bytes its page starts with.
pub fn meta_page_bytes(m: &Meta) -> (r: Vec<u8>)
    ensures
        r@ == spec_meta_page_bytes(*m),
        r@.len() == META_PAGE_BYTES,
{
    proof {
        lemma_header_roundtrip(
            PageHeader {
                id: m.meta_page as u64,
                page_type: PAGE_TYPE_META,
                count: 0,
                overflow: 0,
            },
        );
    }
    let mut out = header_bytes(
        &PageHeader { id: m.meta_page as u64, page_type: PAGE_TYPE_META, count: 0, overflow: 0 },
    );
    let mut body = m.content_bytes();
    out.append(&mut body);
    let mut h8 = u64_to_le_bytes(m.hash);
    out.append(&mut h8);
    proof {
        lemma_auto_spec_u64_to_from_le_bytes();
        assert(out@ =~= spec_meta_page_bytes(*m));
    }
    out
}

/// How many ids the freelist body of this logical page announces.
pub open spec fn spec_freelist_count(p: Seq<u8>) -> int
    recommends
        p.len() >= PAGE_HEADER_SIZE,
{
    if spec_parse_header(p).count == FREELIST_COUNT_SENTINEL {
        spec_u64_from_le_bytes(p.subrange(16, 24)) as int
    } else {
        spec_parse_header(p).count as int
    }
}

/// Where the id words of the freelist body start.
pub open spec fn spec_freelist_start(p: Seq<u8>) -> int
    recommends
        p.len() >= PAGE_HEADER_SIZE,
{
    if spec_parse_header(p).count == FREELIST_COUNT_SENTINEL {
        24
    } else {
        16
    }
}

/// How many bytes the announced freelist body occupies.
pub open spec fn spec_freelist_len_needed(p: Seq<u8>) -> int
    recommends
        p.len() >= PAGE_HEADER_SIZE,
{
    spec_freelist_start(p) + 8 * spec_freelist_count(p)
}

/// The page ids the freelist body carries, in stored order.
pub open spec fn spec_freelist_ids(p: Seq<u8>) -> Seq<u64>
    recommends
        p.len() >= spec_freelist_len_needed(p),
{
    Seq::new(
        spec_freelist_count(p) as nat,
        |i: int|
            spec_u64_from_le_bytes(
                p.subrange(spec_freelist_start(p) + 8 * i, spec_freelist_start(p) + 8 * i + 8),
            ),
    )
}

/// Reads the freelist body out of a logical page. Rejects a body that
/// announces more ids than the bytes can hold, and one whose ids are not
/// strictly ascending: both are format corruption.
pub fn parse_freelist(p: &[u8]) -> (r: Result<Vec<u64>, Error>)
    requires
        p@.len() >= PAGE_HEADER_SIZE,
    ensures
        r is Ok <==> spec_freelist_len_needed(p@) <= p@.len() && sorted_strict(
            spec_freelist_ids(p@),
        ),
        r is Ok ==> r->Ok_0@ == spec_freelist_ids(p@),
{
    let hdr = parse_header(p);
    let n: usize;
    let start: usize;
    if hdr.count == FREELIST_COUNT_SENTINEL {
        if p.len() < 24 {
            return Err(Error::InvalidDB("freelist body is truncated".to_owned()));
        }
        let n64 = u64_from_le_bytes(slice_subrange(p, 16, 24));
        let room = (p.len() - 24) / 8;
        proof {
            vstd::arithmetic::div_mod::lemma_fundamental_div_mod((p@.len() - 24) as int, 8);
        }
        if n64 > room as u64 {
            return Err(Error::InvalidDB("freelist body is truncated".to_owned()));
        }
        n = n64 as usize;
        start = 24;
    } else {
        n = hdr.count as usize;
        start = 16;
        let room = (p.len() - 16) / 8;
        proof {
            vstd::arithmetic::div_mod::lemma_fundamental_div_mod((p@.len() - 16) as int, 8);
        }
        if n > room {
            return Err(Error::InvalidDB("freelist body is truncated".to_owned()));
        }
    }
    let ghost ids = spec_freelist_ids(p@);
    let plen = p.len();
    let mut out: Vec<u64> = Vec::new();
    let mut i: usize = 0;
    while i < n
        invariant
            p@.len() >= PAGE_HEADER_SIZE,
            plen == p@.len(),
            start == spec_freelist_start(p@),
            n == spec_freelist_count(p@),
            start + 8 * n <= plen,
            ids == spec_freelist_ids(p@),
            0 <= i <= n,
            out@ =~= ids.subrange(0, i as int),
            sorted_strict(out@),
        decreases n - i,
    {
        let id = u64_from_le_bytes(slice_subrange(p, start + 8 * i, start + 8 * i + 8));
        proof {
            assert(id == ids[i as int]);
        }
        if i > 0 {
            let prev = out[i - 1];
            if id <= prev {
                proof {
                    assert(ids[i - 1] == out@[i - 1]);
                    assert(!sorted_strict(ids));
                }
                return Err(Error::InvalidDB("freelist ids are not ascending".to_owned()));
            }
        }
        out.push(id);
        i = i + 1;
        proof {
            assert(out@ =~= ids.subrange(0, i as int));
        }
    }
    proof {
        assert(out@ =~= ids);
    }
    Ok(out)
}

/// Bytes the freelist body needs for `n` ids, header included.
pub open spec fn spec_freelist_needed_for(n: int) -> int {
    if n >= FREELIST_COUNT_SENTINEL {
        24 + 8 * n
    } else {
        16 + 8 * n
    }
}

/// Serializes a freelist into a whole number of pages: the header (with
/// the continuation count in `overflow`), the id words, zero padding.
#[verifier::loop_isolation(false)]
pub fn freelist_page_bytes(page_id: u64, ids: &Vec<u64>, page_size: usize) -> (r: Vec<u8>)
    requires
        page_size >= 1024,
        ids@.len() <= u32::MAX,
        spec_freelist_needed_for(ids@.len() as int) + page_size <= usize::MAX,
    ensures
        r@.len() >= spec_freelist_needed_for(ids@.len() as int),
        r@.len() as int % page_size as int == 0,
        r@.len() <= spec_freelist_needed_for(ids@.len() as int) + page_size,
        spec_parse_header(r@).id == page_id,
        spec_parse_header(r@).page_type == PAGE_TYPE_FREELIST,
        spec_parse_header(r@).overflow as int + 1 == r@.len() as int / page_size as int,
        spec_freelist_count(r@) == ids@.len(),
        spec_freelist_len_needed(r@) <= r@.len(),
        spec_freelist_ids(r@) == ids@,
        forall|i: int|
            spec_freelist_needed_for(ids@.len() as int) <= i < r@.len() ==> r@[i] == 0u8,
{
    let n = ids.len();
    let sentinel = n >= FREELIST_COUNT_SENTINEL as usize;
    let needed: usize = if sentinel {
        24 + 8 * n
    } else {
        16 + 8 * n
    };
    let npages: usize = needed / page_size + (if needed % page_size == 0 {
        0
    } else {
        1
    });
    proof {
        lemma_npages_bounds(needed as int, page_size as int, npages as int);
        assert((npages - 1) as int <= u32::MAX);
    }
    let total = npages * page_size;
    let hdr = PageHeader {
        id: page_id,
        page_type: PAGE_TYPE_FREELIST,
        count: if sentinel {
            FREELIST_COUNT_SENTINEL
        } else {
            n as u16
        },
        overflow: (npages - 1) as u32,
    };
    proof {
        lemma_header_roundtrip(hdr);
    }
    let mut out = header_bytes(&hdr);
    if sentinel {
        let mut w = u64_to_le_bytes(n as u64);
        out.append(&mut w);
    }
    let ghost start = out@.len() as int;
    proof {
        assert(out@.subrange(0, 16) =~= spec_header_bytes(hdr));
    }
    let mut i: usize = 0;
    while i < n
        invariant
            n == ids@.len(),
            0 <= i <= n,
            start == (if sentinel {
                24int
            } else {
                16int
            }),
            out@.len() == start + 8 * i,
            out@.subrange(0, 16) =~= spec_header_bytes(hdr),
            sentinel ==> out@.subrange(16, 24) =~= spec_u64_to_le_bytes(n as u64),
            forall|k: int|
                0 <= k < i ==> out@.subrange(start + 8 * k, start + 8 * k + 8)
                    =~= spec_u64_to_le_bytes(ids@[k]),
        decreases n - i,
    {
        let ghost prev = out@;
        let mut w = u64_to_le_bytes(ids[i]);
        out.append(&mut w);
        i = i + 1;
        proof {
            vstd::bytes::lemma_auto_spec_u64_to_from_le_bytes();
            assert(out@.subrange(0, 16) =~= prev.subrange(0, 16));
            if sentinel {
                assert(out@.subrange(16, 24) =~= prev.subrange(16, 24));
            }
            assert forall|k: int| 0 <= k < i implies out@.subrange(
                start + 8 * k,
                start + 8 * k + 8,
            ) =~= spec_u64_to_le_bytes(ids@[k]) by {
                if k < i - 1 {
                    assert(out@.subrange(start + 8 * k, start + 8 * k + 8) =~= prev.subrange(
                        start + 8 * k,
                        start + 8 * k + 8,
                    ));
                } else {
                    assert(out@.subrange(start + 8 * k, start + 8 * k + 8)
                        =~= spec_u64_to_le_bytes(ids@[k]));
                }
            }
        }
    }
    let ghost filled = out@;
    while out.len() < total
        invariant
            filled.len() <= out@.len() <= total || (filled.len() > total && out@.len()
                == filled.len()),
            out@.subrange(0, filled.len() as int) =~= filled,
            forall|i: int| filled.len() <= i < out@.len() ==> out@[i] == 0u8,
        decreases total - out@.len(),
    {
        let ghost prev = out@;
        out.push(0u8);
        proof {
            assert(out@.subrange(0, filled.len() as int) =~= prev.subrange(
                0,
                filled.len() as int,
            ));
        }
    }
    proof {
        vstd::bytes::lemma_auto_spec_u64_to_from_le_bytes();
        assert(filled.len() == needed);
        assert(out@.len() == total);
        assert(out@.subrange(0, 16) =~= filled.subrange(0, 16));
        assert(spec_parse_header(out@) == hdr) by {
            assert(out@.subrange(0, 8) =~= spec_header_bytes(hdr).subrange(0, 8));
            assert(out@[8] == spec_header_bytes(hdr)[8]);
            assert(out@.subrange(10, 12) =~= spec_header_bytes(hdr).subrange(10, 12));
            assert(out@.subrange(12, 16) =~= spec_header_bytes(hdr).subrange(12, 16));
            lemma_header_roundtrip(hdr);
            assert(spec_parse_header(spec_header_bytes(hdr)) == hdr);
        }
        if sentinel {
            assert(out@.subrange(16, 24) =~= filled.subrange(16, 24));
            assert(spec_freelist_count(out@) == n);
        }
        assert(spec_freelist_start(out@) == start);
        assert(spec_freelist_ids(out@) =~= ids@) by {
            assert forall|k: int| 0 <= k < n implies spec_freelist_ids(out@)[k] == ids@[k] by {
                assert(out@.subrange(start + 8 * k, start + 8 * k + 8) =~= filled.subrange(
                    start + 8 * k,
                    start + 8 * k + 8,
                ));
                assert(filled.subrange(start + 8 * k, start + 8 * k + 8) =~= spec_u64_to_le_bytes(
                    ids@[k],
                ));
            }
        }
        vstd::arithmetic::div_mod::lemma_mod_multiples_basic(npages as int, page_size as int);
        vstd::arithmetic::div_mod::lemma_div_multiples_vanish(npages as int, page_size as int);
        vstd::arithmetic::mul::lemma_mul_is_commutative(npages as int, page_size as int);
        assert(out@.len() as int == (page_size as int) * (npages as int));
    }
    out
}


/// Flag of a leaf entry holding a plain key/value pair.
pub const LEAF_FLAG_KV: u32 = 0x00;

/// Flag of a leaf entry holding a nested bucket's record as its value.
pub const LEAF_FLAG_BUCKET: u32 = 0x01;

/// Bytes of one leaf entry-table record: flags (4), key offset (4),
/// key length (4), value length (4), page id (8).
pub const LEAF_ENTRY_SIZE: usize = 24;

/// One entry of a leaf page: a key and either a plain value or a
/// serialized nested-bucket record, as the flags say. The page id is a
/// root pointer for an overflow-backed entry and zero otherwise.
pub struct LeafEntry {
    /// `LEAF_FLAG_KV` or `LEAF_FLAG_BUCKET`.
    pub flags: u32,
    /// The entry's key.
    pub key: Vec<u8>,
    /// The entry's value bytes.
    pub value: Vec<u8>,
    /// Root pointer for an overflow-backed entry; zero otherwise.
    pub page_id: u64,
}

/// How many entries the leaf body announces.
pub open spec fn spec_leaf_count(p: Seq<u8>) -> int
    recommends
        p.len() >= PAGE_HEADER_SIZE,
{
    spec_parse_header(p).count as int
}

/// The flags of leaf entry `i`.
pub open spec fn spec_leaf_flags(p: Seq<u8>, i: int) -> u32 {
    spec_u32_from_le_bytes(p.subrange(16 + 24 * i, 16 + 24 * i + 4))
}

/// Where the key bytes of leaf entry `i` start.
pub open spec fn spec_leaf_key_off(p: Seq<u8>, i: int) -> int {
    spec_u32_from_le_bytes(p.subrange(16 + 24 * i + 4, 16 + 24 * i + 8)) as int
}

/// How many key bytes leaf entry `i` has.
pub open spec fn spec_leaf_key_len(p: Seq<u8>, i: int) -> int {
    spec_u32_from_le_bytes(p.subrange(16 + 24 * i + 8, 16 + 24 * i + 12)) as int
}

/// How many value bytes leaf entry `i` has.
pub open spec fn spec_leaf_val_len(p: Seq<u8>, i: int) -> int {
    spec_u32_from_le_bytes(p.subrange(16 + 24 * i + 12, 16 + 24 * i + 16)) as int
}

/// The page id stored with leaf entry `i`.
pub open spec fn spec_leaf_page_id(p: Seq<u8>, i: int) -> u64 {
    spec_u64_from_le_bytes(p.subrange(16 + 24 * i + 16, 16 + 24 * i + 24))
}

/// The key bytes of leaf entry `i`.
pub open spec fn spec_leaf_key(p: Seq<u8>, i: int) -> Seq<u8> {
    p.subrange(spec_leaf_key_off(p, i), spec_leaf_key_off(p, i) + spec_leaf_key_len(p, i))
}

/// The value bytes of leaf entry `i`.
pub open spec fn spec_leaf_value(p: Seq<u8>, i: int) -> Seq<u8> {
    p.subrange(
        spec_leaf_key_off(p, i) + spec_leaf_key_len(p, i),
        spec_leaf_key_off(p, i) + spec_leaf_key_len(p, i) + spec_leaf_val_len(p, i),
    )
}

/// Every announced leaf entry lies inside the page bytes.
pub open spec fn spec_leaf_fits(p: Seq<u8>) -> bool {
    &&& 16 + 24 * spec_leaf_count(p) <= p.len()
    &&& forall|i: int|
        0 <= i < spec_leaf_count(p) ==> #[trigger] spec_leaf_key_off(p, i) + spec_leaf_key_len(
            p,
            i,
        ) + spec_leaf_val_len(p, i) <= p.len()
}

/// The keys of a leaf page, in stored order.
pub open spec fn spec_leaf_keys(p: Seq<u8>) -> Seq<Seq<u8>> {
    Seq::new(spec_leaf_count(p) as nat, |i: int| spec_leaf_key(p, i))
}

/// Reads the leaf body out of a logical page. Rejects a body whose
/// entries reach past the page bytes, and one whose keys are not in
/// strictly ascending byte-lexicographic order: both are corruption.
#[verifier::loop_isolation(false)]
pub fn parse_leaf(p: &[u8]) -> (r: Result<Vec<LeafEntry>, Error>)
    requires
        p@.len() >= PAGE_HEADER_SIZE,
    ensures
        r is Ok <==> spec_leaf_fits(p@) && crate::keys::keys_sorted(spec_leaf_keys(p@)),
        r is Ok ==> ({
            let out = r->Ok_0;
            &&& out@.len() == spec_leaf_count(p@)
            &&& forall|i: int|
                0 <= i < out@.len() ==> {
                    &&& (#[trigger] out@[i]).flags == spec_leaf_flags(p@, i)
                    &&& out@[i].key@ == spec_leaf_key(p@, i)
                    &&& out@[i].value@ == spec_leaf_value(p@, i)
                    &&& out@[i].page_id == spec_leaf_page_id(p@, i)
                }
        }),
{
    let hdr = parse_header(p);
    let n = hdr.count as usize;
    let plen = p.len();
    let room = (plen - 16) / 24;
    proof {
        vstd::arithmetic::div_mod::lemma_fundamental_div_mod((plen - 16) as int, 24);
    }
    if n > room {
        return Err(Error::InvalidDB("leaf entry table is truncated".to_owned()));
    }
    let mut out: Vec<LeafEntry> = Vec::new();
    let mut i: usize = 0;
    while i < n
        invariant
            0 <= i <= n,
            out@.len() == i,
            forall|k: int|
                0 <= k < i ==> {
                    &&& (#[trigger] out@[k]).flags == spec_leaf_flags(p@, k)
                    &&& out@[k].key@ == spec_leaf_key(p@, k)
                    &&& out@[k].value@ == spec_leaf_value(p@, k)
                    &&& out@[k].page_id == spec_leaf_page_id(p@, k)
                },
            forall|k: int|
                0 <= k < i ==> #[trigger] spec_leaf_key_off(p@, k) + spec_leaf_key_len(p@, k)
                    + spec_leaf_val_len(p@, k) <= p@.len(),
            forall|k: int|
                0 <= k < i - 1 ==> crate::keys::lex_lt(
                    #[trigger] spec_leaf_keys(p@)[k],
                    spec_leaf_keys(p@)[k + 1],
                ),
        decreases n - i,
    {
        let off = 16 + 24 * i;
        let flags = u32_from_le_bytes(slice_subrange(p, off, off + 4));
        let ko64 = u32_from_le_bytes(slice_subrange(p, off + 4, off + 8)) as u64;
        let kl64 = u32_from_le_bytes(slice_subrange(p, off + 8, off + 12)) as u64;
        let vl64 = u32_from_le_bytes(slice_subrange(p, off + 12, off + 16)) as u64;
        let page_id = u64_from_le_bytes(slice_subrange(p, off + 16, off + 24));
        if ko64 + kl64 + vl64 > plen as u64 {
            proof {
                assert(spec_leaf_key_off(p@, i as int) + spec_leaf_key_len(p@, i as int)
                    + spec_leaf_val_len(p@, i as int) > p@.len());
                assert(!spec_leaf_fits(p@));
            }
            return Err(Error::InvalidDB("leaf entry reaches past the page".to_owned()));
        }
        let ko = ko64 as usize;
        let kl = kl64 as usize;
        let vl = vl64 as usize;
        let key = vstd::slice::slice_to_vec(slice_subrange(p, ko, ko + kl));
        let value = vstd::slice::slice_to_vec(slice_subrange(p, ko + kl, ko + kl + vl));
        if i > 0 {
            let prev_ok = crate::keys::key_lt(out[i - 1].key.as_slice(), key.as_slice());
            if !prev_ok {
                proof {
                    assert(spec_leaf_keys(p@)[i - 1] == out@[i - 1].key@);
                    assert(spec_leaf_keys(p@)[i as int] == key@);
                    assert(!crate::keys::keys_sorted(spec_leaf_keys(p@)));
                }
                return Err(Error::InvalidDB("leaf keys are not ascending".to_owned()));
            }
        }
        out.push(LeafEntry { flags, key, value, page_id });
        i = i + 1;
    }
    Ok(out)
}


/// Key and value bytes of these leaf entries, summed.
pub open spec fn spec_leaf_kv_size(s: Seq<LeafEntry>) -> int
    decreases s.len(),
{
    if s.len() == 0 {
        0
    } else {
        spec_leaf_kv_size(s.drop_last()) + s.last().key@.len() + s.last().value@.len()
    }
}

/// The summed size is never negative.
pub proof fn lemma_leaf_kv_size_nonneg(s: Seq<LeafEntry>)
    ensures
        spec_leaf_kv_size(s) >= 0,
    decreases s.len(),
{
    if s.len() > 0 {
        lemma_leaf_kv_size_nonneg(s.drop_last());
    }
}


/// The summed size of a non-empty entry sequence splits off its head.
pub proof fn lemma_leaf_kv_size_first(s: Seq<LeafEntry>)
    requires
        s.len() > 0,
    ensures
        spec_leaf_kv_size(s) == s[0].key@.len() + s[0].value@.len() + spec_leaf_kv_size(
            s.subrange(1, s.len() as int),
        ),
    decreases s.len(),
{
    if s.len() == 1 {
        assert(s.drop_last() =~= Seq::<LeafEntry>::empty());
        assert(s.subrange(1, s.len() as int) =~= Seq::<LeafEntry>::empty());
    } else {
        let tail = s.subrange(1, s.len() as int);
        lemma_leaf_kv_size_first(s.drop_last());
        assert(s.drop_last().subrange(1, s.drop_last().len() as int) =~= tail.drop_last());
        assert(s.drop_last()[0] == s[0]);
        assert(spec_leaf_kv_size(tail) == spec_leaf_kv_size(tail.drop_last())
            + tail.last().key@.len() + tail.last().value@.len());
        assert(tail.last() == s.last());
    }
}

/// One more entry adds exactly its key and value bytes.
proof fn lemma_leaf_prefix_step(s: Seq<LeafEntry>, k: int)
    requires
        0 <= k < s.len(),
    ensures
        spec_leaf_kv_size(s.subrange(0, k + 1)) == spec_leaf_kv_size(s.subrange(0, k))
            + s[k].key@.len() + s[k].value@.len(),
{
    assert(s.subrange(0, k + 1).drop_last() =~= s.subrange(0, k));
    assert(s.subrange(0, k + 1).last() == s[k]);
}

/// A prefix never holds more bytes than the whole.
proof fn lemma_leaf_prefix_le(s: Seq<LeafEntry>, k: int)
    requires
        0 <= k <= s.len(),
    ensures
        spec_leaf_kv_size(s.subrange(0, k)) <= spec_leaf_kv_size(s),
    decreases s.len() - k,
{
    if k == s.len() {
        assert(s.subrange(0, k) =~= s);
    } else {
        lemma_leaf_prefix_step(s, k);
        assert(s[k].key@.len() + s[k].value@.len() >= 0);
        lemma_leaf_prefix_le(s, k + 1);
    }
}

/// An earlier prefix never holds more bytes than a later one.
proof fn lemma_leaf_prefix_mono(s: Seq<LeafEntry>, a: int, b: int)
    requires
        0 <= a <= b <= s.len(),
    ensures
        spec_leaf_kv_size(s.subrange(0, a)) <= spec_leaf_kv_size(s.subrange(0, b)),
    decreases b - a,
{
    if a < b {
        lemma_leaf_prefix_step(s, a);
        lemma_leaf_prefix_mono(s, a + 1, b);
    }
}


/// Page-count arithmetic: how many whole pages hold a body of `needed`
/// bytes, and the bounds that count obeys.
proof fn lemma_npages_bounds(needed: int, psz: int, np: int)
    requires
        psz >= 1024,
        16 <= needed,
        np == needed / psz + (if needed % psz == 0 {
            0int
        } else {
            1int
        }),
    ensures
        np >= 1,
        np * psz >= needed,
        np * psz <= needed + psz,
        (np - 1) * 1024 <= needed,
{
    let q = needed / psz;
    let rm = needed % psz;
    vstd::arithmetic::div_mod::lemma_fundamental_div_mod(needed, psz);
    assert(np * psz >= needed) by (nonlinear_arith)
        requires
            np == q + (if rm == 0 { 0int } else { 1int }),
            needed == psz * q + rm,
            0 <= rm,
            rm < psz,
            psz > 0,
    ;
    assert(np * psz <= needed + psz) by (nonlinear_arith)
        requires
            np == q + (if rm == 0 { 0int } else { 1int }),
            needed == psz * q + rm,
            0 <= rm,
            rm < psz,
            psz > 0,
    ;
    assert(np >= 1) by (nonlinear_arith)
        requires
            np * psz >= needed,
            needed >= 16,
            psz >= 1024,
    ;
    assert((np - 1) * 1024 <= (np - 1) * psz) by (nonlinear_arith)
        requires
            np >= 1,
            psz >= 1024,
    ;
    assert((np - 1) * psz <= needed) by (nonlinear_arith)
        requires
            np >= 1,
            np * psz <= needed + psz,
            psz >= 1,
    ;
}

/// A leaf entry's decoded fields do not change when bytes are written
/// only into one later table record and into heap space at or past
/// `heap_from`.
proof fn lemma_leaf_entry_preserved(pre: Seq<u8>, now: Seq<u8>, k: int, rec_at: int, heap_from: int)
    requires
        now.len() == pre.len(),
        0 <= k,
        16 + 24 * (k + 1) <= rec_at,
        rec_at + 24 <= spec_leaf_key_off(pre, k),
        0 <= spec_leaf_key_len(pre, k),
        0 <= spec_leaf_val_len(pre, k),
        spec_leaf_key_off(pre, k) + spec_leaf_key_len(pre, k) + spec_leaf_val_len(pre, k)
            <= heap_from,
        heap_from <= now.len(),
        forall|t: int|
            0 <= t < pre.len() && !(rec_at <= t < rec_at + 24) && t < heap_from ==> now[t]
                == pre[t],
    ensures
        spec_leaf_flags(now, k) == spec_leaf_flags(pre, k),
        spec_leaf_key_off(now, k) == spec_leaf_key_off(pre, k),
        spec_leaf_key_len(now, k) == spec_leaf_key_len(pre, k),
        spec_leaf_val_len(now, k) == spec_leaf_val_len(pre, k),
        spec_leaf_page_id(now, k) == spec_leaf_page_id(pre, k),
        spec_leaf_key(now, k) == spec_leaf_key(pre, k),
        spec_leaf_value(now, k) == spec_leaf_value(pre, k),
{
    assert(now.subrange(16 + 24 * k, 16 + 24 * k + 4) =~= pre.subrange(
        16 + 24 * k,
        16 + 24 * k + 4,
    ));
    assert(now.subrange(16 + 24 * k + 4, 16 + 24 * k + 8) =~= pre.subrange(
        16 + 24 * k + 4,
        16 + 24 * k + 8,
    ));
    assert(now.subrange(16 + 24 * k + 8, 16 + 24 * k + 12) =~= pre.subrange(
        16 + 24 * k + 8,
        16 + 24 * k + 12,
    ));
    assert(now.subrange(16 + 24 * k + 12, 16 + 24 * k + 16) =~= pre.subrange(
        16 + 24 * k + 12,
        16 + 24 * k + 16,
    ));
    assert(now.subrange(16 + 24 * k + 16, 16 + 24 * k + 24) =~= pre.subrange(
        16 + 24 * k + 16,
        16 + 24 * k + 24,
    ));
    let ko = spec_leaf_key_off(pre, k);
    let kl = spec_leaf_key_len(pre, k);
    let vl = spec_leaf_val_len(pre, k);
    assert(now.subrange(ko, ko + kl) =~= pre.subrange(ko, ko + kl));
    assert(now.subrange(ko + kl, ko + kl + vl) =~= pre.subrange(ko + kl, ko + kl + vl));
}

/// Serializes a leaf page: header, the entry table, then each key and
/// value in entry order, padded out to a whole number of pages.
#[verifier::loop_isolation(false)]
#[verifier::rlimit(100)]
#[verifier::spinoff_prover]
pub fn leaf_page_bytes(page_id: u64, entries: &Vec<LeafEntry>, page_size: usize) -> (r: Vec<u8>)
    requires
        page_size >= 1024,
        entries@.len() <= u16::MAX,
        16 + 24 * entries@.len() + spec_leaf_kv_size(entries@) <= u32::MAX,
        16 + 24 * entries@.len() + spec_leaf_kv_size(entries@) + page_size <= usize::MAX,
    ensures
        r@.len() as int % page_size as int == 0,
        r@.len() >= 16 + 24 * entries@.len() + spec_leaf_kv_size(entries@),
        r@.len() <= 16 + 24 * entries@.len() + spec_leaf_kv_size(entries@) + page_size,
        spec_parse_header(r@).id == page_id,
        spec_parse_header(r@).page_type == PAGE_TYPE_LEAF,
        spec_parse_header(r@).overflow as int + 1 == r@.len() as int / page_size as int,
        spec_leaf_count(r@) == entries@.len(),
        spec_leaf_fits(r@),
        forall|i: int|
            0 <= i < entries@.len() ==> {
                &&& spec_leaf_flags(r@, i) == (#[trigger] entries@[i]).flags
                &&& spec_leaf_key(r@, i) == entries@[i].key@
                &&& spec_leaf_value(r@, i) == entries@[i].value@
                &&& spec_leaf_page_id(r@, i) == entries@[i].page_id
            },
{
    let n = entries.len();
    let mut kv: usize = 0;
    let mut i: usize = 0;
    proof {
        assert(entries@.subrange(0, 0) =~= Seq::<LeafEntry>::empty());
    }
    while i < n
        invariant
            0 <= i <= n,
            kv == spec_leaf_kv_size(entries@.subrange(0, i as int)),
        decreases n - i,
    {
        proof {
            lemma_leaf_prefix_step(entries@, i as int);
            lemma_leaf_prefix_le(entries@, i + 1);
            lemma_leaf_kv_size_nonneg(entries@.subrange(0, i as int));
        }
        kv = kv + entries[i].key.len() + entries[i].value.len();
        i = i + 1;
    }
    proof {
        assert(entries@.subrange(0, n as int) =~= entries@);
    }
    let needed = 16 + 24 * n + kv;
    let npages: usize = needed / page_size + (if needed % page_size == 0 {
        0
    } else {
        1
    });
    proof {
        lemma_npages_bounds(needed as int, page_size as int, npages as int);
        assert((npages - 1) as int <= u32::MAX);
    }
    let total = npages * page_size;
    let hdr = PageHeader {
        id: page_id,
        page_type: PAGE_TYPE_LEAF,
        count: n as u16,
        overflow: (npages - 1) as u32,
    };
    let hdrb = header_bytes(&hdr);
    let mut buf = zero_vec(total);
    write_bytes(&mut buf, 0, hdrb.as_slice());
    let base = 16 + 24 * n;
    let mut cur = base;
    let mut i: usize = 0;
    proof {
        lemma_auto_spec_u32_to_from_le_bytes();
        lemma_auto_spec_u64_to_from_le_bytes();
    }
    while i < n
        invariant
            0 <= i <= n,
            buf@.len() == total,
            cur == base + spec_leaf_kv_size(entries@.subrange(0, i as int)),
            base + spec_leaf_kv_size(entries@.subrange(0, i as int)) <= needed,
            forall|t: int| 0 <= t < 16 ==> buf@[t] == hdrb@[t],
            forall|k: int|
                0 <= k < i ==> {
                    &&& spec_leaf_flags(buf@, k) == (#[trigger] entries@[k]).flags
                    &&& spec_leaf_key_off(buf@, k) == base + spec_leaf_kv_size(
                        entries@.subrange(0, k),
                    )
                    &&& spec_leaf_key_len(buf@, k) == entries@[k].key@.len()
                    &&& spec_leaf_val_len(buf@, k) == entries@[k].value@.len()
                    &&& spec_leaf_page_id(buf@, k) == entries@[k].page_id
                    &&& spec_leaf_key(buf@, k) == entries@[k].key@
                    &&& spec_leaf_value(buf@, k) == entries@[k].value@
                },
        decreases n - i,
    {
        proof {
            lemma_leaf_prefix_step(entries@, i as int);
            lemma_leaf_prefix_le(entries@, i + 1);
            lemma_leaf_kv_size_nonneg(entries@.subrange(0, i as int));
        }
        let e_key_len = entries[i].key.len();
        let e_val_len = entries[i].value.len();
        let mut rec = u32_to_le_bytes(entries[i].flags);
        let mut t4 = u32_to_le_bytes(cur as u32);
        rec.append(&mut t4);
        let mut t4 = u32_to_le_bytes(e_key_len as u32);
        rec.append(&mut t4);
        let mut t4 = u32_to_le_bytes(e_val_len as u32);
        rec.append(&mut t4);
        let mut t8 = u64_to_le_bytes(entries[i].page_id);
        rec.append(&mut t8);
        let ghost pre = buf@;
        write_bytes(&mut buf, 16 + 24 * i, rec.as_slice());
        let ghost mid1 = buf@;
        write_bytes(&mut buf, cur, entries[i].key.as_slice());
        let ghost mid2 = buf@;
        write_bytes(&mut buf, cur + e_key_len, entries[i].value.as_slice());
        let ghost curg = cur as int;
        cur = cur + e_key_len + e_val_len;
        i = i + 1;
        proof {
            let now = buf@;
            let ii = i - 1;
            // the header and every already-written region were not touched
            assert forall|t: int| 0 <= t < 16 implies now[t] == hdrb@[t] by {
                assert(now[t] == pre[t]);
            }
            // the new record reads back as the new entry's fields
            assert(now.subrange(16 + 24 * ii, 16 + 24 * ii + 4) =~= spec_u32_to_le_bytes(
                entries@[ii].flags,
            ));
            assert(now.subrange(16 + 24 * ii + 4, 16 + 24 * ii + 8) =~= spec_u32_to_le_bytes(
                curg as u32,
            ));
            assert(now.subrange(16 + 24 * ii + 8, 16 + 24 * ii + 12) =~= spec_u32_to_le_bytes(
                e_key_len as u32,
            ));
            assert(now.subrange(16 + 24 * ii + 12, 16 + 24 * ii + 16) =~= spec_u32_to_le_bytes(
                e_val_len as u32,
            ));
            assert(now.subrange(16 + 24 * ii + 16, 16 + 24 * ii + 24) =~= spec_u64_to_le_bytes(
                entries@[ii].page_id,
            ));
            assert(spec_leaf_key_off(now, ii) == curg);
            assert(now.subrange(curg, curg + e_key_len) =~= entries@[ii].key@);
            assert(now.subrange(curg + e_key_len, curg + e_key_len + e_val_len)
                =~= entries@[ii].value@);
            assert(spec_leaf_key(now, ii) == entries@[ii].key@);
            assert(spec_leaf_value(now, ii) == entries@[ii].value@);
            // the older records and their bytes read back unchanged
            assert forall|t: int|
                0 <= t < pre.len() && !(16 + 24 * ii <= t < 16 + 24 * ii + 24) && t
                    < curg implies now[t] == pre[t] by {}
            assert forall|k: int| 0 <= k < ii implies {
                &&& spec_leaf_flags(now, k) == (#[trigger] entries@[k]).flags
                &&& spec_leaf_key_off(now, k) == base + spec_leaf_kv_size(
                    entries@.subrange(0, k),
                )
                &&& spec_leaf_key_len(now, k) == entries@[k].key@.len()
                &&& spec_leaf_val_len(now, k) == entries@[k].value@.len()
                &&& spec_leaf_page_id(now, k) == entries@[k].page_id
                &&& spec_leaf_key(now, k) == entries@[k].key@
                &&& spec_leaf_value(now, k) == entries@[k].value@
            } by {
                lemma_leaf_prefix_step(entries@, k);
                lemma_leaf_prefix_mono(entries@, k + 1, ii);
                lemma_leaf_kv_size_nonneg(entries@.subrange(0, k));
                lemma_leaf_entry_preserved(pre, now, k, 16 + 24 * ii, curg);
            }
        }
    }
    proof {
        assert(entries@.subrange(0, n as int) =~= entries@);
        lemma_header_roundtrip(hdr);
        lemma_parse_header_prefix(buf@, spec_header_bytes(hdr));
        vstd::arithmetic::div_mod::lemma_mod_multiples_basic(npages as int, page_size as int);
        vstd::arithmetic::div_mod::lemma_div_multiples_vanish(npages as int, page_size as int);
        vstd::arithmetic::mul::lemma_mul_is_commutative(npages as int, page_size as int);
        assert(buf@.len() as int == (page_size as int) * (npages as int));
        assert(spec_leaf_fits(buf@)) by {
            assert forall|k: int|
                0 <= k < spec_leaf_count(buf@) implies #[trigger] spec_leaf_key_off(buf@, k)
                + spec_leaf_key_len(buf@, k) + spec_leaf_val_len(buf@, k) <= buf@.len() by {
                lemma_leaf_prefix_step(entries@, k);
                lemma_leaf_prefix_le(entries@, k + 1);
            }
        }
    }
    buf
}


/// Bytes of one branch entry-table record: key offset (4), key length
/// (4), child page id (8).
pub const BRANCH_ENTRY_SIZE: usize = 16;

/// One entry of a branch page: the first key of a child subtree and the
/// page id of that child.
pub struct BranchEntry {
    /// First key of the child's subtree.
    pub key: Vec<u8>,
    /// Page id of the child.
    pub page_id: u64,
}

/// How many entries the branch body announces.
pub open spec fn spec_branch_count(p: Seq<u8>) -> int
    recommends
        p.len() >= PAGE_HEADER_SIZE,
{
    spec_parse_header(p).count as int
}

/// Where the key bytes of branch entry `i` start.
pub open spec fn spec_branch_key_off(p: Seq<u8>, i: int) -> int {
    spec_u32_from_le_bytes(p.subrange(16 + 16 * i, 16 + 16 * i + 4)) as int
}

/// How many key bytes branch entry `i` has.
pub open spec fn spec_branch_key_len(p: Seq<u8>, i: int) -> int {
    spec_u32_from_le_bytes(p.subrange(16 + 16 * i + 4, 16 + 16 * i + 8)) as int
}

/// The child page id of branch entry `i`.
pub open spec fn spec_branch_page_id(p: Seq<u8>, i: int) -> u64 {
    spec_u64_from_le_bytes(p.subrange(16 + 16 * i + 8, 16 + 16 * i + 16))
}

/// The key bytes of branch entry `i`.
pub open spec fn spec_branch_key(p: Seq<u8>, i: int) -> Seq<u8> {
    p.subrange(spec_branch_key_off(p, i), spec_branch_key_off(p, i) + spec_branch_key_len(p, i))
}

/// Every announced branch entry lies inside the page bytes.
pub open spec fn spec_branch_fits(p: Seq<u8>) -> bool {
    &&& 16 + 16 * spec_branch_count(p) <= p.len()
    &&& forall|i: int|
        0 <= i < spec_branch_count(p) ==> #[trigger] spec_branch_key_off(p, i)
            + spec_branch_key_len(p, i) <= p.len()
}

/// The keys of a branch page, in stored order.
pub open spec fn spec_branch_keys(p: Seq<u8>) -> Seq<Seq<u8>> {
    Seq::new(spec_branch_count(p) as nat, |i: int| spec_branch_key(p, i))
}

/// The first `i` branch entries are encoded in `buf`: each table
/// record decodes to its entry, with the keys packed in order after the
/// full table.
pub open spec fn spec_branch_prefix_encoded(buf: Seq<u8>, entries: Seq<BranchEntry>, i: int) -> bool {
    forall|k: int|
        0 <= k < i ==> {
            &&& #[trigger] spec_branch_key_off(buf, k) == 16 + 16 * entries.len()
                + spec_branch_key_size(entries.subrange(0, k))
            &&& spec_branch_key_len(buf, k) == entries[k].key@.len()
            &&& spec_branch_page_id(buf, k) == entries[k].page_id
            &&& spec_branch_key(buf, k) == entries[k].key@
        }
}

/// Reads the branch body out of a logical page. Rejects a body whose
/// entries reach past the page bytes, and one whose keys are not in
/// strictly ascending byte-lexicographic order.
#[verifier::loop_isolation(false)]
pub fn parse_branch(p: &[u8]) -> (r: Result<Vec<BranchEntry>, Error>)
    requires
        p@.len() >= PAGE_HEADER_SIZE,
    ensures
        r is Ok <==> spec_branch_fits(p@) && crate::keys::keys_sorted(spec_branch_keys(p@)),
        r is Ok ==> ({
            let out = r->Ok_0;
            &&& out@.len() == spec_branch_count(p@)
            &&& forall|i: int|
                0 <= i < out@.len() ==> {
                    &&& (#[trigger] out@[i]).key@ == spec_branch_key(p@, i)
                    &&& out@[i].page_id == spec_branch_page_id(p@, i)
                }
        }),
{
    let hdr = parse_header(p);
    let n = hdr.count as usize;
    let plen = p.len();
    let room = (plen - 16) / 16;
    proof {
        vstd::arithmetic::div_mod::lemma_fundamental_div_mod((plen - 16) as int, 16);
    }
    if n > room {
        return Err(Error::InvalidDB("branch entry table is truncated".to_owned()));
    }
    let mut out: Vec<BranchEntry> = Vec::new();
    let mut i: usize = 0;
    while i < n
        invariant
            0 <= i <= n,
            out@.len() == i,
            forall|k: int|
                0 <= k < i ==> {
                    &&& (#[trigger] out@[k]).key@ == spec_branch_key(p@, k)
                    &&& out@[k].page_id == spec_branch_page_id(p@, k)
                },
            forall|k: int|
                0 <= k < i ==> #[trigger] spec_branch_key_off(p@, k) + spec_branch_key_len(p@, k)
                    <= p@.len(),
            forall|k: int|
                0 <= k < i - 1 ==> crate::keys::lex_lt(
                    #[trigger] spec_branch_keys(p@)[k],
                    spec_branch_keys(p@)[k + 1],
                ),
        decreases n - i,
    {
        let off = 16 + 16 * i;
        let ko64 = u32_from_le_bytes(slice_subrange(p, off, off + 4)) as u64;
        let kl64 = u32_from_le_bytes(slice_subrange(p, off + 4, off + 8)) as u64;
        let page_id = u64_from_le_bytes(slice_subrange(p, off + 8, off + 16));
        if ko64 + kl64 > plen as u64 {
            proof {
                assert(spec_branch_key_off(p@, i as int) + spec_branch_key_len(p@, i as int)
                    > p@.len());
                assert(!spec_branch_fits(p@));
            }
            return Err(Error::InvalidDB("branch entry reaches past the page".to_owned()));
        }
        let ko = ko64 as usize;
        let kl = kl64 as usize;
        let key = vstd::slice::slice_to_vec(slice_subrange(p, ko, ko + kl));
        if i > 0 {
            let prev_ok = crate::keys::key_lt(out[i - 1].key.as_slice(), key.as_slice());
            if !prev_ok {
                proof {
                    assert(spec_branch_keys(p@)[i - 1] == out@[i - 1].key@);
                    assert(spec_branch_keys(p@)[i as int] == key@);
                    assert(!crate::keys::keys_sorted(spec_branch_keys(p@)));
                }
                return Err(Error::InvalidDB("branch keys are not ascending".to_owned()));
            }
        }
        out.push(BranchEntry { key, page_id });
        i = i + 1;
    }
    Ok(out)
}

/// Key bytes of these branch entries, summed.
pub open spec fn spec_branch_key_size(s: Seq<BranchEntry>) -> int
    decreases s.len(),
{
    if s.len() == 0 {
        0
    } else {
        spec_branch_key_size(s.drop_last()) + s.last().key@.len()
    }
}

/// The summed size is never negative.
proof fn lemma_branch_key_size_nonneg(s: Seq<BranchEntry>)
    ensures
        spec_branch_key_size(s) >= 0,
    decreases s.len(),
{
    if s.len() > 0 {
        lemma_branch_key_size_nonneg(s.drop_last());
    }
}

/// One more entry adds exactly its key bytes.
proof fn lemma_branch_prefix_step(s: Seq<BranchEntry>, k: int)
    requires
        0 <= k < s.len(),
    ensures
        spec_branch_key_size(s.subrange(0, k + 1)) == spec_branch_key_size(s.subrange(0, k))
            + s[k].key@.len(),
{
    assert(s.subrange(0, k + 1).drop_last() =~= s.subrange(0, k));
    assert(s.subrange(0, k + 1).last() == s[k]);
}

/// An earlier prefix never holds more bytes than a later one.
proof fn lemma_branch_prefix_mono(s: Seq<BranchEntry>, a: int, b: int)
    requires
        0 <= a <= b <= s.len(),
    ensures
        spec_branch_key_size(s.subrange(0, a)) <= spec_branch_key_size(s.subrange(0, b)),
    decreases b - a,
{
    if a < b {
        lemma_branch_prefix_step(s, a);
        lemma_branch_prefix_mono(s, a + 1, b);
    }
}

/// A branch entry's decoded fields do not change when bytes are written
/// only into one later table record and into heap space at or past
/// `heap_from`.
proof fn lemma_branch_entry_preserved(
    pre: Seq<u8>,
    now: Seq<u8>,
    k: int,
    rec_at: int,
    heap_from: int,
)
    requires
        now.len() == pre.len(),
        0 <= k,
        16 + 16 * (k + 1) <= rec_at,
        rec_at + 16 <= spec_branch_key_off(pre, k),
        0 <= spec_branch_key_len(pre, k),
        spec_branch_key_off(pre, k) + spec_branch_key_len(pre, k) <= heap_from,
        heap_from <= now.len(),
        forall|t: int|
            0 <= t < pre.len() && !(rec_at <= t < rec_at + 16) && t < heap_from ==> now[t]
                == pre[t],
    ensures
        spec_branch_key_off(now, k) == spec_branch_key_off(pre, k),
        spec_branch_key_len(now, k) == spec_branch_key_len(pre, k),
        spec_branch_page_id(now, k) == spec_branch_page_id(pre, k),
        spec_branch_key(now, k) == spec_branch_key(pre, k),
{
    assert(now.subrange(16 + 16 * k, 16 + 16 * k + 4) =~= pre.subrange(
        16 + 16 * k,
        16 + 16 * k + 4,
    ));
    assert(now.subrange(16 + 16 * k + 4, 16 + 16 * k + 8) =~= pre.subrange(
        16 + 16 * k + 4,
        16 + 16 * k + 8,
    ));
    assert(now.subrange(16 + 16 * k + 8, 16 + 16 * k + 16) =~= pre.subrange(
        16 + 16 * k + 8,
        16 + 16 * k + 16,
    ));
    let ko = spec_branch_key_off(pre, k);
    let kl = spec_branch_key_len(pre, k);
    assert(now.subrange(ko, ko + kl) =~= pre.subrange(ko, ko + kl));
}


/// Every branch entry already encoded below `curg` still decodes the
/// same after one more record and one more key are written.
#[verifier::rlimit(100)]
#[verifier::spinoff_prover]
proof fn lemma_branch_preserved_all(
    pre: Seq<u8>,
    now: Seq<u8>,
    entries: Seq<BranchEntry>,
    base: int,
    ii: int,
    curg: int,
)
    requires
        now.len() == pre.len(),
        0 <= ii < entries.len(),
        base == 16 + 16 * entries.len(),
        curg == base + spec_branch_key_size(entries.subrange(0, ii)),
        curg <= now.len(),
        forall|t: int|
            0 <= t < pre.len() && !(16 + 16 * ii <= t < 16 + 16 * ii + 16) && t < curg
                ==> now[t] == pre[t],
        spec_branch_prefix_encoded(pre, entries, ii),
    ensures
        spec_branch_prefix_encoded(now, entries, ii),
{
    assert forall|k: int| 0 <= k < ii implies {
        &&& #[trigger] spec_branch_key_off(now, k) == 16 + 16 * entries.len()
            + spec_branch_key_size(entries.subrange(0, k))
        &&& spec_branch_key_len(now, k) == entries[k].key@.len()
        &&& spec_branch_page_id(now, k) == entries[k].page_id
        &&& spec_branch_key(now, k) == entries[k].key@
    } by {
        assert(spec_branch_key_off(pre, k) == 16 + 16 * entries.len() + spec_branch_key_size(
            entries.subrange(0, k),
        ));
        lemma_branch_prefix_step(entries, k);
        lemma_branch_prefix_mono(entries, k + 1, ii);
        lemma_branch_key_size_nonneg(entries.subrange(0, k));
        lemma_branch_entry_preserved(pre, now, k, 16 + 16 * ii, curg);
    }
}


/// A freshly written branch record and key decode back to what was
/// written.
#[verifier::spinoff_prover]
proof fn lemma_branch_new_entry(
    now: Seq<u8>,
    rec: Seq<u8>,
    key: Seq<u8>,
    ii: int,
    curg: int,
    page_id: u64,
)
    requires
        0 <= ii,
        rec == spec_u32_to_le_bytes(curg as u32) + spec_u32_to_le_bytes(key.len() as u32)
            + spec_u64_to_le_bytes(page_id),
        0 <= curg <= u32::MAX,
        key.len() <= u32::MAX,
        16 + 16 * ii + 16 <= curg,
        curg + key.len() <= now.len(),
        now.subrange(16 + 16 * ii, 16 + 16 * ii + 16) == rec,
        now.subrange(curg, curg + key.len() as int) == key,
    ensures
        spec_branch_key_off(now, ii) == curg,
        spec_branch_key_len(now, ii) == key.len(),
        spec_branch_page_id(now, ii) == page_id,
        spec_branch_key(now, ii) == key,
{
    lemma_auto_spec_u32_to_from_le_bytes();
    lemma_auto_spec_u64_to_from_le_bytes();
    assert(rec.len() == 16);
    assert(now.subrange(16 + 16 * ii, 16 + 16 * ii + 4) =~= rec.subrange(0, 4));
    assert(rec.subrange(0, 4) =~= spec_u32_to_le_bytes(curg as u32));
    assert(now.subrange(16 + 16 * ii + 4, 16 + 16 * ii + 8) =~= rec.subrange(4, 8));
    assert(rec.subrange(4, 8) =~= spec_u32_to_le_bytes(key.len() as u32));
    assert(now.subrange(16 + 16 * ii + 8, 16 + 16 * ii + 16) =~= rec.subrange(8, 16));
    assert(rec.subrange(8, 16) =~= spec_u64_to_le_bytes(page_id));
    assert(spec_branch_key(now, ii) == key);
}

/// A buffer whose header and entry regions carry these branch entries
/// decodes as that branch page.
#[verifier::rlimit(100)]
#[verifier::spinoff_prover]
proof fn lemma_branch_finalize(buf: Seq<u8>, entries: Seq<BranchEntry>, hdr: PageHeader, base: int)
    requires
        entries.len() <= u16::MAX,
        base == 16 + 16 * entries.len(),
        buf.len() >= base + spec_branch_key_size(entries),
        hdr.count == entries.len() as u16,
        forall|t: int| 0 <= t < 16 ==> buf[t] == spec_header_bytes(hdr)[t],
        spec_branch_prefix_encoded(buf, entries, entries.len() as int),
    ensures
        spec_parse_header(buf) == hdr,
        spec_branch_count(buf) == entries.len(),
        spec_branch_fits(buf),
        forall|i: int|
            0 <= i < entries.len() ==> {
                &&& spec_branch_key(buf, i) == (#[trigger] entries[i]).key@
                &&& spec_branch_page_id(buf, i) == entries[i].page_id
            },
{
    lemma_branch_key_size_nonneg(entries);
    lemma_header_roundtrip(hdr);
    lemma_parse_header_prefix(buf, spec_header_bytes(hdr));
    assert(spec_branch_count(buf) == entries.len());
    assert(spec_branch_fits(buf)) by {
        assert forall|k: int|
            0 <= k < spec_branch_count(buf) implies #[trigger] spec_branch_key_off(buf, k)
            + spec_branch_key_len(buf, k) <= buf.len() by {
            assert(spec_branch_key_off(buf, k) == 16 + 16 * entries.len()
                + spec_branch_key_size(entries.subrange(0, k)));
            assert(spec_branch_key_len(buf, k) == entries[k].key@.len());
            lemma_branch_prefix_step(entries, k);
            lemma_branch_prefix_mono(entries, k + 1, entries.len() as int);
            assert(entries.subrange(0, entries.len() as int) =~= entries);
        }
    }
    assert forall|i: int| 0 <= i < entries.len() implies {
        &&& spec_branch_key(buf, i) == (#[trigger] entries[i]).key@
        &&& spec_branch_page_id(buf, i) == entries[i].page_id
    } by {
        assert(spec_branch_key_off(buf, i) == 16 + 16 * entries.len() + spec_branch_key_size(
            entries.subrange(0, i),
        ));
    }
}

/// Writes branch entry `i`: its table record and its key bytes. Every
/// entry before it, and the page header, stay as they were.
#[verifier::loop_isolation(false)]
#[verifier::rlimit(100)]
#[verifier::spinoff_prover]
fn write_branch_entry(buf: &mut Vec<u8>, entries: &Vec<BranchEntry>, i: usize, cur: usize)
    requires
        i < entries@.len(),
        entries@.len() <= u16::MAX,
        16 + 16 * entries@.len() + spec_branch_key_size(entries@) <= u32::MAX,
        16 + 16 * entries@.len() + spec_branch_key_size(entries@) <= old(buf)@.len(),
        cur == 16 + 16 * entries@.len() + spec_branch_key_size(entries@.subrange(0, i as int)),
        spec_branch_prefix_encoded(old(buf)@, entries@, i as int),
    ensures
        final(buf)@.len() == old(buf)@.len(),
        forall|t: int| 0 <= t < 16 ==> final(buf)@[t] == old(buf)@[t],
        spec_branch_prefix_encoded(final(buf)@, entries@, i + 1),
{
    let n = entries.len();
    let ghost base: int = 16 + 16 * entries@.len() as int;
    proof {
        lemma_branch_prefix_step(entries@, i as int);
        lemma_branch_prefix_mono(entries@, i + 1, n as int);
        lemma_branch_key_size_nonneg(entries@.subrange(0, i as int));
        assert(entries@.subrange(0, n as int) =~= entries@);
    }
    let e_key_len = entries[i].key.len();
    let mut rec = u32_to_le_bytes(cur as u32);
    let mut t4 = u32_to_le_bytes(e_key_len as u32);
    rec.append(&mut t4);
    let mut t8 = u64_to_le_bytes(entries[i].page_id);
    rec.append(&mut t8);
    let ghost pre = buf@;
    write_bytes(buf, 16 + 16 * i, rec.as_slice());
    let ghost mid = buf@;
    proof {
        let ii = i as int;
        assert(mid.subrange(16 + 16 * ii, 16 + 16 * ii + 16) =~= rec@);
    }
    write_bytes(buf, cur, entries[i].key.as_slice());
    proof {
        let now = buf@;
        let ii = i as int;
        let curg = cur as int;
        assert forall|t: int| 0 <= t < now.len() && t < curg implies now[t] == mid[t] by {}
        assert(now.subrange(16 + 16 * ii, 16 + 16 * ii + 16) =~= mid.subrange(
            16 + 16 * ii,
            16 + 16 * ii + 16,
        ));
        assert(now.subrange(curg, curg + e_key_len) =~= entries@[ii].key@);
        lemma_branch_new_entry(now, rec@, entries@[ii].key@, ii, curg, entries@[ii].page_id);
        assert forall|t: int|
            0 <= t < pre.len() && !(16 + 16 * ii <= t < 16 + 16 * ii + 16) && t < curg implies
            now[t] == pre[t] by {
            assert(mid[t] == pre[t]);
        }
        lemma_branch_preserved_all(pre, now, entries@, base, ii, curg);
        assert(spec_branch_prefix_encoded(now, entries@, ii + 1)) by {
            assert forall|k: int| 0 <= k < ii + 1 implies {
                &&& #[trigger] spec_branch_key_off(now, k) == 16 + 16 * entries@.len()
                    + spec_branch_key_size(entries@.subrange(0, k))
                &&& spec_branch_key_len(now, k) == entries@[k].key@.len()
                &&& spec_branch_page_id(now, k) == entries@[k].page_id
                &&& spec_branch_key(now, k) == entries@[k].key@
            } by {
                if k == ii {
                    assert(spec_branch_key_off(now, k) == curg);
                }
            }
        }
    }
}

/// Serializes a branch page: header, the entry table, then each key in
/// entry order, padded out to a whole number of pages.
#[verifier::loop_isolation(false)]
#[verifier::spinoff_prover]
pub fn branch_page_bytes(page_id: u64, entries: &Vec<BranchEntry>, page_size: usize) -> (r: Vec<
    u8,
>)
    requires
        page_size >= 1024,
        entries@.len() <= u16::MAX,
        16 + 16 * entries@.len() + spec_branch_key_size(entries@) <= u32::MAX,
        16 + 16 * entries@.len() + spec_branch_key_size(entries@) + page_size <= usize::MAX,
    ensures
        r@.len() as int % page_size as int == 0,
        r@.len() >= 16 + 16 * entries@.len() + spec_branch_key_size(entries@),
        r@.len() <= 16 + 16 * entries@.len() + spec_branch_key_size(entries@) + page_size,
        spec_parse_header(r@).id == page_id,
        spec_parse_header(r@).page_type == PAGE_TYPE_BRANCH,
        spec_parse_header(r@).overflow as int + 1 == r@.len() as int / page_size as int,
        spec_branch_count(r@) == entries@.len(),
        spec_branch_fits(r@),
        forall|i: int|
            0 <= i < entries@.len() ==> {
                &&& spec_branch_key(r@, i) == (#[trigger] entries@[i]).key@
                &&& spec_branch_page_id(r@, i) == entries@[i].page_id
            },
{
    let n = entries.len();
    let mut kv: usize = 0;
    let mut i: usize = 0;
    proof {
        assert(entries@.subrange(0, 0) =~= Seq::<BranchEntry>::empty());
        assert(entries@.subrange(0, n as int) =~= entries@);
    }
    while i < n
        invariant
            0 <= i <= n,
            kv == spec_branch_key_size(entries@.subrange(0, i as int)),
        decreases n - i,
    {
        proof {
            lemma_branch_prefix_step(entries@, i as int);
            lemma_branch_prefix_mono(entries@, i + 1, n as int);
            lemma_branch_key_size_nonneg(entries@.subrange(0, i as int));
        }
        kv = kv + entries[i].key.len();
        i = i + 1;
    }
    let needed = 16 + 16 * n + kv;
    let npages: usize = needed / page_size + (if needed % page_size == 0 {
        0
    } else {
        1
    });
    proof {
        lemma_npages_bounds(needed as int, page_size as int, npages as int);
        assert((npages - 1) as int <= u32::MAX);
    }
    let total = npages * page_size;
    let hdr = PageHeader {
        id: page_id,
        page_type: PAGE_TYPE_BRANCH,
        count: n as u16,
        overflow: (npages - 1) as u32,
    };
    let hdrb = header_bytes(&hdr);
    let mut buf = zero_vec(total);
    write_bytes(&mut buf, 0, hdrb.as_slice());
    let ghost after_header = buf@;
    let mut cur: usize = 16 + 16 * n;
    let mut i: usize = 0;
    proof {
        lemma_branch_key_size_nonneg(entries@);
    }
    while i < n
        invariant
            0 <= i <= n,
            buf@.len() == total,
            cur == 16 + 16 * n + spec_branch_key_size(entries@.subrange(0, i as int)),
            forall|t: int| 0 <= t < 16 ==> buf@[t] == after_header[t],
            spec_branch_prefix_encoded(buf@, entries@, i as int),
        decreases n - i,
    {
        proof {
            lemma_branch_prefix_step(entries@, i as int);
            lemma_branch_prefix_mono(entries@, i + 1, n as int);
            lemma_branch_key_size_nonneg(entries@.subrange(0, i as int));
        }
        write_branch_entry(&mut buf, entries, i, cur);
        cur = cur + entries[i].key.len();
        i = i + 1;
    }
    proof {
        assert(entries@.subrange(0, n as int) =~= entries@);
        assert forall|t: int| 0 <= t < 16 implies buf@[t] == spec_header_bytes(hdr)[t] by {
            assert(buf@[t] == after_header[t]);
        }
        lemma_branch_finalize(buf@, entries@, hdr, 16 + 16 * n as int);
        vstd::arithmetic::div_mod::lemma_mod_multiples_basic(npages as int, page_size as int);
        vstd::arithmetic::div_mod::lemma_div_multiples_vanish(npages as int, page_size as int);
        vstd::arithmetic::mul::lemma_mul_is_commutative(npages as int, page_size as int);
        assert(buf@.len() as int == (page_size as int) * (npages as int));
    }
    buf
}


/// The keys of a sequence of decoded leaf entries, in order.
pub open spec fn leaf_entry_keys(s: Seq<LeafEntry>) -> Seq<Seq<u8>> {
    Seq::new(s.len(), |i: int| s[i].key@)
}

/// The keys of a sequence of decoded branch entries, in order.
pub open spec fn branch_entry_keys(s: Seq<BranchEntry>) -> Seq<Seq<u8>> {
    Seq::new(s.len(), |i: int| s[i].key@)
}

/// Whether two byte strings are equal.
pub fn bytes_eq(a: &[u8], b: &[u8]) -> (r: bool)
    ensures
        r == (a@ == b@),
{
    let alen = a.len();
    let blen = b.len();
    if alen != blen {
        proof {
            assert(a@ != b@);
        }
        return false;
    }
    let mut i: usize = 0;
    while i < alen
        invariant
            0 <= i <= alen,
            alen == a@.len(),
            alen == b@.len(),
            forall|k: int| 0 <= k < i ==> a@[k] == b@[k],
        decreases alen - i,
    {
        let av = *slice_index_get(a, i);
        let bv = *slice_index_get(b, i);
        if av != bv {
            proof {
                assert(a@[i as int] != b@[i as int]);
            }
            return false;
        }
        i = i + 1;
    }
    proof {
        assert(a@ =~= b@);
    }
    true
}

/// Where a cursor lands inside a leaf when it seeks `key`: the first
/// position whose key is not below `key`, or one past the end when
/// every key is below it.
pub fn leaf_seek(entries: &Vec<LeafEntry>, key: &[u8]) -> (r: usize)
    ensures
        r <= entries@.len(),
        forall|j: int| 0 <= j < r ==> crate::keys::lex_lt((#[trigger] entries@[j]).key@, key@),
        r < entries@.len() ==> !crate::keys::lex_lt(entries@[r as int].key@, key@),
{
    let n = entries.len();
    let mut i: usize = 0;
    while i < n
        invariant
            0 <= i <= n,
            n == entries@.len(),
            forall|j: int|
                0 <= j < i ==> crate::keys::lex_lt((#[trigger] entries@[j]).key@, key@),
        decreases n - i,
    {
        if !crate::keys::key_lt(entries[i].key.as_slice(), key) {
            return i;
        }
        i = i + 1;
    }
    n
}

/// Looks a key up in a leaf whose keys are strictly ascending: the
/// entry holding exactly that key, if one does.
pub fn leaf_get(entries: &Vec<LeafEntry>, key: &[u8]) -> (r: Option<usize>)
    requires
        crate::keys::keys_sorted(leaf_entry_keys(entries@)),
    ensures
        match r {
            Option::Some(i) => i < entries@.len() && entries@[i as int].key@ == key@,
            Option::None => forall|j: int|
                0 <= j < entries@.len() ==> (#[trigger] entries@[j]).key@ != key@,
        },
{
    let n = entries.len();
    let i = leaf_seek(entries, key);
    if i < n && bytes_eq(entries[i].key.as_slice(), key) {
        return Some(i);
    }
    proof {
        assert forall|j: int| 0 <= j < entries@.len() implies (#[trigger] entries@[j]).key@
            != key@ by {
            if j < i {
                crate::keys::lemma_lex_lt_irreflexive(key@);
            } else if j == i {
            } else {
                crate::keys::lemma_lex_lt_connected(entries@[i as int].key@, key@);
                assert(crate::keys::lex_lt(key@, entries@[i as int].key@));
                assert(leaf_entry_keys(entries@)[i as int] == entries@[i as int].key@);
                assert(leaf_entry_keys(entries@)[j] == entries@[j].key@);
                crate::keys::lemma_keys_sorted_pairwise(leaf_entry_keys(entries@), i as int, j);
                crate::keys::lemma_lex_lt_transitive(
                    key@,
                    entries@[i as int].key@,
                    entries@[j].key@,
                );
                crate::keys::lemma_lex_lt_irreflexive(key@);
            }
        }
    }
    None
}

/// Which child a branch descends into when it seeks `key`: the last
/// entry whose first key is not above `key`, or the first entry when
/// every first key is above it.
#[verifier::loop_isolation(false)]
pub fn branch_seek(entries: &Vec<BranchEntry>, key: &[u8]) -> (r: usize)
    requires
        entries@.len() > 0,
        crate::keys::keys_sorted(branch_entry_keys(entries@)),
    ensures
        r < entries@.len(),
        r > 0 ==> !crate::keys::lex_lt(key@, entries@[r as int].key@),
        r + 1 < entries@.len() ==> crate::keys::lex_lt(key@, entries@[r + 1].key@),
{
    let n = entries.len();
    let mut i: usize = 0;
    while i < n
        invariant
            0 <= i <= n,
            n == entries@.len(),
            forall|j: int|
                0 <= j < i ==> !crate::keys::lex_lt(key@, (#[trigger] entries@[j]).key@),
        decreases n - i,
    {
        if crate::keys::key_lt(key, entries[i].key.as_slice()) {
            if i == 0 {
                proof {
                    if 1 < entries@.len() {
                        assert(branch_entry_keys(entries@)[0] == entries@[0].key@);
                        assert(branch_entry_keys(entries@)[1] == entries@[1].key@);
                        crate::keys::lemma_keys_sorted_pairwise(
                            branch_entry_keys(entries@),
                            0,
                            1,
                        );
                        crate::keys::lemma_lex_lt_transitive(
                            key@,
                            entries@[0].key@,
                            entries@[1].key@,
                        );
                    }
                }
                return 0;
            }
            return i - 1;
        }
        i = i + 1;
    }
    n - 1
}

/// The bytes of page `id` inside a whole-file image.
pub open spec fn spec_page(img: Seq<u8>, ps: int, id: int) -> Seq<u8>
    recommends
        ps >= 1,
        0 <= id,
        (id + 1) * ps <= img.len(),
{
    img.subrange(id * ps, id * ps + ps)
}

/// Two byte sequences that agree on their first eighty bytes decode to
/// the same meta record.
pub proof fn lemma_parse_meta_prefix(p1: Seq<u8>, p2: Seq<u8>)
    requires
        p1.len() >= META_PAGE_BYTES,
        p2.len() >= META_PAGE_BYTES,
        forall|i: int| 0 <= i < META_PAGE_BYTES ==> p1[i] == p2[i],
    ensures
        spec_parse_meta(p1) == spec_parse_meta(p2),
{
    assert(p1.subrange(16, 20) =~= p2.subrange(16, 20));
    assert(p1.subrange(20, 24) =~= p2.subrange(20, 24));
    assert(p1.subrange(24, 28) =~= p2.subrange(24, 28));
    assert(p1.subrange(28, 32) =~= p2.subrange(28, 32));
    assert(p1.subrange(32, 40) =~= p2.subrange(32, 40));
    assert(p1.subrange(40, 48) =~= p2.subrange(40, 48));
    assert(p1.subrange(48, 56) =~= p2.subrange(48, 56));
    assert(p1.subrange(56, 64) =~= p2.subrange(56, 64));
    assert(p1.subrange(64, 72) =~= p2.subrange(64, 72));
    assert(p1.subrange(72, 80) =~= p2.subrange(72, 80));
}

/// Two byte sequences that agree on their first sixteen bytes decode to
/// the same page header.
pub proof fn lemma_parse_header_prefix(p1: Seq<u8>, p2: Seq<u8>)
    requires
        p1.len() >= PAGE_HEADER_SIZE,
        p2.len() >= PAGE_HEADER_SIZE,
        forall|i: int| 0 <= i < PAGE_HEADER_SIZE ==> p1[i] == p2[i],
    ensures
        spec_parse_header(p1) == spec_parse_header(p2),
{
    assert(p1.subrange(0, 8) =~= p2.subrange(0, 8));
    assert(p1.subrange(10, 12) =~= p2.subrange(10, 12));
    assert(p1.subrange(12, 16) =~= p2.subrange(12, 16));
}

/// A vector of `n` zero bytes.
pub fn zero_vec(n: usize) -> (r: Vec<u8>)
    ensures
        r@.len() == n,
        forall|i: int| 0 <= i < n ==> r@[i] == 0u8,
{
    let r = vec![0u8; n];
    proof {
        assert forall|i: int| 0 <= i < n implies r@[i] == 0u8 by {
            assert(vstd::pervasive::cloned(0u8, r@[i]));
        }
    }
    r
}

/// Copies `src` into `buf` starting at `off`; every other byte stays.
pub fn write_bytes(buf: &mut Vec<u8>, off: usize, src: &[u8])
    requires
        off + src@.len() <= old(buf)@.len(),
    ensures
        final(buf)@.len() == old(buf)@.len(),
        forall|i: int|
            0 <= i < old(buf)@.len() ==> final(buf)@[i] == (if off <= i < off + src@.len() {
                src@[i - off]
            } else {
                old(buf)@[i]
            }),
{
    let n = buf.len();
    let mut j: usize = 0;
    while j < src.len()
        invariant
            off + src@.len() <= n,
            n == buf@.len(),
            buf@.len() == old(buf)@.len(),
            0 <= j <= src@.len(),
            forall|i: int|
                0 <= i < buf@.len() ==> buf@[i] == (if off <= i < off + j {
                    src@[i - off]
                } else {
                    old(buf)@[i]
                }),
        decreases src@.len() - j,
    {
        buf[off + j] = src[j];
        j = j + 1;
    }
}

} // verus!

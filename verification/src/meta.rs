//! The meta record: the commit pointer each of the two meta pages carries.

use vstd::prelude::*;
use vstd::bytes::{spec_u32_to_le_bytes, spec_u64_to_le_bytes};
use crate::{MAGIC_VALUE, VERSION};

verus! {

/// Offset basis of the 64-bit FNV-1a checksum.
pub const FNV_OFFSET_BASIS: u64 = 0xcbf2_9ce4_8422_2325;

/// Multiplier of the 64-bit FNV-1a checksum.
pub const FNV_PRIME: u64 = 0x0000_0100_0000_01B3;

/// One FNV-1a step: fold a byte into the running checksum.
pub open spec fn fnv1a_update(h: u64, b: u8) -> u64 {
    (h ^ (b as u64)).wrapping_mul(FNV_PRIME)
}

/// 64-bit FNV-1a over a byte sequence. Deterministic by construction, so
/// the same meta record hashes the same on every open.
pub open spec fn fnv1a(s: Seq<u8>) -> u64
    decreases s.len(),
{
    if s.len() == 0 {
        FNV_OFFSET_BASIS
    } else {
        fnv1a_update(fnv1a(s.drop_last()), s.last())
    }
}

/// 64-bit FNV-1a of a byte slice.
pub fn fnv64(bytes: &[u8]) -> (h: u64)
    ensures
        h == fnv1a(bytes@),
{
    let mut h: u64 = FNV_OFFSET_BASIS;
    let mut i: usize = 0;
    while i < bytes.len()
        invariant
            0 <= i <= bytes@.len(),
            h == fnv1a(bytes@.subrange(0, i as int)),
        decreases bytes@.len() - i,
    {
        let b = bytes[i];
        h = (h ^ (b as u64)).wrapping_mul(FNV_PRIME);
        i = i + 1;
        proof {
            let pre = bytes@.subrange(0, i - 1);
            let cur = bytes@.subrange(0, i as int);
            assert(cur.drop_last() =~= pre);
            assert(cur.last() == bytes@[i - 1]);
        }
    }
    proof {
        assert(bytes@.subrange(0, bytes@.len() as int) =~= bytes@);
    }
    h
}

/// Root pointer and key sequence of one bucket.
#[derive(Debug, Clone, Copy, PartialEq, Eq, Structural)]
pub struct BucketMeta {
    /// Page id of the bucket's root page.
    pub root_page: u64,
    /// Monotonic counter behind integer key generation.
    pub next_int: u64,
}

impl BucketMeta {
    /// Returns the bucket's integer-key counter and advances it: each
    /// call hands out the next value of a monotonic sequence.
    pub fn next_integer(&mut self) -> (r: u64)
        requires
            old(self).next_int < u64::MAX,
        ensures
            r == old(self).next_int,
            final(self).next_int == old(self).next_int + 1,
            final(self).root_page == old(self).root_page,
    {
        let r = self.next_int;
        self.next_int = self.next_int + 1;
        r
    }
}

/// In-memory mirror of a meta page's body.
#[derive(Debug, Clone, Copy, PartialEq, Eq, Structural)]
pub struct Meta {
    /// Must equal [`MAGIC_VALUE`] for the page to count as a meta page.
    pub magic: u32,
    /// On-disk format version.
    pub version: u32,
    /// Page size the file was created with.
    pub pagesize: u64,
    /// Which of the two meta slots this record occupies (0 or 1).
    pub meta_page: u32,
    /// Root bucket of this snapshot.
    pub root: BucketMeta,
    /// Page id of the serialized freelist of this snapshot.
    pub freelist_page: u64,
    /// Pages in the file when this snapshot was committed.
    pub num_pages: u64,
    /// Commit counter; the valid meta with the larger value wins.
    pub tx_id: u64,
    /// Checksum over every other field of this record.
    pub hash: u64,
}

/// The bytes the meta checksum covers: every field but the hash itself,
/// little-endian, in on-disk order.
pub open spec fn spec_meta_content_bytes(m: Meta) -> Seq<u8> {
    spec_u32_to_le_bytes(m.magic) + spec_u32_to_le_bytes(m.version) + spec_u32_to_le_bytes(
        m.pagesize as u32,
    ) + spec_u32_to_le_bytes(m.meta_page) + spec_u64_to_le_bytes(m.root.root_page)
        + spec_u64_to_le_bytes(m.root.next_int) + spec_u64_to_le_bytes(m.freelist_page)
        + spec_u64_to_le_bytes(m.num_pages) + spec_u64_to_le_bytes(m.tx_id)
}

/// The checksum a self-consistent meta record carries.
pub open spec fn spec_meta_hash(m: Meta) -> u64 {
    fnv1a(spec_meta_content_bytes(m))
}

/// A meta record is valid when magic, version and checksum all agree.
pub open spec fn spec_meta_valid(m: Meta) -> bool {
    &&& m.magic == MAGIC_VALUE
    &&& m.version == VERSION
    &&& m.hash == spec_meta_hash(m)
}

impl Meta {
    /// Serialized form of every field but the hash, in on-disk order.
    pub fn content_bytes(&self) -> (r: Vec<u8>)
        ensures
            r@ == spec_meta_content_bytes(*self),
            r@.len() == 56,
    {
        let mut out = vstd::bytes::u32_to_le_bytes(self.magic);
        let mut t4 = vstd::bytes::u32_to_le_bytes(self.version);
        out.append(&mut t4);
        let mut t4 = vstd::bytes::u32_to_le_bytes(self.pagesize as u32);
        out.append(&mut t4);
        let mut t4 = vstd::bytes::u32_to_le_bytes(self.meta_page);
        out.append(&mut t4);
        let mut t8 = vstd::bytes::u64_to_le_bytes(self.root.root_page);
        out.append(&mut t8);
        let mut t8 = vstd::bytes::u64_to_le_bytes(self.root.next_int);
        out.append(&mut t8);
        let mut t8 = vstd::bytes::u64_to_le_bytes(self.freelist_page);
        out.append(&mut t8);
        let mut t8 = vstd::bytes::u64_to_le_bytes(self.num_pages);
        out.append(&mut t8);
        let mut t8 = vstd::bytes::u64_to_le_bytes(self.tx_id);
        out.append(&mut t8);
        out
    }

    /// The checksum this record should carry: FNV-1a over every other field.
    pub fn hash_self(&self) -> (r: u64)
        ensures
            r == spec_meta_hash(*self),
    {
        let content = self.content_bytes();
        fnv64(content.as_slice())
    }

    /// Whether magic, version and checksum all agree.
    pub fn valid(&self) -> (r: bool)
        ensures
            r == spec_meta_valid(*self),
    {
        self.magic == MAGIC_VALUE && self.version == VERSION && self.hash == self.hash_self()
    }
}

} // verus!

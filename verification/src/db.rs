//! The top-level handle: open options, file initialization, meta-page
//! selection, and the database value that ties file, page index and
//! freelist together.

use vstd::prelude::*;
use crate::errors::Error;
use crate::freelist::Freelist;
use crate::fs::{DbFile, File, IndexByPageID, MemoryMap, OpenOption, PathLike};
use crate::fs::memfile::{FileStore, store_files};
use crate::meta::{BucketMeta, Meta, spec_meta_hash, spec_meta_valid};
use crate::page::{
    PageHeader, spec_page, spec_parse_meta, parse_meta, META_PAGE_BYTES,
};
use crate::{DEFAULT_NUM_PAGES, DEFAULT_PAGE_SIZE, MAGIC_VALUE, VERSION};

verus! {

/// Minimum number of bytes to allocate when growing the database file.
pub const MIN_ALLOC_SIZE: u64 = 8388608;

/// Options to configure how a database is opened: page size, initial
/// page count, and strict mode.
pub struct OpenOptions {
    /// Page size the database uses, at least 1024 bytes.
    pub pagesize: u64,
    /// Pages allocated for a brand-new file, at least 4.
    pub num_pages: usize,
    /// Whether every transaction re-checks the tree before finalizing.
    pub strict_mode: bool,
}

impl OpenOptions {
    /// The bounds every set of options keeps: the minimum page size,
    /// the minimum page count, and a page size the meta body can store.
    pub open spec fn wf(self) -> bool {
        &&& 1024 <= self.pagesize <= u32::MAX
        &&& self.num_pages >= 4
    }

    /// Options with the default values.
    pub fn new() -> (r: OpenOptions)
        ensures
            r.wf(),
            r.pagesize == DEFAULT_PAGE_SIZE,
            r.num_pages == DEFAULT_NUM_PAGES,
            !r.strict_mode,
    {
        OpenOptions {
            pagesize: DEFAULT_PAGE_SIZE,
            num_pages: DEFAULT_NUM_PAGES,
            strict_mode: false,
        }
    }

    /// Sets the page size. Anything under 1024 bytes is rejected, and
    /// the meta body stores the value in 32 bits.
    pub fn pagesize(self, pagesize: u64) -> (r: OpenOptions)
        requires
            1024 <= pagesize <= u32::MAX,
        ensures
            r.pagesize == pagesize,
            r.num_pages == self.num_pages,
            r.strict_mode == self.strict_mode,
            self.wf() ==> r.wf(),
    {
        if pagesize < 1024 {
            return vstd::pervasive::unreached();
        }
        OpenOptions { pagesize, num_pages: self.num_pages, strict_mode: self.strict_mode }
    }

    /// Sets how many pages a new database file starts with; fewer than
    /// the four seed pages is rejected.
    pub fn num_pages(self, num_pages: usize) -> (r: OpenOptions)
        requires
            num_pages >= 4,
        ensures
            r.num_pages == num_pages,
            r.pagesize == self.pagesize,
            r.strict_mode == self.strict_mode,
            self.wf() ==> r.wf(),
    {
        if num_pages < 4 {
            return vstd::pervasive::unreached();
        }
        OpenOptions { pagesize: self.pagesize, num_pages, strict_mode: self.strict_mode }
    }

    /// Enables or disables strict mode.
    pub fn strict_mode(self, strict_mode: bool) -> (r: OpenOptions)
        ensures
            r.strict_mode == strict_mode,
            r.pagesize == self.pagesize,
            r.num_pages == self.num_pages,
            self.wf() ==> r.wf(),
    {
        OpenOptions { pagesize: self.pagesize, num_pages: self.num_pages, strict_mode }
    }
}

impl Default for OpenOptions {
    /// The default options: the host page size, 32 pages, strict mode off.
    fn default() -> (r: OpenOptions)
        ensures
            r.wf(),
            r.pagesize == DEFAULT_PAGE_SIZE,
            r.num_pages == DEFAULT_NUM_PAGES,
            !r.strict_mode,
    {
        OpenOptions::new()
    }
}

/// Which of two decoded meta records an open exposes: a valid record
/// whose stored page size disagrees with the configured one poisons the
/// open; otherwise the valid record with the larger transaction id wins,
/// and with no valid record the file is corrupt.
pub open spec fn spec_select_meta(m1: Meta, m2: Meta, ps: u64) -> Option<Meta> {
    if spec_meta_valid(m1) && m1.pagesize != ps {
        Option::None
    } else if spec_meta_valid(m2) && m2.pagesize != ps {
        Option::None
    } else if spec_meta_valid(m1) && spec_meta_valid(m2) {
        Option::Some(
            if m1.tx_id > m2.tx_id {
                m1
            } else {
                m2
            },
        )
    } else if spec_meta_valid(m1) {
        Option::Some(m1)
    } else if spec_meta_valid(m2) {
        Option::Some(m2)
    } else {
        Option::None
    }
}

/// Recovery: when exactly one of the two meta records is valid (and
/// carries the configured page size), the open exposes that record,
/// whatever bytes sit in the other slot.
pub proof fn lemma_select_meta_recovery(m1: Meta, m2: Meta, ps: u64)
    requires
        spec_meta_valid(m1) != spec_meta_valid(m2),
        spec_meta_valid(m1) ==> m1.pagesize == ps,
        spec_meta_valid(m2) ==> m2.pagesize == ps,
    ensures
        spec_meta_valid(m1) ==> spec_select_meta(m1, m2, ps) == Option::Some(m1),
        spec_meta_valid(m2) ==> spec_select_meta(m1, m2, ps) == Option::Some(m2),
{
}

/// Commit-pointer order: when both meta records are valid, the exposed
/// record carries the larger transaction id of the two.
pub proof fn lemma_select_meta_newest_wins(m1: Meta, m2: Meta, ps: u64)
    requires
        spec_meta_valid(m1),
        spec_meta_valid(m2),
        m1.pagesize == ps,
        m2.pagesize == ps,
    ensures
        spec_select_meta(m1, m2, ps) is Some,
        spec_select_meta(m1, m2, ps)->0.tx_id == (if m1.tx_id > m2.tx_id {
            m1.tx_id
        } else {
            m2.tx_id
        }),
        spec_select_meta(m1, m2, ps)->0 == m1 || spec_select_meta(m1, m2, ps)->0 == m2,
{
}

/// The meta record a fresh database writes into meta slot `slot`: the
/// root bucket's leaf on page 3, the empty freelist on page 2, four
/// pages in all, transaction id zero.
pub open spec fn spec_seed_meta(ps: u64, slot: u32) -> Meta {
    let base = Meta {
        magic: MAGIC_VALUE,
        version: VERSION,
        pagesize: ps,
        meta_page: slot,
        root: BucketMeta { root_page: 3, next_int: 0 },
        freelist_page: 2,
        num_pages: 4,
        tx_id: 0,
        hash: 0,
    };
    Meta { hash: spec_meta_hash(base), ..base }
}

/// A seed meta record always passes validation: its checksum is
/// computed over its own other fields.
pub proof fn lemma_seed_meta_valid(ps: u64, slot: u32)
    ensures
        spec_meta_valid(spec_seed_meta(ps, slot)),
        spec_seed_meta(ps, slot).pagesize == ps,
{
    let base = Meta {
        magic: MAGIC_VALUE,
        version: VERSION,
        pagesize: ps,
        meta_page: slot,
        root: BucketMeta { root_page: 3, next_int: 0 },
        freelist_page: 2,
        num_pages: 4,
        tx_id: 0,
        hash: 0,
    };
    assert(crate::meta::spec_meta_content_bytes(spec_seed_meta(ps, slot))
        == crate::meta::spec_meta_content_bytes(base));
}

/// Scenario law behind the page-size check: an image whose first meta
/// slot holds the seed record of one page size can never select a meta
/// under a different page size, so reopening such a database with the
/// wrong page size is always refused.
pub proof fn lemma_select_refuses_other_pagesize(img: Seq<u8>, ps1: u64, ps2: u64)
    requires
        ps1 != ps2,
        80 <= ps2 <= img.len(),
        80 <= ps1 <= img.len(),
        spec_parse_meta(spec_page(img, ps1 as int, 0)) == spec_seed_meta(ps1, 0),
    ensures
        spec_select_meta(
            spec_parse_meta(spec_page(img, ps2 as int, 0)),
            spec_parse_meta(spec_page(img, ps2 as int, 1)),
            ps2,
        ) is None,
{
    lemma_seed_meta_valid(ps1, 0);
    crate::page::lemma_parse_meta_prefix(
        spec_page(img, ps2 as int, 0),
        spec_page(img, ps1 as int, 0),
    );
}

/// Builds the seed meta record for one slot, checksum filled in.
fn seed_meta(ps: u64, slot: u32) -> (r: Meta)
    ensures
        r == spec_seed_meta(ps, slot),
        spec_meta_valid(r),
{
    let mut m = Meta {
        magic: MAGIC_VALUE,
        version: VERSION,
        pagesize: ps,
        meta_page: slot,
        root: BucketMeta { root_page: 3, next_int: 0 },
        freelist_page: 2,
        num_pages: 4,
        tx_id: 0,
        hash: 0,
    };
    let h = m.hash_self();
    m.hash = h;
    proof {
        assert(crate::meta::spec_meta_content_bytes(m) == crate::meta::spec_meta_content_bytes(
            spec_seed_meta(ps, slot),
        ));
    }
    m
}

/// Creates a brand-new database file under `path` and writes its four
/// seed pages: the two meta pages, the empty freelist, the empty root
/// leaf. The file is sized at `pagesize * num_pages` bytes, zero past
/// the seed pages, and every write reaches the store at once.
#[verifier::rlimit(100)]
#[verifier::spinoff_prover]
pub fn init_file<T: PathLike, O: OpenOption>(
    store: &mut FileStore,
    path: &T,
    pagesize: u64,
    num_pages: usize,
) -> (r: Result<File, Error>)
    requires
        1024 <= pagesize <= u32::MAX,
        num_pages >= 4,
        pagesize * num_pages <= usize::MAX,
        !store_files(*old(store)).dom().contains(path.path_spec()),
    ensures
        r is Ok ==> ({
            let img = r->Ok_0.file.data@;
            let ps = pagesize as int;
            &&& r->Ok_0.file.name@ == path.path_spec()
            &&& img.len() == pagesize * num_pages
            &&& spec_parse_meta(spec_page(img, ps, 0)) == spec_seed_meta(pagesize, 0)
            &&& spec_parse_meta(spec_page(img, ps, 1)) == spec_seed_meta(pagesize, 1)
            &&& spec_meta_valid(spec_seed_meta(pagesize, 0))
            &&& spec_meta_valid(spec_seed_meta(pagesize, 1))
            &&& crate::page::spec_freelist_len_needed(spec_page(img, ps, 2)) <= ps
            &&& crate::page::spec_freelist_ids(spec_page(img, ps, 2)) == Seq::<u64>::empty()
            &&& crate::page::spec_parse_header(spec_page(img, ps, 2)).id == 2
            &&& crate::page::spec_parse_header(spec_page(img, ps, 2)).page_type
                == crate::page::PAGE_TYPE_FREELIST
            &&& crate::page::spec_parse_header(spec_page(img, ps, 2)).overflow == 0
            &&& crate::page::spec_parse_header(spec_page(img, ps, 3)).id == 3
            &&& crate::page::spec_parse_header(spec_page(img, ps, 3)).page_type
                == crate::page::PAGE_TYPE_LEAF
            &&& crate::page::spec_parse_header(spec_page(img, ps, 3)).count == 0
            &&& forall|i: int| META_PAGE_BYTES <= i < ps ==> spec_page(img, ps, 0)[i] == 0u8
            &&& forall|i: int| META_PAGE_BYTES <= i < ps ==> spec_page(img, ps, 1)[i] == 0u8
            &&& forall|i: int|
                crate::page::PAGE_HEADER_SIZE <= i < ps ==> spec_page(img, ps, 2)[i] == 0u8
            &&& forall|i: int|
                crate::page::PAGE_HEADER_SIZE <= i < ps ==> spec_page(img, ps, 3)[i] == 0u8
            &&& forall|i: int| 4 * ps <= i < img.len() ==> img[i] == 0u8
            &&& store_files(*final(store)) == store_files(*old(store)).insert(
                path.path_spec(),
                img,
            )
        }),
        r is Err ==> store_files(*final(store)) == store_files(*old(store)),
{
    let mut opts = O::new().create(true).read(true).write(true);
    let mut file = match opts.open(store, path) {
        Ok(f) => f,
        Err(e) => {
            return Err(e);
        },
    };
    proof {
        assert(file.file.data@ =~= Seq::<u8>::empty());
    }
    proof {
        let psi = pagesize as int;
        let npi = num_pages as int;
        assert(4 * psi <= psi * npi) by (nonlinear_arith)
            requires
                psi >= 1,
                npi >= 4,
        ;
    }
    let total = (pagesize as usize) * num_pages;
    match file.file.allocate(store, total as u64) {
        Ok(_) => (),
        Err(e) => {
            return Err(e);
        },
    }
    let ps_us = pagesize as usize;
    let mut buf = crate::page::zero_vec(4 * ps_us);
    let m0 = seed_meta(pagesize, 0);
    let pg0 = crate::page::meta_page_bytes(&m0);
    crate::page::write_bytes(&mut buf, 0, pg0.as_slice());
    let m1 = seed_meta(pagesize, 1);
    let pg1 = crate::page::meta_page_bytes(&m1);
    crate::page::write_bytes(&mut buf, ps_us, pg1.as_slice());
    let empty_ids: Vec<u64> = Vec::new();
    let pg2 = crate::page::freelist_page_bytes(2, &empty_ids, ps_us);
    proof {
        assert(pg2@.len() == ps_us) by {
            assert(pg2@.len() >= 16);
            assert(pg2@.len() <= 16 + ps_us);
            assert(pg2@.len() as int % ps_us as int == 0);
            if pg2@.len() < ps_us {
                vstd::arithmetic::div_mod::lemma_small_mod(pg2@.len() as nat, ps_us as nat);
            }
            if pg2@.len() > ps_us {
                assert(pg2@.len() < 2 * ps_us);
                vstd::arithmetic::div_mod::lemma_fundamental_div_mod(
                    pg2@.len() as int,
                    ps_us as int,
                );
                vstd::arithmetic::div_mod::lemma_small_mod(
                    (pg2@.len() - ps_us) as nat,
                    ps_us as nat,
                );
                vstd::arithmetic::div_mod::lemma_mod_adds(
                    (pg2@.len() - ps_us) as int,
                    ps_us as int,
                    ps_us as int,
                );
            }
        }
    }
    crate::page::write_bytes(&mut buf, 2 * ps_us, pg2.as_slice());
    let hdr3 = PageHeader {
        id: 3,
        page_type: crate::page::PAGE_TYPE_LEAF,
        count: 0,
        overflow: 0,
    };
    let pg3 = crate::page::header_bytes(&hdr3);
    crate::page::write_bytes(&mut buf, 3 * ps_us, pg3.as_slice());
    match file.file.write(store, buf.as_slice()) {
        Ok(_) => (),
        Err(e) => {
            return Err(e);
        },
    }
    match file.file.flush() {
        Ok(_) => (),
        Err(e) => {
            return Err(e);
        },
    }
    match file.file.sync_all() {
        Ok(_) => (),
        Err(e) => {
            return Err(e);
        },
    }
    proof {
        let img = file.file.data@;
        let ps = pagesize as int;
        assert(img.len() == pagesize * num_pages);
        assert(store_files(*store) =~= store_files(*old(store)).insert(path.path_spec(), img));
        assert forall|i: int| 4 * ps <= i < img.len() implies img[i] == 0u8 by {}
        assert forall|i: int| 0 <= i < 4 * ps implies img[i] == buf@[i] by {}
        assert forall|i: int| 0 <= i < META_PAGE_BYTES implies spec_page(img, ps, 0)[i]
            == crate::page::spec_meta_page_bytes(m0)[i] by {
            assert(spec_page(img, ps, 0)[i] == img[i]);
            assert(buf@[i] == pg0@[i]);
        }
        crate::page::lemma_meta_page_roundtrip(m0);
        crate::page::lemma_parse_meta_prefix(
            spec_page(img, ps, 0),
            crate::page::spec_meta_page_bytes(m0),
        );
        assert forall|i: int| 0 <= i < META_PAGE_BYTES implies spec_page(img, ps, 1)[i]
            == crate::page::spec_meta_page_bytes(m1)[i] by {
            assert(spec_page(img, ps, 1)[i] == img[ps + i]);
            assert(buf@[ps + i] == pg1@[i]);
        }
        crate::page::lemma_meta_page_roundtrip(m1);
        crate::page::lemma_parse_meta_prefix(
            spec_page(img, ps, 1),
            crate::page::spec_meta_page_bytes(m1),
        );
        assert forall|i: int| 0 <= i < ps implies spec_page(img, ps, 2)[i] == pg2@[i] by {
            assert(spec_page(img, ps, 2)[i] == img[2 * ps + i]);
            assert(buf@[2 * ps + i] == pg2@[i]);
        }
        assert(spec_page(img, ps, 2) =~= pg2@);
        assert(crate::page::spec_freelist_ids(spec_page(img, ps, 2)) =~= Seq::<u64>::empty());
        assert forall|i: int| 0 <= i < crate::page::PAGE_HEADER_SIZE implies spec_page(
            img,
            ps,
            3,
        )[i] == pg3@[i] by {
            assert(spec_page(img, ps, 3)[i] == img[3 * ps + i]);
            assert(buf@[3 * ps + i] == pg3@[i]);
        }
        crate::page::lemma_parse_header_prefix(spec_page(img, ps, 3), pg3@);
        crate::page::lemma_header_roundtrip(hdr3);
        assert forall|i: int| META_PAGE_BYTES <= i < ps implies spec_page(img, ps, 0)[i]
            == 0u8 by {
            assert(spec_page(img, ps, 0)[i] == img[i]);
        }
        assert forall|i: int| META_PAGE_BYTES <= i < ps implies spec_page(img, ps, 1)[i]
            == 0u8 by {
            assert(spec_page(img, ps, 1)[i] == img[ps + i]);
        }
        assert forall|i: int|
            crate::page::PAGE_HEADER_SIZE <= i < ps implies spec_page(img, ps, 3)[i] == 0u8 by {
            assert(spec_page(img, ps, 3)[i] == img[3 * ps + i]);
        }
    }
    Ok(file)
}


/// A file image a database can open under this page size: the first two
/// pages readable and selecting a usable meta record, and the freelist
/// pages that record points at in range and well formed.
pub open spec fn spec_open_viable(img: Seq<u8>, pagesize: u64) -> bool {
    let ps = pagesize as int;
    let sel = spec_select_meta(
        spec_parse_meta(spec_page(img, ps, 0)),
        spec_parse_meta(spec_page(img, ps, 1)),
        pagesize,
    );
    &&& img.len() >= 2 * ps
    &&& sel is Some
    &&& ({
        let fp = sel->0.freelist_page as int;
        let ov = crate::page::spec_parse_header(spec_page(img, ps, fp)).overflow as int;
        let logical = img.subrange(fp * ps, (fp + 1 + ov) * ps);
        &&& (fp + 1 + ov) * ps <= img.len()
        &&& crate::page::spec_freelist_len_needed(logical) <= logical.len()
        &&& crate::page::sorted_strict(crate::page::spec_freelist_ids(logical))
    })
}

/// The freelist ids a viable image loads: the stored ids of the
/// freelist pages the selected meta record points at.
pub open spec fn spec_loaded_freelist(img: Seq<u8>, pagesize: u64) -> Seq<u64>
    recommends
        spec_open_viable(img, pagesize),
{
    let ps = pagesize as int;
    let sel = spec_select_meta(
        spec_parse_meta(spec_page(img, ps, 0)),
        spec_parse_meta(spec_page(img, ps, 1)),
        pagesize,
    );
    let fp = sel->0.freelist_page as int;
    let ov = crate::page::spec_parse_header(spec_page(img, ps, fp)).overflow as int;
    crate::page::spec_freelist_ids(img.subrange(fp * ps, (fp + 1 + ov) * ps))
}

/// The inner database state: the map generator, the current page index,
/// the freelist, the file, the open-reader registry and the settings.
pub struct DBInner<M: MemoryMap> {
    /// Produces a fresh page index after the file grows.
    pub generator: M,
    /// The page index the current snapshot reads through.
    pub data: M::Index,
    /// Reusable and pending page ids.
    pub freelist: Freelist,
    /// The locked database file.
    pub file: File,
    /// Transaction ids of the open read-only transactions.
    pub open_ro_txs: Vec<u64>,
    /// Whether every transaction re-checks the tree before finalizing.
    pub strict_mode: bool,
    /// Page size of this database.
    pub pagesize: u64,
}

impl<M: MemoryMap> DBInner<M> {
    /// The size bounds the page size always satisfies.
    pub open spec fn wf(self) -> bool {
        1024 <= self.pagesize <= u32::MAX
    }

    /// Decodes both meta pages and exposes one of them, as
    /// [`spec_select_meta`] says; a file whose first two pages cannot be
    /// read, or with no usable meta record, is reported corrupt.
    pub fn meta(&self) -> (r: Result<Meta, Error>)
        requires
            self.wf(),
        ensures
            ({
                let img = self.data.data_spec();
                let ps = self.pagesize as int;
                if img.len() < 2 * ps {
                    r is Err
                } else {
                    let m1 = spec_parse_meta(spec_page(img, ps, 0));
                    let m2 = spec_parse_meta(spec_page(img, ps, 1));
                    match spec_select_meta(m1, m2, self.pagesize) {
                        Option::Some(m) => r is Ok && r->Ok_0 == m,
                        Option::None => r is Err,
                    }
                }
            }),
    {
        let ps_us = self.pagesize as usize;
        let p0 = match self.data.index(0, ps_us) {
            Ok(p) => p,
            Err(e) => {
                return Err(e);
            },
        };
        let meta1 = parse_meta(p0.as_slice());
        if meta1.valid() && meta1.pagesize != self.pagesize {
            return Err(Error::InvalidDB("page size does not match the first meta page".to_owned()));
        }
        let p1 = match self.data.index(1, ps_us) {
            Ok(p) => p,
            Err(e) => {
                return Err(e);
            },
        };
        let meta2 = parse_meta(p1.as_slice());
        if meta2.valid() && meta2.pagesize != self.pagesize {
            return Err(
                Error::InvalidDB("page size does not match the second meta page".to_owned()),
            );
        }
        let v1 = meta1.valid();
        let v2 = meta2.valid();
        if v1 && v2 {
            Ok(
                if meta1.tx_id > meta2.tx_id {
                    meta1
                } else {
                    meta2
                },
            )
        } else if v1 {
            Ok(meta1)
        } else if v2 {
            Ok(meta2)
        } else {
            Err(Error::InvalidDB("no valid meta pages".to_owned()))
        }
    }

    /// Locks the file, maps it, selects the active meta record and
    /// loads the freelist pages that record points at. A file image
    /// that is not viable is always refused; on a viable image only the
    /// map collaborator can still fail.
    #[verifier::loop_isolation(false)]
    pub fn open(mmap: M, file: File, pagesize: u64, strict_mode: bool) -> (r: Result<
        DBInner<M>,
        Error,
    >)
        requires
            1024 <= pagesize <= u32::MAX,
        ensures
            !spec_open_viable(file.file.data@, pagesize) ==> r is Err,
            r is Ok ==> ({
                let db = r->Ok_0;
                let img = file.file.data@;
                let ps = pagesize as int;
                let sel = spec_select_meta(
                    spec_parse_meta(spec_page(img, ps, 0)),
                    spec_parse_meta(spec_page(img, ps, 1)),
                    pagesize,
                );
                &&& db.wf()
                &&& db.pagesize == pagesize
                &&& db.strict_mode == strict_mode
                &&& db.open_ro_txs@ == Seq::<u64>::empty()
                &&& db.file.file.data@ == img
                &&& db.file.file.name@ == file.file.name@
                &&& db.data.data_spec() == img
                &&& img.len() >= 2 * ps
                &&& sel is Some
                &&& ({
                    let m = sel->0;
                    let fp = m.freelist_page as int;
                    let ov = crate::page::spec_parse_header(spec_page(img, ps, fp)).overflow
                        as int;
                    let logical = img.subrange(fp * ps, (fp + 1 + ov) * ps);
                    &&& (fp + 1 + ov) * ps <= img.len()
                    &&& db.freelist.wf()
                    &&& db.freelist.pending@.len() == 0
                    &&& db.freelist.free@ == crate::page::spec_freelist_ids(logical)
                    &&& db.freelist.free@ == spec_loaded_freelist(img, pagesize)
                })
            }),
    {
        let mut file = file;
        match file.file.lock_exclusive() {
            Ok(_) => (),
            Err(e) => {
                return Err(e);
            },
        }
        let data = match mmap.do_map(&mut file) {
            Ok(d) => d,
            Err(e) => {
                return Err(e);
            },
        };
        let mut db = DBInner {
            generator: mmap,
            data,
            freelist: Freelist::new(),
            file,
            open_ro_txs: Vec::new(),
            strict_mode,
            pagesize,
        };
        let meta = match db.meta() {
            Ok(m) => m,
            Err(e) => {
                return Err(e);
            },
        };
        let ps_us = db.pagesize as usize;
        let fp = meta.freelist_page;
        let ghost img = db.data.data_spec();
        let ghost ps = pagesize as int;
        let mut logical = match db.data.index(fp, ps_us) {
            Ok(p) => p,
            Err(e) => {
                return Err(e);
            },
        };
        let hdr = crate::page::parse_header(logical.as_slice());
        let ov = hdr.overflow;
        let ghost base = fp as int * ps;
        proof {
            assert((fp as int + 1) * ps == fp as int * ps + ps) by (nonlinear_arith);
            assert(logical@.len() == ps);
            assert forall|j: int| 0 <= j < logical@.len() implies logical@[j] == img[base + j] by {
                assert(logical@[j] == img.subrange(fp as int * ps, (fp as int + 1) * ps)[j]);
            }
        }
        let mut k: u32 = 0;
        while k < ov
            invariant
                0 <= k <= ov,
                logical@.len() == ps + ps * k as int,
                base + logical@.len() <= img.len(),
                forall|j: int| 0 <= j < logical@.len() ==> logical@[j] == img[base + j],
            decreases ov - k,
        {
            let id128 = fp as u128 + 1 + k as u128;
            if id128 > u64::MAX as u128 {
                return Err(Error::InvalidDB("freelist continuation out of range".to_owned()));
            }
            let id = id128 as u64;
            let mut nxt = match db.data.index(id, ps_us) {
                Ok(p) => p,
                Err(e) => {
                    return Err(e);
                },
            };
            let ghost oldlen = logical@.len() as int;
            proof {
                assert(id as int * ps == base + oldlen) by (nonlinear_arith)
                    requires
                        id as int == fp as int + 1 + k as int,
                        base == fp as int * ps,
                        oldlen == ps + ps * k as int,
                ;
                assert((id as int + 1) * ps == id as int * ps + ps) by (nonlinear_arith);
            }
            logical.append(&mut nxt);
            k = k + 1;
            proof {
                assert(ps + ps * k as int == oldlen + ps) by (nonlinear_arith)
                    requires
                        oldlen == ps + ps * ((k - 1) as int),
                ;
                assert forall|j: int| 0 <= j < logical@.len() implies logical@[j] == img[base
                    + j] by {
                    if j >= oldlen {
                        assert(logical@[j] == img.subrange(
                            id as int * ps,
                            (id as int + 1) * ps,
                        )[j - oldlen]);
                    }
                }
            }
        }
        proof {
            assert(ps + ps * ov as int == (1 + ov as int) * ps) by (nonlinear_arith);
            assert(base + (1 + ov as int) * ps == (fp as int + 1 + ov as int) * ps)
                by (nonlinear_arith)
                requires
                    base == fp as int * ps,
            ;
            assert(logical@ =~= img.subrange(fp as int * ps, (fp as int + 1 + ov as int) * ps));
        }
        let ids = match crate::page::parse_freelist(logical.as_slice()) {
            Ok(v) => v,
            Err(e) => {
                return Err(e);
            },
        };
        proof {
            assert(crate::page::spec_parse_header(logical@) == crate::page::spec_parse_header(
                spec_page(img, ps, fp as int),
            )) by {
                crate::page::lemma_parse_header_prefix(logical@, spec_page(img, ps, fp as int));
            }
        }
        if ids.len() > 0 {
            db.freelist.init(ids);
        } else {
            proof {
                assert(db.freelist.free@ =~= ids@);
            }
        }
        Ok(db)
    }

    /// Grows the file to `new_size` bytes and replaces the page index
    /// with a fresh mapping of the grown file. The file grows and is
    /// published whatever happens; when only the fresh mapping fails,
    /// the old index stays in place, stale.
    pub fn resize(&mut self, store: &mut FileStore, new_size: u64) -> (r: Result<(), Error>)
        requires
            new_size <= usize::MAX as u64,
            old(self).wf(),
        ensures
            final(self).wf(),
            final(self).pagesize == old(self).pagesize,
            final(self).strict_mode == old(self).strict_mode,
            final(self).freelist == old(self).freelist,
            final(self).open_ro_txs == old(self).open_ro_txs,
            final(self).file.file.name@ == old(self).file.file.name@,
            ({
                let oldlen = old(self).file.file.data@.len() as int;
                &&& final(self).file.file.data@.len() == (if oldlen > new_size as int {
                    oldlen
                } else {
                    new_size as int
                })
                &&& forall|i: int|
                    0 <= i < final(self).file.file.data@.len() ==> final(self).file.file.data@[i]
                        == (if i < oldlen {
                        old(self).file.file.data@[i]
                    } else {
                        0u8
                    })
            }),
            store_files(*final(store)) == store_files(*old(store)).insert(
                old(self).file.file.name@,
                final(self).file.file.data@,
            ),
            r is Ok ==> final(self).data.data_spec() == final(self).file.file.data@,
            r is Err ==> final(self).data == old(self).data,
    {
        match self.file.file.allocate(store, new_size) {
            Ok(_) => (),
            Err(e) => {
                return Err(e);
            },
        }
        let data = match self.generator.do_map(&mut self.file) {
            Ok(d) => d,
            Err(e) => {
                return Err(e);
            },
        };
        self.data = data;
        Ok(())
    }
}

impl OpenOptions {
    /// Opens a database with these options: a missing file is created
    /// and seeded, an existing one is opened as it is, and the database
    /// state is built from what the file holds. Whatever the outcome,
    /// no file other than the one under `path` is touched.
    pub fn open<M: MemoryMap, O: OpenOption, T: PathLike>(
        self,
        store: &mut FileStore,
        mmap: M,
        path: &T,
    ) -> (r: Result<DB<M>, Error>)
        requires
            self.wf(),
            self.pagesize * self.num_pages <= usize::MAX,
        ensures
            r is Ok ==> ({
                let db = r->Ok_0;
                let img = db.inner.data.data_spec();
                let ps = self.pagesize as int;
                &&& db.inner.wf()
                &&& db.inner.pagesize == self.pagesize
                &&& db.inner.strict_mode == self.strict_mode
                &&& store_files(*final(store)).dom().contains(path.path_spec())
                &&& store_files(*final(store))[path.path_spec()] == img
                &&& spec_select_meta(
                    spec_parse_meta(spec_page(img, ps, 0)),
                    spec_parse_meta(spec_page(img, ps, 1)),
                    self.pagesize,
                ) is Some
                &&& spec_open_viable(img, self.pagesize)
                &&& db.inner.open_ro_txs@ == Seq::<u64>::empty()
                &&& db.inner.freelist.wf()
                &&& db.inner.freelist.pending@.len() == 0
                &&& db.inner.freelist.free@ == spec_loaded_freelist(img, self.pagesize)
                &&& (!store_files(*old(store)).dom().contains(path.path_spec()) ==> {
                    &&& img.len() == self.pagesize * self.num_pages
                    &&& spec_parse_meta(spec_page(img, ps, 0)) == spec_seed_meta(
                        self.pagesize,
                        0,
                    )
                    &&& spec_parse_meta(spec_page(img, ps, 1)) == spec_seed_meta(
                        self.pagesize,
                        1,
                    )
                })
                &&& (store_files(*old(store)).dom().contains(path.path_spec()) ==> img
                    == store_files(*old(store))[path.path_spec()])
            }),
            forall|n: Seq<char>|
                #[trigger] store_files(*final(store)).dom().contains(n) ==> store_files(
                    *old(store),
                ).dom().contains(n) || n == path.path_spec(),
            forall|n: Seq<char>|
                n != path.path_spec() && #[trigger] store_files(*old(store)).dom().contains(n)
                    ==> store_files(*final(store)).dom().contains(n) && store_files(
                    *final(store),
                )[n] == store_files(*old(store))[n],
    {
        let file = if !path.exists_in(store) {
            match init_file::<T, O>(store, path, self.pagesize, self.num_pages) {
                Ok(f) => f,
                Err(e) => {
                    return Err(e);
                },
            }
        } else {
            let mut opts = O::new().read(true).write(true);
            match opts.open(store, path) {
                Ok(f) => f,
                Err(e) => {
                    return Err(e);
                },
            }
        };
        let inner = match DBInner::open(mmap, file, self.pagesize, self.strict_mode) {
            Ok(d) => d,
            Err(e) => {
                return Err(e);
            },
        };
        Ok(DB { inner })
    }
}

/// A database handle: the inner state under the page size it was
/// opened with.
pub struct DB<M: MemoryMap> {
    /// The database state.
    pub inner: DBInner<M>,
}

impl<M: MemoryMap> DB<M> {
    /// Opens a database using the default options. Whatever the
    /// outcome, no file other than the one under `path` is touched, and
    /// an existing file is opened exactly as the store holds it — so an
    /// existing database whose meta records carry another page size can
    /// never open.
    pub fn open<O: OpenOption, T: PathLike>(store: &mut FileStore, mmap: M, path: &T) -> (r:
        Result<DB<M>, Error>)
        ensures
            r is Ok ==> ({
                let db = r->Ok_0;
                let img = db.inner.data.data_spec();
                let ps = DEFAULT_PAGE_SIZE as int;
                &&& db.inner.wf()
                &&& db.inner.pagesize == DEFAULT_PAGE_SIZE
                &&& !db.inner.strict_mode
                &&& store_files(*final(store)).dom().contains(path.path_spec())
                &&& store_files(*final(store))[path.path_spec()] == img
                &&& spec_select_meta(
                    spec_parse_meta(spec_page(img, ps, 0)),
                    spec_parse_meta(spec_page(img, ps, 1)),
                    DEFAULT_PAGE_SIZE,
                ) is Some
                &&& spec_open_viable(img, DEFAULT_PAGE_SIZE)
                &&& db.inner.open_ro_txs@ == Seq::<u64>::empty()
                &&& db.inner.freelist.wf()
                &&& db.inner.freelist.pending@.len() == 0
                &&& db.inner.freelist.free@ == spec_loaded_freelist(img, DEFAULT_PAGE_SIZE)
                &&& (!store_files(*old(store)).dom().contains(path.path_spec()) ==> {
                    &&& img.len() == DEFAULT_PAGE_SIZE * DEFAULT_NUM_PAGES
                    &&& spec_parse_meta(spec_page(img, ps, 0)) == spec_seed_meta(
                        DEFAULT_PAGE_SIZE,
                        0,
                    )
                    &&& spec_parse_meta(spec_page(img, ps, 1)) == spec_seed_meta(
                        DEFAULT_PAGE_SIZE,
                        1,
                    )
                })
                &&& (store_files(*old(store)).dom().contains(path.path_spec()) ==> img
                    == store_files(*old(store))[path.path_spec()])
            }),
            forall|n: Seq<char>|
                #[trigger] store_files(*final(store)).dom().contains(n) ==> store_files(
                    *old(store),
                ).dom().contains(n) || n == path.path_spec(),
            forall|n: Seq<char>|
                n != path.path_spec() && #[trigger] store_files(*old(store)).dom().contains(n)
                    ==> store_files(*final(store)).dom().contains(n) && store_files(
                    *final(store),
                )[n] == store_files(*old(store))[n],
    {
        OpenOptions::new().open::<M, O, T>(store, mmap, path)
    }

    /// The page size this database was opened with.
    pub fn pagesize(&self) -> (r: u64)
        ensures
            r == self.inner.pagesize,
    {
        self.inner.pagesize
    }
}



} // verus!

//! The freelist: page ids free for reuse, plus pages released by a
//! committed transaction that must stay unused until every reader that
//! could still see them has closed.

use vstd::prelude::*;
use crate::page::sorted_strict;

verus! {

/// Pages released by one committing transaction, keyed by its id.
pub struct PendingBatch {
    /// Transaction whose commit released these pages.
    pub tx_id: u64,
    /// The released page ids, strictly ascending.
    pub pages: Vec<u64>,
}

/// Ordered set of reusable page ids plus the pending-release batches.
pub struct Freelist {
    /// Strictly ascending ids free for immediate reuse.
    pub free: Vec<u64>,
    /// Batches of released pages, strictly ascending by transaction id.
    pub pending: Vec<PendingBatch>,
}

impl Freelist {
    /// Ids free for immediate reuse.
    pub open spec fn free_set(self) -> Set<u64> {
        self.free@.to_set()
    }

    /// Ids waiting in some pending batch.
    pub open spec fn pending_set(self) -> Set<u64> {
        Set::new(
            |v: u64|
                exists|i: int|
                    0 <= i < self.pending@.len() && #[trigger] self.pending@[i].pages@.contains(v),
        )
    }

    /// Ids pending under a transaction id below `t`.
    pub open spec fn pending_before(self, t: u64) -> Set<u64> {
        Set::new(
            |v: u64|
                exists|i: int|
                    0 <= i < self.pending@.len() && self.pending@[i].tx_id < t
                        && #[trigger] self.pending@[i].pages@.contains(v),
        )
    }

    /// Every id the freelist accounts for, free or pending.
    pub open spec fn all_pages(self) -> Set<u64> {
        self.free_set().union(self.pending_set())
    }

    /// Well-formed: both layers strictly ascending, batches keyed by
    /// strictly ascending transaction ids, and no id counted twice.
    pub open spec fn wf(self) -> bool {
        &&& sorted_strict(self.free@)
        &&& forall|i: int|
            0 <= i < self.pending@.len() ==> sorted_strict(#[trigger] self.pending@[i].pages@)
        &&& forall|i: int, j: int|
            0 <= i < self.pending@.len() && 0 <= j < self.pending@[i].pages@.len()
                ==> !self.free@.contains(#[trigger] self.pending@[i].pages@[j])
        &&& forall|i: int, j: int|
            0 <= i < j < self.pending@.len() ==> #[trigger] self.pending@[i].tx_id
                < #[trigger] self.pending@[j].tx_id
        &&& forall|i: int, j: int|
            0 <= i < self.pending@.len() && 0 <= j < self.pending@.len() && i != j
                ==> (#[trigger] self.pending@[i].pages@).disjoint(
                #[trigger] self.pending@[j].pages@,
            )
    }

    /// A fresh freelist: nothing free, nothing pending.
    pub fn new() -> (r: Freelist)
        ensures
            r.wf(),
            r.free_set() == Set::<u64>::empty(),
            r.pending_set() == Set::<u64>::empty(),
            r.free@.len() == 0,
            r.pending@.len() == 0,
    {
        let r = Freelist { free: Vec::new(), pending: Vec::new() };
        proof {
            assert(r.free_set() =~= Set::<u64>::empty());
            assert(r.pending_set() =~= Set::<u64>::empty());
        }
        r
    }

    /// Seeds the free layer from the ids loaded off the freelist page.
    pub fn init(&mut self, pages: Vec<u64>)
        requires
            sorted_strict(pages@),
            old(self).pending@.len() == 0,
        ensures
            final(self).wf(),
            final(self).free@ == pages@,
            final(self).free_set() == pages@.to_set(),
            final(self).pending@.len() == 0,
    {
        self.free = pages;
    }

    /// The ids to serialize on commit: the free layer, ascending.
    pub fn pages(&self) -> (r: Vec<u64>)
        ensures
            r@ == self.free@,
    {
        vstd::slice::slice_to_vec(self.free.as_slice())
    }

    /// Records pages released by the transaction `tx_id`. They become
    /// reusable only once [`Self::release`] sees every older reader gone.
    pub fn free(&mut self, tx_id: u64, pages: Vec<u64>)
        requires
            old(self).wf(),
            sorted_strict(pages@),
            forall|j: int| 0 <= j < pages@.len() ==> !old(self).free_set().contains(pages@[j]),
            forall|j: int| 0 <= j < pages@.len() ==> !old(self).pending_set().contains(pages@[j]),
            forall|i: int| 0 <= i < old(self).pending@.len() ==> old(self).pending@[i].tx_id < tx_id,
        ensures
            final(self).wf(),
            final(self).free@ == old(self).free@,
            final(self).pending@ == old(self).pending@.push((PendingBatch { tx_id, pages })),
            final(self).pending_set() == old(self).pending_set().union(pages@.to_set()),
    {
        let ghost ps = pages@;
        self.pending.push(PendingBatch { tx_id, pages });
        proof {
            let n = old(self).pending@.len() as int;
            assert(self.pending@.len() == n + 1);
            assert(self.pending@[n].pages@ == ps);
            assert(self.pending@[n].tx_id == tx_id);
            assert forall|i: int| 0 <= i < n implies self.pending@[i] == old(self).pending@[i] by {}
            assert forall|i: int, j: int|
                0 <= i < self.pending@.len() && 0 <= j < self.pending@.len() && i != j implies (
            #[trigger] self.pending@[i].pages@).disjoint(#[trigger] self.pending@[j].pages@) by {
                if i == n || j == n {
                    let (a, b) = if i == n { (j, i) } else { (i, j) };
                    assert(0 <= a < n);
                    assert forall|x: int, y: int|
                        0 <= x < self.pending@[a].pages@.len() && 0 <= y < ps.len() implies
                            self.pending@[a].pages@[x] != ps[y] by {
                        if self.pending@[a].pages@[x] == ps[y] {
                            assert(old(self).pending@[a].pages@.contains(ps[y]));
                            assert(old(self).pending_set().contains(ps[y]));
                        }
                    }
                    assert(self.pending@[a].pages@.disjoint(ps));
                    assert(ps.disjoint(self.pending@[a].pages@));
                }
            }
            assert(self.pending_set() =~= old(self).pending_set().union(ps.to_set())) by {
                let n = old(self).pending@.len() as int;
                assert forall|v: u64| self.pending_set().contains(v) implies old(
                    self,
                ).pending_set().contains(v) || ps.to_set().contains(v) by {
                    let i = choose|i: int|
                        0 <= i < self.pending@.len() && #[trigger] self.pending@[i].pages@.contains(
                            v,
                        );
                    if i < n {
                        assert(old(self).pending@[i].pages@.contains(v));
                    }
                }
                assert forall|v: u64|
                    old(self).pending_set().contains(v) || ps.to_set().contains(
                        v,
                    ) implies self.pending_set().contains(v) by {
                    if old(self).pending_set().contains(v) {
                        let i = choose|i: int|
                            0 <= i < old(self).pending@.len()
                                && #[trigger] old(self).pending@[i].pages@.contains(v);
                        assert(self.pending@[i].pages@.contains(v));
                    } else {
                        assert(self.pending@[n].pages@.contains(v));
                    }
                }
            }
        }
    }

    /// First-fit allocation of `n` consecutive page ids out of the free
    /// layer. `None` means no such run exists anywhere in it, and the
    /// caller must grow the file instead.
    #[verifier::loop_isolation(false)]
    pub fn allocate(&mut self, n: usize) -> (r: Option<u64>)
        requires
            old(self).wf(),
            n >= 1,
        ensures
            final(self).wf(),
            final(self).pending@ == old(self).pending@,
            match r {
                Some(s) => {
                    &&& has_run(old(self).free_set(), s, n as int)
                    &&& final(self).free_set() == old(self).free_set().difference(
                        run_set(s, n as int),
                    )
                    &&& final(self).free@.len() == old(self).free@.len() - n
                },
                None => {
                    &&& final(self).free@ == old(self).free@
                    &&& forall|a: u64| !has_run(old(self).free_set(), a, n as int)
                },
            },
    {
        let len = self.free.len();
        let ghost fr = self.free@;
        if len < n {
            proof {
                assert forall|a: u64| !has_run(fr.to_set(), a, n as int) by {
                    lemma_no_window_no_run(fr, n as int, a);
                }
            }
            return None;
        }
        let mut j: usize = 0;
        loop
            invariant
                n >= 1,
                len == fr.len(),
                n <= len,
                0 <= j <= len - n + 1,
                self == old(self),
                forall|jj: int|
                    0 <= jj < j ==> #[trigger] (fr[jj + n - 1] as int) != fr[jj] as int + (n - 1),
            decreases len - j,
        {
            if j > len - n {
                proof {
                    assert forall|a: u64| !has_run(fr.to_set(), a, n as int) by {
                        lemma_no_window_no_run(fr, n as int, a);
                    }
                }
                return None;
            }
            let lo = self.free[j];
            let hi = self.free[j + n - 1];
            proof {
                lemma_sorted_gap(fr, j as int, j + n - 1);
            }
            if hi - lo == (n - 1) as u64 {
                proof {
                    assert forall|k: int| 0 <= k < n implies #[trigger] (fr[j + k] as int) == lo
                        as int + k by {
                        lemma_sorted_gap(fr, j as int, j + k);
                        lemma_sorted_gap(fr, j + k, j + n - 1);
                    }
                    assert(has_run(fr.to_set(), lo, n as int)) by {
                        assert forall|v: u64|
                            lo <= v && (v as int) < lo as int + n implies #[trigger] fr.to_set().contains(v) by {
                            let k = v as int - lo as int;
                            assert(fr[j + k] == v);
                            assert(fr.contains(v));
                        }
                    }
                }
                let mut nf: Vec<u64> = Vec::new();
                let mut t: usize = 0;
                while t < j
                    invariant
                        0 <= t <= j,
                        nf@ =~= fr.subrange(0, t as int),
                    decreases j - t,
                {
                    nf.push(self.free[t]);
                    t = t + 1;
                }
                let mut t2: usize = j + n;
                while t2 < len
                    invariant
                        j + n <= t2 <= len,
                        nf@ =~= fr.subrange(0, j as int) + fr.subrange(j + n, t2 as int),
                    decreases len - t2,
                {
                    nf.push(self.free[t2]);
                    t2 = t2 + 1;
                }
                self.free = nf;
                proof {
                    let nw = self.free@;
                    assert(nw =~= fr.subrange(0, j as int) + fr.subrange(j + n, len as int));
                    assert forall|a: int, b: int| 0 <= a < b < nw.len() implies nw[a] < nw[b] by {
                        let a0 = if a < j { a } else { a + n };
                        let b0 = if b < j { b } else { b + n };
                        assert(nw[a] == fr[a0]);
                        assert(nw[b] == fr[b0]);
                        assert(fr[a0] < fr[b0]);
                    }
                    assert(self.free_set() =~= fr.to_set().difference(run_set(lo, n as int))) by {
                        assert forall|v: u64| nw.contains(v) implies fr.to_set().contains(v)
                            && !run_set(lo, n as int).contains(v) by {
                            let idx = choose|idx: int| 0 <= idx < nw.len() && nw[idx] == v;
                            let idx0 = if idx < j { idx } else { idx + n };
                            assert(fr[idx0] == v);
                            assert(fr.contains(v));
                            if idx < j {
                                assert(fr[idx0] < fr[j as int]);
                            } else {
                                assert(fr[j + n - 1] < fr[idx0]);
                            }
                        }
                        assert forall|v: u64|
                            fr.to_set().contains(v) && !run_set(lo, n as int).contains(
                                v,
                            ) implies nw.contains(v) by {
                            let idx = choose|idx: int| 0 <= idx < fr.len() && fr[idx] == v;
                            if idx < j {
                                assert(nw[idx] == v);
                            } else if idx < j + n {
                                assert(fr[idx] as int == lo as int + (idx - j));
                                assert(run_set(lo, n as int).contains(v));
                            } else {
                                assert(nw[idx - n] == v);
                            }
                        }
                    }
                    assert forall|i: int, jj: int|
                        0 <= i < self.pending@.len() && 0 <= jj < self.pending@[i].pages@.len()
                            implies !self.free@.contains(
                        #[trigger] self.pending@[i].pages@[jj]) by {
                        let v = self.pending@[i].pages@[jj];
                        if self.free@.contains(v) {
                            assert(self.free_set().contains(v));
                            assert(fr.to_set().contains(v));
                            assert(fr.contains(v));
                            assert(old(self).free@.contains(v));
                        }
                    }
                }
                return Some(lo);
            }
            j = j + 1;
        }
    }

    /// Moves every batch released by a transaction older than `min_tx`
    /// into the free layer: no open reader can still see those pages.
    #[verifier::loop_isolation(false)]
    pub fn release(&mut self, min_tx: u64)
        requires
            old(self).wf(),
        ensures
            final(self).wf(),
            final(self).free_set() == old(self).free_set().union(
                old(self).pending_before(min_tx),
            ),
            final(self).pending_set() == old(self).pending_set().difference(
                old(self).pending_before(min_tx),
            ),
            final(self).all_pages() == old(self).all_pages(),
            forall|i: int|
                0 <= i < final(self).pending@.len() ==> final(self).pending@[i].tx_id >= min_tx,
    {
        let ghost orig = *old(self);
        let olen_e = self.pending.len();
        let ghost olen = olen_e as int;
        let mut d: usize = 0;
        loop
            invariant
                self.wf(),
                0 <= d <= olen,
                self.pending@ =~= orig.pending@.subrange(d as int, olen),
                forall|i: int| 0 <= i < d ==> orig.pending@[i].tx_id < min_tx,
                self.free_set() == orig.free_set().union(prefix_pages(orig.pending@, d as int)),
            decreases olen - d,
        {
            if self.pending.len() == 0 {
                break;
            }
            proof {
                assert(self.pending@[0] == orig.pending@[d as int]);
            }
            if self.pending[0].tx_id >= min_tx {
                break;
            }
            let b = self.pending.remove(0);
            proof {
                assert(b == orig.pending@[d as int]);
                assert(self.pending@ =~= orig.pending@.subrange(d + 1, olen));
            }
            let ghost pend_now = self.pending@;
            let ghost pre_free = self.free@;
            let mut k: usize = 0;
            while k < b.pages.len()
                invariant
                    0 <= k <= b.pages@.len(),
                    self.pending@ == pend_now,
                    sorted_strict(self.free@),
                    self.free@.to_set() =~= pre_free.to_set().union(
                        b.pages@.subrange(0, k as int).to_set(),
                    ),
                decreases b.pages@.len() - k,
            {
                let x = b.pages[k];
                proof {
                    assert(orig.pending@[d as int].pages@[k as int] == x);
                    assert(!orig.free@.contains(x));
                    assert(!self.free@.contains(x)) by {
                        if self.free@.contains(x) {
                            assert(self.free@.to_set().contains(x));
                            if pre_free.to_set().contains(x) {
                                assert(pre_free.contains(x));
                                if orig.free@.to_set().contains(x) {
                                    assert(orig.free@.contains(x));
                                } else {
                                    assert(prefix_pages(orig.pending@, d as int).contains(x));
                                    let i = choose|i: int|
                                        0 <= i < d && i < orig.pending@.len()
                                            && #[trigger] orig.pending@[i].pages@.contains(x);
                                    assert(orig.pending@[i].pages@.disjoint(
                                        orig.pending@[d as int].pages@,
                                    ));
                                    let xi = choose|xi: int|
                                        0 <= xi < orig.pending@[i].pages@.len()
                                            && orig.pending@[i].pages@[xi] == x;
                                    assert(false);
                                }
                            } else {
                                let bk = b.pages@.subrange(0, k as int);
                                assert(bk.to_set().contains(x));
                                assert(bk.contains(x));
                                let xi = choose|xi: int| 0 <= xi < bk.len() && bk[xi] == x;
                                assert(b.pages@[xi] == b.pages@[k as int]);
                                assert(xi < k);
                                assert(b.pages@[xi] < b.pages@[k as int]);
                                assert(false);
                            }
                        }
                    }
                }
                insert_sorted(&mut self.free, x);
                k = k + 1;
                proof {
                    assert(b.pages@.subrange(0, k as int).drop_last() =~= b.pages@.subrange(
                        0,
                        k - 1,
                    ));
                    assert(b.pages@.subrange(0, k as int).to_set() =~= b.pages@.subrange(
                        0,
                        k - 1,
                    ).to_set().insert(x)) by {
                        let cur = b.pages@.subrange(0, k as int);
                        let prev = b.pages@.subrange(0, k - 1);
                        assert forall|v: u64| cur.contains(v) implies prev.to_set().insert(
                            x,
                        ).contains(v) by {
                            let xi = choose|xi: int| 0 <= xi < cur.len() && cur[xi] == v;
                            if xi < k - 1 {
                                assert(prev[xi] == v);
                                assert(prev.contains(v));
                            }
                        }
                        assert forall|v: u64| prev.to_set().insert(x).contains(v) implies
                            cur.contains(v) by {
                            if prev.contains(v) {
                                let xi = choose|xi: int| 0 <= xi < prev.len() && prev[xi] == v;
                                assert(cur[xi] == v);
                            } else {
                                assert(cur[k - 1] == x);
                            }
                        }
                    }
                    assert(self.free@.to_set() =~= pre_free.to_set().union(
                        b.pages@.subrange(0, k as int).to_set(),
                    ));
                }
            }
            d = d + 1;
            proof {
                assert(b.pages@.subrange(0, b.pages@.len() as int) =~= b.pages@);
                assert(prefix_pages(orig.pending@, d as int) =~= prefix_pages(
                    orig.pending@,
                    d - 1,
                ).union(orig.pending@[d - 1].pages@.to_set())) by {
                    assert forall|v: u64|
                        prefix_pages(orig.pending@, d as int).contains(v) implies prefix_pages(
                        orig.pending@,
                        d - 1,
                    ).union(orig.pending@[d - 1].pages@.to_set()).contains(v) by {
                        let i = choose|i: int|
                            0 <= i < d && i < orig.pending@.len()
                                && #[trigger] orig.pending@[i].pages@.contains(v);
                        if i < d - 1 {
                            assert(prefix_pages(orig.pending@, d - 1).contains(v));
                        }
                    }
                }
                assert(self.free_set() =~= orig.free_set().union(
                    prefix_pages(orig.pending@, d as int),
                ));
                assert(self.wf()) by {
                    assert forall|i: int, j: int|
                        0 <= i < self.pending@.len() && 0 <= j < self.pending@[i].pages@.len()
                            implies !self.free@.contains(
                        #[trigger] self.pending@[i].pages@[j]) by {
                        let v = self.pending@[i].pages@[j];
                        assert(self.pending@[i] == orig.pending@[d + i]);
                        assert(orig.pending@[d + i].pages@.contains(v));
                        if self.free@.contains(v) {
                            assert(self.free@.to_set().contains(v));
                            if orig.free_set().contains(v) {
                                assert(orig.free@.contains(v));
                            } else {
                                assert(prefix_pages(orig.pending@, d as int).contains(v));
                                let i2 = choose|i2: int|
                                    0 <= i2 < d && i2 < orig.pending@.len()
                                        && #[trigger] orig.pending@[i2].pages@.contains(v);
                                assert(orig.pending@[i2].pages@.disjoint(
                                    orig.pending@[d + i].pages@,
                                ));
                                let a1 = choose|a1: int|
                                    0 <= a1 < orig.pending@[i2].pages@.len() && (
                                    #[trigger] orig.pending@[i2].pages@[a1]) == v;
                                let a2 = choose|a2: int|
                                    0 <= a2 < orig.pending@[d + i].pages@.len() && (
                                    #[trigger] orig.pending@[d + i].pages@[a2]) == v;
                                assert(false);
                            }
                        }
                    }
                }
            }
        }
        proof {
            assert(forall|i: int| d <= i < olen ==> orig.pending@[i].tx_id >= min_tx) by {
                if d < olen {
                    assert(self.pending@[0] == orig.pending@[d as int]);
                    assert(orig.pending@[d as int].tx_id >= min_tx);
                    assert forall|i: int| d <= i < olen implies orig.pending@[i].tx_id
                        >= min_tx by {
                        if i > d {
                            assert(orig.pending@[d as int].tx_id < orig.pending@[i].tx_id);
                        }
                    }
                }
            }
            assert(orig.pending_before(min_tx) =~= prefix_pages(orig.pending@, d as int)) by {
                assert forall|v: u64| orig.pending_before(min_tx).contains(v) implies prefix_pages(
                    orig.pending@,
                    d as int,
                ).contains(v) by {
                    let i = choose|i: int|
                        0 <= i < orig.pending@.len() && orig.pending@[i].tx_id < min_tx
                            && #[trigger] orig.pending@[i].pages@.contains(v);
                    assert(i < d);
                }
                assert forall|v: u64|
                    prefix_pages(orig.pending@, d as int).contains(v) implies
                    orig.pending_before(min_tx).contains(v) by {
                    let i = choose|i: int|
                        0 <= i < d && i < orig.pending@.len()
                            && #[trigger] orig.pending@[i].pages@.contains(v);
                }
            }
            assert(self.pending_set() =~= orig.pending_set().difference(
                orig.pending_before(min_tx),
            )) by {
                assert forall|v: u64| self.pending_set().contains(v) implies
                    orig.pending_set().contains(v) && !orig.pending_before(min_tx).contains(
                    v,
                ) by {
                    let i = choose|i: int|
                        0 <= i < self.pending@.len() && #[trigger] self.pending@[i].pages@.contains(
                            v,
                        );
                    assert(self.pending@[i] == orig.pending@[d + i]);
                    assert(orig.pending@[d + i].pages@.contains(v));
                    if orig.pending_before(min_tx).contains(v) {
                        let i2 = choose|i2: int|
                            0 <= i2 < orig.pending@.len() && orig.pending@[i2].tx_id < min_tx
                                && #[trigger] orig.pending@[i2].pages@.contains(v);
                        assert(i2 < d);
                        assert(orig.pending@[i2].pages@.disjoint(orig.pending@[d + i].pages@));
                        let a1 = choose|a1: int|
                            0 <= a1 < orig.pending@[i2].pages@.len() && (
                            #[trigger] orig.pending@[i2].pages@[a1]) == v;
                        let a2 = choose|a2: int|
                            0 <= a2 < orig.pending@[d + i].pages@.len() && (
                            #[trigger] orig.pending@[d + i].pages@[a2]) == v;
                        assert(false);
                    }
                }
                assert forall|v: u64|
                    orig.pending_set().contains(v) && !orig.pending_before(min_tx).contains(
                        v,
                    ) implies self.pending_set().contains(v) by {
                    let i = choose|i: int|
                        0 <= i < orig.pending@.len() && #[trigger] orig.pending@[i].pages@.contains(
                            v,
                        );
                    if i < d {
                        assert(orig.pending@[i].tx_id < min_tx);
                        assert(orig.pending_before(min_tx).contains(v));
                    } else {
                        assert(self.pending@[i - d] == orig.pending@[i]);
                        assert(self.pending@[i - d].pages@.contains(v));
                    }
                }
            }
            assert(self.all_pages() =~= orig.all_pages()) by {
                assert forall|v: u64| self.all_pages().contains(v) implies
                    orig.all_pages().contains(v) by {}
                assert forall|v: u64| orig.all_pages().contains(v) implies
                    self.all_pages().contains(v) by {}
            }
        }
    }
}



/// Accounting law: a well-formed freelist never counts a page as both
/// free and pending; its two layers are disjoint, so `all_pages` splits
/// exactly into the free layer and the pending layer.
pub proof fn lemma_freelist_layers_disjoint(fl: Freelist)
    requires
        fl.wf(),
    ensures
        fl.free_set().disjoint(fl.pending_set()),
{
    assert forall|v: u64|
        !(fl.free_set().contains(v) && fl.pending_set().contains(v)) by {
        if fl.free_set().contains(v) && fl.pending_set().contains(v) {
            assert(fl.free@.contains(v));
            let i = choose|i: int|
                0 <= i < fl.pending@.len() && #[trigger] fl.pending@[i].pages@.contains(v);
            let j = choose|j: int|
                0 <= j < fl.pending@[i].pages@.len() && fl.pending@[i].pages@[j] == v;
            assert(!fl.free@.contains(fl.pending@[i].pages@[j]));
        }
    }
}


/// No page reuse under readers, at the freelist's level: any page that
/// an allocation can hand out lies in the free layer, so a page still
/// pending — freed by a commit some open reader may predate — is never
/// handed out until `release` has moved it.
pub proof fn lemma_pending_page_not_allocatable(fl: Freelist, a: u64, n: int, p: u64)
    requires
        fl.wf(),
        has_run(fl.free_set(), a, n),
        run_set(a, n).contains(p),
    ensures
        fl.free_set().contains(p),
        !fl.pending_set().contains(p),
{
    assert(a <= p && (p as int) < a as int + n);
    assert(fl.free_set().contains(p));
    lemma_freelist_layers_disjoint(fl);
}

/// Pages of the first `d` pending batches.
pub open spec fn prefix_pages(p: Seq<PendingBatch>, d: int) -> Set<u64> {
    Set::new(
        |v: u64|
            exists|i: int| 0 <= i < d && i < p.len() && #[trigger] p[i].pages@.contains(v),
    )
}

/// Inserts a fresh id into a strictly ascending vector, keeping it
/// strictly ascending.
fn insert_sorted(v: &mut Vec<u64>, x: u64)
    requires
        sorted_strict(old(v)@),
        !old(v)@.contains(x),
    ensures
        sorted_strict(final(v)@),
        final(v)@.to_set() == old(v)@.to_set().insert(x),
        final(v)@.len() == old(v)@.len() + 1,
{
    let len = v.len();
    let mut i: usize = 0;
    while i < len && *vstd::std_specs::vec::vec_index(v, i) < x
        invariant
            0 <= i <= len,
            len == v@.len(),
            v@ == old(v)@,
            forall|k: int| 0 <= k < i ==> v@[k] < x,
        decreases len - i,
    {
        i = i + 1;
    }
    proof {
        if i < len {
            assert(v@[i as int] != x) by {
                if v@[i as int] == x {
                    assert(v@.contains(x));
                }
            }
            assert(v@[i as int] > x);
        }
    }
    v.insert(i, x);
    proof {
        let nw = v@;
        let ov = old(v)@;
        assert forall|a: int, b: int| 0 <= a < b < nw.len() implies nw[a] < nw[b] by {
            let a0 = if a < i { a } else { a - 1 };
            let b0 = if b < i { b } else { b - 1 };
            if a == i {
                assert(nw[a] == x);
                assert(nw[b] == ov[b0]);
                assert(ov[i as int] <= ov[b0]) by {
                    if i < b0 {
                        assert(ov[i as int] < ov[b0]);
                    }
                }
            } else if b == i {
                assert(nw[b] == x);
                assert(nw[a] == ov[a0]);
            } else {
                assert(nw[a] == ov[a0]);
                assert(nw[b] == ov[b0]);
            }
        }
        assert(nw.to_set() =~= ov.to_set().insert(x)) by {
            assert forall|w: u64| nw.contains(w) implies ov.to_set().insert(x).contains(w) by {
                let xi = choose|xi: int| 0 <= xi < nw.len() && nw[xi] == w;
                if xi != i {
                    let x0 = if xi < i { xi } else { xi - 1 };
                    assert(ov[x0] == w);
                    assert(ov.contains(w));
                }
            }
            assert forall|w: u64| ov.to_set().insert(x).contains(w) implies nw.contains(w) by {
                if ov.contains(w) {
                    let xi = choose|xi: int| 0 <= xi < ov.len() && ov[xi] == w;
                    let x1 = if xi < i { xi } else { xi + 1 };
                    assert(nw[x1] == w);
                } else {
                    assert(nw[i as int] == x);
                }
            }
        }
    }
}

/// All of `a`, `a + 1`, ..., `a + n - 1` are present in the set.
pub open spec fn has_run(st: Set<u64>, a: u64, n: int) -> bool {
    &&& a as int + n - 1 <= u64::MAX
    &&& forall|v: u64| a <= v && (v as int) < a as int + n ==> #[trigger] st.contains(v)
}

/// The ids `a`, `a + 1`, ..., `a + n - 1`.
pub open spec fn run_set(a: u64, n: int) -> Set<u64> {
    Set::new(|v: u64| a <= v && (v as int) < a as int + n)
}

/// In a strictly ascending sequence, values grow at least as fast as
/// their indices.
proof fn lemma_sorted_gap(s: Seq<u64>, a: int, b: int)
    requires
        sorted_strict(s),
        0 <= a <= b < s.len(),
    ensures
        s[b] as int - s[a] as int >= b - a,
    decreases b - a,
{
    if a < b {
        lemma_sorted_gap(s, a, b - 1);
        assert(s[b - 1] < s[b]);
    }
}

/// If a strictly ascending sequence holds a run starting at `a`, with
/// `a` at index `j`, then the run occupies indices `j` through `j + k`.
proof fn lemma_run_prefix(s: Seq<u64>, n: int, a: u64, j: int, k: int)
    requires
        sorted_strict(s),
        1 <= n,
        0 <= k < n,
        0 <= j < s.len(),
        s[j] == a,
        has_run(s.to_set(), a, n),
    ensures
        j + k < s.len(),
        s[j + k] as int == a as int + k,
    decreases k,
{
    if k > 0 {
        lemma_run_prefix(s, n, a, j, k - 1);
        let w = ((a as int + k) as u64);
        assert(a <= w && (w as int) < a as int + n);
        assert(s.to_set().contains(w));
        assert(s.contains(w));
        let p = choose|p: int| 0 <= p < s.len() && s[p] == w;
        assert(s[p] as int == a as int + k);
        if p <= j + k - 1 {
            if p < j + k - 1 {
                assert(s[p] < s[j + k - 1]);
            }
            assert(false);
        }
        assert(j + k <= p < s.len());
        if j + k < p {
            assert(s[j + k] < s[p]);
        }
        assert(s[j + k - 1] < s[j + k]);
    }
}

/// A strictly ascending sequence with no length-`n` window of
/// consecutive values holds no run of `n` consecutive ids at all.
proof fn lemma_no_window_no_run(s: Seq<u64>, n: int, a: u64)
    requires
        sorted_strict(s),
        n >= 1,
        forall|j: int|
            0 <= j && j + n <= s.len() ==> #[trigger] (s[j + n - 1] as int) != s[j] as int + (n
                - 1),
    ensures
        !has_run(s.to_set(), a, n),
{
    if has_run(s.to_set(), a, n) {
        assert(a <= a && (a as int) < a as int + n);
        assert(s.to_set().contains(a));
        assert(s.contains(a));
        let j = choose|j: int| 0 <= j < s.len() && s[j] == a;
        assert(s[j] == a);
        lemma_run_prefix(s, n, a, j, n - 1);
        assert(j + n <= s.len());
        assert(s[j + n - 1] as int == s[j] as int + (n - 1));
        assert(false);
    }
}

} // verus!

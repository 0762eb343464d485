//! Materialized-page maintenance: splitting an oversize leaf into
//! siblings whose serialized bodies fit a page.

use vstd::prelude::*;
use crate::page::{
    spec_leaf_kv_size, lemma_leaf_kv_size_first, lemma_leaf_kv_size_nonneg, LeafEntry,
};

verus! {

/// The serialized body size of a leaf holding these entries: the page
/// header, the entry table, the keys and the values.
pub open spec fn spec_leaf_body_size(s: Seq<LeafEntry>) -> int {
    16 + 24 * s.len() + spec_leaf_kv_size(s)
}

/// The entry sequences a split's sibling vectors hold.
pub open spec fn chunk_views(r: Seq<Vec<LeafEntry>>) -> Seq<Seq<LeafEntry>> {
    r.map_values(|c: Vec<LeafEntry>| c@)
}

/// One more entry adds its table record, key and value to a leaf body.
proof fn lemma_leaf_body_size_push(s: Seq<LeafEntry>, e: LeafEntry)
    ensures
        spec_leaf_body_size(s.push(e)) == spec_leaf_body_size(s) + 24 + e.key@.len()
            + e.value@.len(),
{
    assert(s.push(e).drop_last() =~= s);
    assert(s.push(e).last() == e);
}

/// Splits an oversize run of leaf entries into siblings, keeping the
/// entries in order. Every sibling's body fits one page, except a
/// sibling reduced to a single entry too large for any page: that one
/// becomes overflow-backed. Siblings are packed greedily from the
/// front: no sibling but the last could absorb the entry that opens
/// the next one, so a sibling is cut short only when a page forces it.
#[verifier::loop_isolation(false)]
#[verifier::rlimit(60)]
pub fn split_leaf_entries(entries: Vec<LeafEntry>, page_size: usize) -> (r: Vec<Vec<LeafEntry>>)
    requires
        page_size >= 1024,
        entries@.len() >= 1,
        spec_leaf_body_size(entries@) <= usize::MAX,
    ensures
        chunk_views(r@).flatten() == entries@,
        r@.len() >= 1,
        forall|c: int| 0 <= c < r@.len() ==> (#[trigger] r@[c])@.len() >= 1,
        forall|c: int|
            0 <= c < r@.len() ==> spec_leaf_body_size((#[trigger] r@[c])@) <= page_size || r@[c]@.len()
                == 1,
        forall|c: int|
            0 <= c < r@.len() - 1 ==> spec_leaf_body_size(
                (#[trigger] r@[c])@.push(r@[c + 1]@[0]),
            ) > page_size,
{
    let mut rest = entries;
    let mut out: Vec<Vec<LeafEntry>> = Vec::new();
    let mut cur: Vec<LeafEntry> = Vec::new();
    let mut cur_kv: usize = 0;
    proof {
        assert(chunk_views(out@) =~= Seq::<Seq<LeafEntry>>::empty());
        assert(chunk_views(out@).flatten() + cur@ + rest@ =~= entries@);
        lemma_leaf_kv_size_nonneg(rest@);
    }
    while rest.len() > 0
        invariant
            cur_kv == spec_leaf_kv_size(cur@),
            chunk_views(out@).flatten() + cur@ + rest@ == entries@,
            16 + 24 * (cur@.len() + rest@.len()) + cur_kv + spec_leaf_kv_size(rest@)
                <= spec_leaf_body_size(entries@),
            spec_leaf_body_size(cur@) <= page_size || cur@.len() == 1,
            cur@.len() >= 1 || (out@.len() == 0 && cur@.len() == 0),
            forall|c: int| 0 <= c < out@.len() ==> (#[trigger] out@[c])@.len() >= 1,
            forall|c: int|
                0 <= c < out@.len() ==> spec_leaf_body_size((#[trigger] out@[c])@) <= page_size
                    || out@[c]@.len() == 1,
            forall|c: int|
                0 <= c < out@.len() - 1 ==> spec_leaf_body_size(
                    (#[trigger] out@[c])@.push(out@[c + 1]@[0]),
                ) > page_size,
            out@.len() > 0 && cur@.len() > 0 ==> spec_leaf_body_size(
                out@[out@.len() - 1]@.push(cur@[0]),
            ) > page_size,
        decreases rest@.len(),
    {
        proof {
            lemma_leaf_kv_size_first(rest@);
            lemma_leaf_kv_size_nonneg(rest@.subrange(1, rest@.len() as int));
            lemma_leaf_kv_size_nonneg(cur@);
        }
        let ek = rest[0].key.len();
        let ev = rest[0].value.len();
        let would = 16 + 24 * (cur.len() + 1) + cur_kv + ek + ev;
        if cur.len() >= 1 && would > page_size {
            let ghost old_out = out@;
            let ghost old_cur = cur@;
            out.push(cur);
            cur = Vec::new();
            cur_kv = 0;
            proof {
                assert(chunk_views(out@) =~= chunk_views(old_out).push(old_cur));
                chunk_views(old_out).lemma_flatten_push(old_cur);
                assert(chunk_views(out@).flatten() + cur@ + rest@ =~= entries@);
                assert(out@[out@.len() - 1]@ == old_cur);
                assert forall|c: int| 0 <= c < out@.len() implies (#[trigger] out@[c])@.len()
                    >= 1 by {
                    if c < out@.len() - 1 {
                        assert(out@[c] == old_out[c]);
                    }
                }
                assert forall|c: int|
                    0 <= c < out@.len() implies spec_leaf_body_size((#[trigger] out@[c])@)
                    <= page_size || out@[c]@.len() == 1 by {
                    if c < out@.len() - 1 {
                        assert(out@[c] == old_out[c]);
                    }
                }
                assert forall|c: int|
                    0 <= c < out@.len() - 1 implies spec_leaf_body_size(
                    (#[trigger] out@[c])@.push(out@[c + 1]@[0]),
                ) > page_size by {
                    assert(out@[c] == old_out[c]);
                    if c < out@.len() - 2 {
                        assert(out@[c + 1] == old_out[c + 1]);
                    } else {
                        assert(out@[c + 1]@ == old_cur);
                    }
                }
            }
        }
        let ghost pre_cur = cur@;
        let ghost pre_rest = rest@;
        let e = rest.remove(0);
        cur_kv = cur_kv + ek + ev;
        cur.push(e);
        proof {
            assert(rest@ =~= pre_rest.subrange(1, pre_rest.len() as int));
            assert(cur@.drop_last() =~= pre_cur);
            assert(cur@.last() == pre_rest[0]);
            assert(spec_leaf_kv_size(cur@) == spec_leaf_kv_size(pre_cur) + ek + ev);
            assert(chunk_views(out@).flatten() + cur@ + rest@ =~= entries@);
            if pre_cur.len() >= 1 {
                assert(spec_leaf_body_size(cur@) <= page_size);
                assert(cur@[0] == pre_cur[0]);
            } else {
                assert(cur@[0] == pre_rest[0]);
                if out@.len() > 0 {
                    lemma_leaf_body_size_push(out@[out@.len() - 1]@, pre_rest[0]);
                }
            }
        }
    }
    let ghost old_out = out@;
    let ghost last_cur = cur@;
    out.push(cur);
    proof {
        assert(chunk_views(out@) =~= chunk_views(old_out).push(last_cur));
        chunk_views(old_out).lemma_flatten_push(last_cur);
        assert(rest@ =~= Seq::<LeafEntry>::empty());
        assert(chunk_views(out@).flatten() =~= entries@);
        assert(out@[out@.len() - 1]@ == last_cur);
        assert(last_cur.len() >= 1);
        assert forall|c: int| 0 <= c < out@.len() implies (#[trigger] out@[c])@.len() >= 1 by {
            if c < out@.len() - 1 {
                assert(out@[c] == old_out[c]);
            }
        }
        assert forall|c: int|
            0 <= c < out@.len() implies spec_leaf_body_size((#[trigger] out@[c])@) <= page_size
            || out@[c]@.len() == 1 by {
            if c < out@.len() - 1 {
                assert(out@[c] == old_out[c]);
            }
        }
        assert forall|c: int|
            0 <= c < out@.len() - 1 implies spec_leaf_body_size(
            (#[trigger] out@[c])@.push(out@[c + 1]@[0]),
        ) > page_size by {
            assert(out@[c] == old_out[c]);
            if c < out@.len() - 2 {
                assert(out@[c + 1] == old_out[c + 1]);
            } else {
                assert(out@[c + 1]@ == last_cur);
            }
        }
    }
    out
}

} // verus!

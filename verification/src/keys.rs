//! Byte-lexicographic order on keys: the order every page stores its
//! keys in, and the order a cursor walks them in.

use vstd::prelude::*;

verus! {

/// Strict byte-lexicographic order: `a` comes before `b`.
pub open spec fn lex_lt(a: Seq<u8>, b: Seq<u8>) -> bool
    decreases a.len(),
{
    if b.len() == 0 {
        false
    } else if a.len() == 0 {
        true
    } else if a[0] < b[0] {
        true
    } else if a[0] > b[0] {
        false
    } else {
        lex_lt(a.subrange(1, a.len() as int), b.subrange(1, b.len() as int))
    }
}

/// The order is irreflexive: no key comes before itself.
pub proof fn lemma_lex_lt_irreflexive(a: Seq<u8>)
    ensures
        !lex_lt(a, a),
    decreases a.len(),
{
    if a.len() > 0 {
        lemma_lex_lt_irreflexive(a.subrange(1, a.len() as int));
    }
}

/// The order is transitive, so keys checked pairwise-adjacent are
/// ascending overall.
pub proof fn lemma_lex_lt_transitive(a: Seq<u8>, b: Seq<u8>, c: Seq<u8>)
    requires
        lex_lt(a, b),
        lex_lt(b, c),
    ensures
        lex_lt(a, c),
    decreases a.len() + b.len() + c.len(),
{
    if c.len() == 0 {
        assert(false);
    } else if b.len() == 0 {
        assert(false);
    } else if a.len() == 0 {
    } else {
        if a[0] == b[0] && b[0] == c[0] {
            lemma_lex_lt_transitive(
                a.subrange(1, a.len() as int),
                b.subrange(1, b.len() as int),
                c.subrange(1, c.len() as int),
            );
        }
    }
}


/// The order is connected: two distinct keys always compare one way.
/// With irreflexivity and transitivity this makes it a strict total
/// order, so "strictly ascending" defines one unique key arrangement.
pub proof fn lemma_lex_lt_connected(a: Seq<u8>, b: Seq<u8>)
    ensures
        a == b || lex_lt(a, b) || lex_lt(b, a),
    decreases a.len(),
{
    if a.len() == 0 && b.len() == 0 {
        assert(a =~= b);
    } else if a.len() > 0 && b.len() > 0 && a[0] == b[0] {
        let ta = a.subrange(1, a.len() as int);
        let tb = b.subrange(1, b.len() as int);
        lemma_lex_lt_connected(ta, tb);
        if ta == tb {
            assert(a =~= b) by {
                assert forall|i: int| 0 <= i < a.len() implies a[i] == b[i] by {
                    if i > 0 {
                        assert(a[i] == ta[i - 1]);
                        assert(b[i] == tb[i - 1]);
                    }
                }
            }
        }
    }
}

/// A sequence of keys in strictly ascending byte-lexicographic order,
/// checked between neighbours.
pub open spec fn keys_sorted(keys: Seq<Seq<u8>>) -> bool {
    forall|i: int| 0 <= i < keys.len() - 1 ==> lex_lt(#[trigger] keys[i], keys[i + 1])
}

/// Ordering law: keys ascending between neighbours are ascending
/// between any two positions, so a scan of a page's keys meets every
/// key exactly once, in strictly ascending order.
pub proof fn lemma_keys_sorted_pairwise(keys: Seq<Seq<u8>>, i: int, j: int)
    requires
        keys_sorted(keys),
        0 <= i < j < keys.len(),
    ensures
        lex_lt(keys[i], keys[j]),
    decreases j - i,
{
    if i + 1 == j {
    } else {
        lemma_keys_sorted_pairwise(keys, i, j - 1);
        assert(lex_lt(keys[j - 1], keys[j]));
        lemma_lex_lt_transitive(keys[i], keys[j - 1], keys[j]);
    }
}

/// Compares two keys in byte-lexicographic order.
pub fn key_lt(a: &[u8], b: &[u8]) -> (r: bool)
    ensures
        r == lex_lt(a@, b@),
{
    let alen = a.len();
    let blen = b.len();
    let mut i: usize = 0;
    proof {
        assert(a@.subrange(0, alen as int) =~= a@);
        assert(b@.subrange(0, blen as int) =~= b@);
    }
    loop
        invariant
            0 <= i <= alen,
            0 <= i <= blen,
            alen == a@.len(),
            blen == b@.len(),
            forall|k: int| 0 <= k < i ==> a@[k] == b@[k],
            lex_lt(a@, b@) == lex_lt(
                a@.subrange(i as int, alen as int),
                b@.subrange(i as int, blen as int),
            ),
        decreases alen - i,
    {
        if i >= blen {
            proof {
                assert(b@.subrange(i as int, blen as int).len() == 0);
            }
            return false;
        }
        if i >= alen {
            proof {
                assert(a@.subrange(i as int, alen as int).len() == 0);
                assert(b@.subrange(i as int, blen as int).len() > 0);
            }
            return true;
        }
        let av = *vstd::slice::slice_index_get(a, i);
        let bv = *vstd::slice::slice_index_get(b, i);
        proof {
            assert(a@.subrange(i as int, alen as int)[0] == a@[i as int]);
            assert(b@.subrange(i as int, blen as int)[0] == b@[i as int]);
        }
        if av < bv {
            return true;
        }
        if av > bv {
            return false;
        }
        i = i + 1;
        proof {
            let sa = a@.subrange(i - 1, alen as int);
            let sb = b@.subrange(i - 1, blen as int);
            assert(sa.subrange(1, sa.len() as int) =~= a@.subrange(i as int, alen as int));
            assert(sb.subrange(1, sb.len() as int) =~= b@.subrange(i as int, blen as int));
        }
    }
}

} // verus!

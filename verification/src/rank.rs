//! Orderings of weighted entries: a stable sort by descending weight, and
//! ranked listings of scored words.

use vstd::prelude::*;
use crate::order::{lex_lt, lex_less, lemma_lex_transitive, lemma_lex_total};
use crate::trie::pair_views;

verus! {

/// `x` occurs among the first `n` entries of `perm`.
pub open spec fn occurs(perm: Seq<usize>, n: int, x: int) -> bool {
    exists|a: int| 0 <= a < n && #[trigger] perm[a] == x
}

/// `perm` lists each index below `n` exactly once.
pub open spec fn is_index_permutation(perm: Seq<usize>, n: int) -> bool {
    &&& perm.len() == n
    &&& forall|a: int| 0 <= a < n ==> (#[trigger] perm[a]) < n
    &&& forall|a: int, b: int| 0 <= a < b < n ==> #[trigger] perm[a] != #[trigger] perm[b]
    &&& forall|x: int| 0 <= x < n ==> #[trigger] occurs(perm, n, x)
}

/// The order that a stable sort by descending weight gives: weights never
/// increase, and equal weights keep their original order.
pub open spec fn stable_desc_order(weights: Seq<u32>, perm: Seq<usize>) -> bool {
    &&& is_index_permutation(perm, weights.len() as int)
    &&& forall|a: int, b: int|
        0 <= a < b < perm.len() ==> weights[#[trigger] perm[a] as int] >= weights[#[trigger] perm[b] as int]
    &&& forall|a: int, b: int|
        0 <= a < b < perm.len() && weights[perm[a] as int] == weights[perm[b] as int] ==> #[trigger] perm[a]
            < #[trigger] perm[b]
}

/// Indices of `weights` in the order of a stable sort by descending weight.
pub fn order_by_weight_desc(weights: &Vec<u32>) -> (perm: Vec<usize>)
    ensures
        stable_desc_order(weights@, perm@),
{
    let n = weights.len();
    let mut perm: Vec<usize> = Vec::new();
    let mut k: usize = 0;
    while k < n
        invariant
            n == weights@.len(),
            k <= n,
            perm@.len() == k,
            forall|a: int| 0 <= a < k ==> (#[trigger] perm@[a]) < k,
            forall|a: int, b: int| 0 <= a < b < k ==> #[trigger] perm@[a] != #[trigger] perm@[b],
            forall|x: int| 0 <= x < k ==> #[trigger] occurs(perm@, k as int, x),
            forall|a: int, b: int|
                0 <= a < b < k ==> weights@[#[trigger] perm@[a] as int] >= weights@[#[trigger] perm@[b] as int],
            forall|a: int, b: int|
                0 <= a < b < k && weights@[perm@[a] as int] == weights@[perm@[b] as int] ==> #[trigger] perm@[a]
                    < #[trigger] perm@[b],
        decreases n - k,
    {
        let wk = weights[k];
        let mut pos: usize = 0;
        while pos < perm.len() && weights[perm[pos]] >= wk
            invariant
                n == weights@.len(),
                k < n,
                perm@.len() == k,
                forall|a: int| 0 <= a < k ==> (#[trigger] perm@[a]) < k,
                pos <= k,
                forall|a: int| 0 <= a < pos ==> weights@[#[trigger] perm@[a] as int] >= wk,
            decreases k - pos,
        {
            pos = pos + 1;
        }
        let ghost old_perm = perm@;
        perm.insert(pos, k);
        proof {
            assert(perm@ == old_perm.insert(pos as int, k));
            assert forall|a: int| 0 <= a < k + 1 implies #[trigger] perm@[a] == if a < pos {
                old_perm[a]
            } else if a == pos {
                k
            } else {
                old_perm[a - 1]
            } by {}
            if pos < k {
                assert(weights@[old_perm[pos as int] as int] < wk);
            }
            assert forall|a: int| pos < a < k + 1 implies weights@[#[trigger] perm@[a] as int] < wk by {
                if pos < a - 1 {
                    assert(weights@[old_perm[pos as int] as int] >= weights@[old_perm[a - 1] as int]);
                }
            }
            assert forall|x: int| 0 <= x < k + 1 implies #[trigger] occurs(perm@, k + 1, x) by {
                if x == k {
                    assert(perm@[pos as int] == x);
                } else {
                    assert(occurs(old_perm, k as int, x));
                    let a = choose|a: int| 0 <= a < k && #[trigger] old_perm[a] == x;
                    if a < pos {
                        assert(perm@[a] == x);
                    } else {
                        assert(perm@[a + 1] == x);
                    }
                }
            }
        }
        k = k + 1;
    }
    perm
}


// ───────────────────────── ranked listings ─────────────────────────

/// `a` comes before `b` in a ranked listing: a higher score first, and among
/// equal scores the word that sorts first.
pub open spec fn ranks_before(a: (Seq<char>, u32), b: (Seq<char>, u32)) -> bool {
    a.1 > b.1 || (a.1 == b.1 && lex_lt(a.0, b.0))
}

/// Every entry of `r` ranks before every later one.
pub open spec fn strictly_ranked(r: Seq<(Seq<char>, u32)>) -> bool {
    forall|x: int, y: int| 0 <= x < y < r.len() ==> ranks_before(#[trigger] r[x], #[trigger] r[y])
}

/// No word appears twice in `r`.
pub open spec fn distinct_words(r: Seq<(Seq<char>, u32)>) -> bool {
    forall|x: int, y: int| 0 <= x < y < r.len() ==> (#[trigger] r[x]).0 != (#[trigger] r[y]).0
}

pub proof fn lemma_ranks_transitive(a: (Seq<char>, u32), b: (Seq<char>, u32), c: (Seq<char>, u32))
    requires
        ranks_before(a, b),
        ranks_before(b, c),
    ensures
        ranks_before(a, c),
{
    if a.1 == b.1 && b.1 == c.1 {
        lemma_lex_transitive(a.0, b.0, c.0);
    }
}

pub proof fn lemma_ranks_total(a: (Seq<char>, u32), b: (Seq<char>, u32))
    requires
        a.0 != b.0,
    ensures
        ranks_before(a, b) || ranks_before(b, a),
{
    lemma_lex_total(a.0, b.0);
}

/// Whether `(aw, a_score)` ranks before `(bw, b_score)`.
pub fn ranks_ahead(aw: &[char], a_score: u32, bw: &[char], b_score: u32) -> (r: bool)
    ensures
        r == ranks_before((aw@, a_score), (bw@, b_score)),
{
    if a_score != b_score {
        a_score > b_score
    } else {
        lex_less(aw, bw)
    }
}

/// Inserts `e`, whose word is not listed yet, at its place in a ranked listing.
pub fn insert_ranked(out: &mut Vec<(Vec<char>, u32)>, e: (Vec<char>, u32)) -> (p: usize)
    requires
        strictly_ranked(pair_views(old(out)@)),
        distinct_words(pair_views(old(out)@)),
        forall|x: int| 0 <= x < old(out)@.len() ==> (#[trigger] pair_views(old(out)@)[x]).0 != e.0@,
    ensures
        p <= old(out)@.len(),
        pair_views(final(out)@) == pair_views(old(out)@).insert(p as int, (e.0@, e.1)),
        strictly_ranked(pair_views(final(out)@)),
        distinct_words(pair_views(final(out)@)),
{
    let ghost r = pair_views(out@);
    let ghost ev = (e.0@, e.1);
    let mut p: usize = 0;
    while p < out.len() && ranks_ahead(&out[p].0, out[p].1, &e.0, e.1)
        invariant
            p <= out@.len(),
            r == pair_views(out@),
            ev == (e.0@, e.1),
            forall|x: int| 0 <= x < p ==> ranks_before(#[trigger] r[x], ev),
        decreases out@.len() - p,
    {
        assert(r[p as int] == (out@[p as int].0@, out@[p as int].1));
        p = p + 1;
    }
    proof {
        if p < r.len() {
            assert(r[p as int] == (out@[p as int].0@, out@[p as int].1));
            lemma_ranks_total(r[p as int], ev);
            assert forall|y: int| p <= y < r.len() implies ranks_before(ev, #[trigger] r[y]) by {
                if y > p {
                    lemma_ranks_transitive(ev, r[p as int], r[y]);
                }
            }
        }
    }
    out.insert(p, e);
    proof {
        let r2 = pair_views(out@);
        let ri = r.insert(p as int, ev);
        assert(r2 =~= ri) by {
            r.insert_ensures(p as int, ev);
            assert forall|k: int| 0 <= k < r2.len() implies r2[k] == ri[k] by {
                if k < p {
                    assert(out@[k] == old(out)@[k]);
                } else if k > p {
                    assert(out@[k] == old(out)@[k - 1]);
                    assert(ri[k] == r[k - 1]);
                }
            }
        }
        r.insert_ensures(p as int, ev);
        assert forall|x: int, y: int| 0 <= x < y < ri.len() implies ranks_before(#[trigger] ri[x], #[trigger] ri[y]) by {
            if y < p {
            } else if x < p && y == p {
            } else if x < p {
                assert(ri[y] == r[y - 1]);
                assert(ranks_before(r[x], ev));
                lemma_ranks_transitive(r[x], ev, r[y - 1]);
            } else if x == p {
                assert(ri[y] == r[y - 1]);
            } else {
                assert(ri[x] == r[x - 1]);
                assert(ri[y] == r[y - 1]);
            }
        }
        assert forall|x: int, y: int| 0 <= x < y < ri.len() implies (#[trigger] ri[x]).0 != (#[trigger] ri[y]).0 by {
            if y < p {
            } else if x < p && y == p {
            } else if x < p {
                assert(ri[y] == r[y - 1]);
            } else if x == p {
                assert(ri[y] == r[y - 1]);
            } else {
                assert(ri[x] == r[x - 1]);
                assert(ri[y] == r[y - 1]);
            }
        }
    }
    p
}

/// Takes the word `w` with score `s` into a ranked listing: a new word is
/// inserted at its place, a listed word keeps the higher of its two scores.
pub fn absorb(out: &mut Vec<(Vec<char>, u32)>, w: Vec<char>, s: u32)
    requires
        strictly_ranked(pair_views(old(out)@)),
        distinct_words(pair_views(old(out)@)),
    ensures
        strictly_ranked(pair_views(final(out)@)),
        distinct_words(pair_views(final(out)@)),
        forall|y: int|
            0 <= y < final(out)@.len() ==> #[trigger] pair_views(final(out)@)[y] == (w@, s) || exists|x: int|
                0 <= x < old(out)@.len() && pair_views(final(out)@)[y] == #[trigger] pair_views(old(out)@)[x],
        forall|x: int|
            0 <= x < old(out)@.len() ==> exists|y: int|
                0 <= y < final(out)@.len() && (#[trigger] pair_views(final(out)@)[y]).0 == (
                #[trigger] pair_views(old(out)@)[x]).0 && pair_views(final(out)@)[y].1 >= pair_views(
                old(out)@)[x].1,
        exists|y: int|
            0 <= y < final(out)@.len() && (#[trigger] pair_views(final(out)@)[y]).0 == w@ && pair_views(
                final(out)@,
            )[y].1 >= s,
{
    let ghost r = pair_views(out@);
    let ghost wv = w@;
    let mut i: usize = 0;
    while i < out.len()
        invariant
            i <= out@.len(),
            r == pair_views(out@),
            wv == w@,
            forall|x: int| 0 <= x < i ==> (#[trigger] r[x]).0 != wv,
        ensures
            i <= out@.len(),
            forall|x: int| 0 <= x < i ==> (#[trigger] r[x]).0 != wv,
            i < out@.len() ==> r[i as int].0 == wv,
        decreases out@.len() - i,
    {
        assert(r[i as int] == (out@[i as int].0@, out@[i as int].1));
        if crate::text::chars_equal(&out[i].0, &w) {
            break;
        }
        i = i + 1;
    }
    if i < out.len() {
        assert(r[i as int] == (out@[i as int].0@, out@[i as int].1));
        assert(r[i as int].0 == wv);
        if out[i].1 >= s {
            assert forall|x: int| 0 <= x < r.len() implies exists|y: int|
                0 <= y < r.len() && (#[trigger] r[y]).0 == (#[trigger] r[x]).0 && r[y].1 >= r[x].1 by {
                assert(r[x] == r[x]);
            }
            assert(r[i as int].0 == w@ && r[i as int].1 >= s);
            return;
        }
        let ghost old_score = out@[i as int].1;
        out.remove(i);
        let ghost r1 = pair_views(out@);
        proof {
            r.remove_ensures(i as int);
            assert(r1 =~= r.remove(i as int)) by {
                assert forall|k: int| 0 <= k < r1.len() implies r1[k] == r.remove(i as int)[k] by {
                    if k < i {
                        assert(out@[k] == old(out)@[k]);
                    } else {
                        assert(out@[k] == old(out)@[k + 1]);
                    }
                }
            }
            assert forall|x: int, y: int| 0 <= x < y < r1.len() implies ranks_before(#[trigger] r1[x], #[trigger] r1[y]) by {
                if y < i {
                } else if x < i {
                    assert(r1[y] == r[y + 1]);
                } else {
                    assert(r1[x] == r[x + 1]);
                    assert(r1[y] == r[y + 1]);
                }
            }
            assert forall|x: int, y: int| 0 <= x < y < r1.len() implies (#[trigger] r1[x]).0 != (#[trigger] r1[y]).0 by {
                if y < i {
                } else if x < i {
                    assert(r1[y] == r[y + 1]);
                } else {
                    assert(r1[x] == r[x + 1]);
                    assert(r1[y] == r[y + 1]);
                }
            }
            assert forall|x: int| 0 <= x < r1.len() implies (#[trigger] r1[x]).0 != wv by {
                if x < i {
                    assert(r1[x] == r[x]);
                } else {
                    assert(r1[x] == r[x + 1]);
                }
            }
        }
        let p = insert_ranked(out, (w, s));
        proof {
            let r2 = pair_views(out@);
            r1.insert_ensures(p as int, (wv, s));
            r.remove_ensures(i as int);
            assert(r2[p as int] == (wv, s));
            assert forall|y: int| 0 <= y < r2.len() implies #[trigger] r2[y] == (w@, s) || exists|x: int|
                0 <= x < r.len() && r2[y] == #[trigger] r[x] by {
                if y < p {
                    if y < i {
                        assert(r2[y] == r[y]);
                    } else {
                        assert(r2[y] == r[y + 1]);
                    }
                } else if y > p {
                    if y - 1 < i {
                        assert(r2[y] == r[y - 1]);
                    } else {
                        assert(r2[y] == r[y]);
                    }
                }
            }
            assert forall|x: int| 0 <= x < r.len() implies exists|y: int|
                0 <= y < r2.len() && (#[trigger] r2[y]).0 == (#[trigger] r[x]).0 && r2[y].1 >= r[x].1 by {
                if x == i {
                    assert(r2[p as int].0 == r[x].0);
                } else {
                    let x1 = if x < i { x } else { x - 1 };
                    assert(r1[x1] == r[x]);
                    let y = if x1 < p { x1 } else { x1 + 1 };
                    assert(r2[y] == r1[x1]);
                }
            }
        }
    } else {
        let p = insert_ranked(out, (w, s));
        proof {
            let r2 = pair_views(out@);
            r.insert_ensures(p as int, (wv, s));
            assert(r2[p as int] == (wv, s));
            assert forall|y: int| 0 <= y < r2.len() implies #[trigger] r2[y] == (w@, s) || exists|x: int|
                0 <= x < r.len() && r2[y] == #[trigger] r[x] by {
                if y < p {
                    assert(r2[y] == r[y]);
                } else if y > p {
                    assert(r2[y] == r[y - 1]);
                }
            }
            assert forall|x: int| 0 <= x < r.len() implies exists|y: int|
                0 <= y < r2.len() && (#[trigger] r2[y]).0 == (#[trigger] r[x]).0 && r2[y].1 >= r[x].1 by {
                let y = if x < p { x } else { x + 1 };
                assert(r2[y] == r[x]);
            }
        }
    }
}

} // verus!

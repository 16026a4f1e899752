//! Damerau–Levenshtein distance in its optimal-string-alignment form, computed
//! one row per word character so that a trie walk can share the rows of a
//! common prefix.

use vstd::prelude::*;

verus! {

/// Cost of aligning `a` with `b`.
pub open spec fn subst_cost(a: char, b: char) -> nat {
    if a == b {
        0
    } else {
        1
    }
}

/// The last two characters of `w[..j]` are the last two of `q[..i]` swapped.
/// The character `'\0'` never starts a transposition.
pub open spec fn transposes(q: Seq<char>, w: Seq<char>, i: int, j: int) -> bool {
    &&& i >= 2
    &&& j >= 2
    &&& w[j - 2] != '\0'
    &&& w[j - 1] == q[i - 2]
    &&& w[j - 2] == q[i - 1]
}

pub open spec fn min_nat(a: nat, b: nat) -> nat {
    if a <= b {
        a
    } else {
        b
    }
}

/// Distance between `q[..i]` and `w[..j]`.
pub open spec fn osa(q: Seq<char>, w: Seq<char>, i: nat, j: nat) -> nat
    decreases i + j,
{
    if i == 0 {
        j
    } else if j == 0 {
        i
    } else {
        let m = min_nat(
            min_nat(osa(q, w, (i - 1) as nat, j) + 1, osa(q, w, i, (j - 1) as nat) + 1),
            osa(q, w, (i - 1) as nat, (j - 1) as nat) + subst_cost(w[j - 1], q[i - 1]),
        );
        if transposes(q, w, i as int, j as int) {
            min_nat(m, osa(q, w, (i - 2) as nat, (j - 2) as nat) + 1)
        } else {
            m
        }
    }
}

/// Distance between the query `q` and the word `w`.
pub open spec fn edit_distance(q: Seq<char>, w: Seq<char>) -> nat {
    osa(q, w, q.len(), w.len())
}

/// Distances from every prefix of `q` (shortest first) to the word `w`.
pub open spec fn row_of(q: Seq<char>, w: Seq<char>) -> Seq<usize> {
    Seq::new((q.len() + 1) as nat, |i: int| osa(q, w, i as nat, w.len()) as usize)
}

pub proof fn lemma_osa_bound(q: Seq<char>, w: Seq<char>, i: nat, j: nat)
    ensures
        osa(q, w, i, j) <= if i <= j {
            j
        } else {
            i
        },
    decreases i + j,
{
    if i > 0 && j > 0 {
        lemma_osa_bound(q, w, (i - 1) as nat, (j - 1) as nat);
    }
}

/// The distance to `w[..j]` depends only on the first `j` characters of `w`.
pub proof fn lemma_osa_prefix(q: Seq<char>, w: Seq<char>, v: Seq<char>, i: nat, j: nat)
    requires
        j <= w.len(),
        j <= v.len(),
        w.take(j as int) == v.take(j as int),
    ensures
        osa(q, w, i, j) == osa(q, v, i, j),
    decreases i + j,
{
    if i > 0 && j > 0 {
        assert(w[j - 1] == w.take(j as int)[j - 1]);
        assert(v[j - 1] == v.take(j as int)[j - 1]);
        assert(w.take(j - 1) == w.take(j as int).take(j - 1));
        assert(v.take(j - 1) == v.take(j as int).take(j - 1));
        lemma_osa_prefix(q, w, v, (i - 1) as nat, j);
        lemma_osa_prefix(q, w, v, i, (j - 1) as nat);
        lemma_osa_prefix(q, w, v, (i - 1) as nat, (j - 1) as nat);
        if i >= 2 && j >= 2 {
            assert(w[j - 2] == w.take(j as int)[j - 2]);
            assert(v[j - 2] == v.take(j as int)[j - 2]);
            assert(w.take(j - 2) == w.take(j as int).take(j - 2));
            assert(v.take(j - 2) == v.take(j as int).take(j - 2));
            lemma_osa_prefix(q, w, v, (i - 2) as nat, (j - 2) as nat);
        }
    }
}

/// Once every entry of column `j` exceeds `d`, so does every entry of column
/// `j + 1`.
pub proof fn lemma_column_exceeds(q: Seq<char>, w: Seq<char>, j: nat, d: nat, i: nat)
    requires
        j + 1 <= w.len(),
        i <= q.len(),
        forall|k: nat| k <= q.len() ==> #[trigger] osa(q, w, k, j) > d,
    ensures
        osa(q, w, i, j + 1) > d,
    decreases i,
{
    if i > 0 {
        lemma_column_exceeds(q, w, j, d, (i - 1) as nat);
        assert(osa(q, w, (i - 1) as nat, j) > d);
        assert(osa(q, w, i, j) > d);
        if transposes(q, w, i as int, (j + 1) as int) {
            assert(osa(q, w, (i - 1) as nat, j) <= osa(q, w, (i - 2) as nat, (j - 1) as nat) + subst_cost(
                w[j - 1],
                q[i - 2],
            ));
        }
    } else {
        assert(osa(q, w, 0, j) > d);
    }
}

/// When the whole row of `w` exceeds `d`, every word that extends `w` is
/// farther than `d` from the query.
pub proof fn lemma_prune(q: Seq<char>, w: Seq<char>, v: Seq<char>, d: nat)
    requires
        forall|k: nat| k <= q.len() ==> #[trigger] osa(q, w, k, w.len()) > d,
        w.is_prefix_of(v),
    ensures
        edit_distance(q, v) > d,
    decreases v.len() - w.len(),
{
    if v.len() == w.len() {
        assert(w =~= v);
    } else {
        let w2 = v.take(w.len() + 1int);
        assert forall|k: nat| k <= q.len() implies #[trigger] osa(q, w2, k, w.len()) > d by {
            assert(w2.take(w.len() as int) =~= w.take(w.len() as int));
            lemma_osa_prefix(q, w2, w, k, w.len());
        }
        assert forall|k: nat| k <= q.len() implies #[trigger] osa(q, w2, k, w2.len()) > d by {
            lemma_column_exceeds(q, w2, w.len(), d, k);
        }
        assert(w2.is_prefix_of(v));
        lemma_prune(q, w2, v, d);
    }
}

/// One entry of the row of `w + ch`, written with the rows of `w + ch`
/// (entry `i - 1`), of `w`, and of `w` without its last character.
pub proof fn lemma_next_entry(q: Seq<char>, w: Seq<char>, ch: char, i: nat)
    requires
        1 <= i <= q.len(),
    ensures
        ({
            let w2 = w.push(ch);
            let j = w.len();
            let m = min_nat(
                min_nat(osa(q, w2, (i - 1) as nat, j + 1) + 1, osa(q, w, i, j) + 1),
                osa(q, w, (i - 1) as nat, j) + subst_cost(ch, q[i - 1]),
            );
            osa(q, w2, i, j + 1) == if i >= 2 && j >= 1 && w[j - 1] != '\0' && ch == q[i - 2] && w[j - 1]
                == q[i - 1] {
                min_nat(m, osa(q, w.drop_last(), (i - 2) as nat, (j - 1) as nat) + 1)
            } else {
                m
            }
        }),
        osa(q, w.push(ch), i, w.len() + 1) <= if i <= w.len() + 1 {
            w.len() + 1
        } else {
            i as nat
        },
{
    let w2 = w.push(ch);
    let j = w.len();
    assert(w2.take(j as int) == w.take(j as int));
    lemma_osa_prefix(q, w2, w, i, j);
    lemma_osa_prefix(q, w2, w, (i - 1) as nat, j);
    assert(w2[j as int] == ch);
    if j >= 1 {
        assert(w2[j - 1] == w[j - 1]);
        assert(w2.take(j - 1) == w.drop_last().take(j - 1));
        if i >= 2 {
            lemma_osa_prefix(q, w2, w.drop_last(), (i - 2) as nat, (j - 1) as nat);
        }
    }
    lemma_osa_bound(q, w2, i, j + 1);
}

/// The row of the one-character-longer word `w + ch`, from the rows of `w`
/// (`prev`) and of `w` without its last character (`prev_prev`).
/// `prev_char` is the last character of `w`, or `'\0'` when `w` is empty.
pub fn next_row(
    prev: &Vec<usize>,
    prev_prev: &Vec<usize>,
    prev_char: char,
    q: &Vec<char>,
    ch: char,
    Ghost(w): Ghost<Seq<char>>,
) -> (next: Vec<usize>)
    requires
        prev@ == row_of(q@, w),
        w.len() >= 1 ==> prev_prev@ == row_of(q@, w.drop_last()) && prev_char == w.last(),
        w.len() == 0 ==> prev_prev@ == row_of(q@, w) && prev_char == '\0',
        w.len() + 1 <= usize::MAX,
    ensures
        next@ == row_of(q@, w.push(ch)),
{
    let ghost w2 = w.push(ch);
    let ghost j = w.len();
    let n = q.len();
    let _ = prev.len();
    assert(n + 1 <= usize::MAX);
    let mut next: Vec<usize> = Vec::new();
    proof {
        lemma_osa_bound(q@, w, 0, j);
    }
    next.push(prev[0].saturating_add(1));
    let mut i: usize = 1;
    while i <= n
        invariant
            n == q@.len(),
            n + 1 <= usize::MAX,
            prev@ == row_of(q@, w),
            w.len() >= 1 ==> prev_prev@ == row_of(q@, w.drop_last()) && prev_char == w.last(),
            w.len() == 0 ==> prev_prev@ == row_of(q@, w) && prev_char == '\0',
            w2 == w.push(ch),
            j == w.len(),
            j + 1 <= usize::MAX,
            1 <= i <= n + 1,
            next@.len() == i,
            forall|k: int| 0 <= k < i ==> #[trigger] next@[k] == osa(q@, w2, k as nat, (j + 1) as nat),
        decreases n + 1 - i,
    {
        proof {
            lemma_next_entry(q@, w, ch, i as nat);
            lemma_osa_bound(q@, w, i as nat, j);
            lemma_osa_bound(q@, w, (i - 1) as nat, j);
            if j >= 1 && i >= 2 {
                lemma_osa_bound(q@, w.drop_last(), (i - 2) as nat, (j - 1) as nat);
            }
            assert(prev@[i as int] == osa(q@, w, i as nat, j));
            assert(prev@[i - 1] == osa(q@, w, (i - 1) as nat, j));
            assert(next@[i - 1] == osa(q@, w2, (i - 1) as nat, (j + 1) as nat));
            if j >= 1 && i >= 2 {
                assert(prev_prev@[i - 2] == osa(q@, w.drop_last(), (i - 2) as nat, (j - 1) as nat));
            }
        }
        let cost: usize = if ch == q[i - 1] {
            0
        } else {
            1
        };
        let a = next[i - 1].saturating_add(1);
        let b = prev[i].saturating_add(1);
        let c = prev[i - 1].saturating_add(cost);
        let mut value = if a < b {
            a
        } else {
            b
        };
        if c < value {
            value = c;
        }
        if i >= 2 && prev_char != '\0' && ch == q[i - 2] && prev_char == q[i - 1] {
            let e = prev_prev[i - 2].saturating_add(1);
            if e < value {
                value = e;
            }
        }
        proof {
            let t = osa(q@, w2, i as nat, (j + 1) as nat);
            assert(t <= usize::MAX);
            assert(value == t);
        }
        next.push(value);
        i = i + 1;
    }
    assert(next@ =~= row_of(q@, w2));
    next
}

} // verus!

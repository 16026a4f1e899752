//! Weighted prefix tree (trie) of dictionary words.
//!
//! Nodes live in one vector; node 0 is the root. Each node keeps its children
//! as `(character, index)` pairs. The ghost sequence `paths` gives the string
//! that leads from the root to each node, and `parent` the node it hangs from.
//! The trie's view is the map from each stored word to its weight.

use vstd::prelude::*;
use crate::text::{str_chars, chars_to_string, copy_range};
use crate::rank::{order_by_weight_desc, stable_desc_order, occurs, ranks_before, ranks_ahead, lemma_ranks_transitive, lemma_ranks_total};
use crate::distance::{edit_distance, row_of, next_row, osa, lemma_prune};

verus! {

pub struct TrieNode {
    pub children: Vec<(char, usize)>,
    pub is_word: bool,
    pub weight: u32,
}

impl TrieNode {
    pub fn new() -> (n: Self)
        ensures
            n.children@.len() == 0,
            !n.is_word,
            n.weight == 0,
    {
        TrieNode { children: Vec::new(), is_word: false, weight: 0 }
    }
}

/// Weighted prefix tree.
pub struct Trie {
    nodes: Vec<TrieNode>,
    paths: Ghost<Seq<Seq<char>>>,
    parent: Ghost<Seq<int>>,
}

/// The weight a word has after `insert(word, weight)`: the larger of the two
/// when the word was already there.
pub open spec fn merged_weight(m: Map<Seq<char>, u32>, w: Seq<char>, weight: u32) -> u32 {
    if m.contains_key(w) && m[w] > weight {
        m[w]
    } else {
        weight
    }
}

impl Trie {
    pub closed spec fn len(&self) -> int {
        self.nodes@.len() as int
    }

    pub closed spec fn child(&self, i: int, t: int) -> (char, usize) {
        self.nodes@[i].children@[t]
    }

    pub closed spec fn num_children(&self, i: int) -> int {
        self.nodes@[i].children@.len() as int
    }

    pub closed spec fn path(&self, i: int) -> Seq<char> {
        self.paths@[i]
    }

    /// Node `i` has a child `j` reached by the character `c`.
    pub closed spec fn has_edge(&self, i: int, c: char, j: int) -> bool {
        exists|t: int| 0 <= t < self.num_children(i) && #[trigger] self.child(i, t) == (c, j as usize)
    }

    pub closed spec fn wf(&self) -> bool {
        let n = self.len();
        &&& 1 <= n <= usize::MAX
        &&& self.paths@.len() == n
        &&& self.parent@.len() == n
        &&& self.paths@[0] == Seq::<char>::empty()
        &&& forall|i: int, t: int|
            0 <= i < n && 0 <= t < self.num_children(i) ==> {
                let (c, j) = #[trigger] self.child(i, t);
                &&& i < j < n
                &&& self.paths@[j as int] == self.paths@[i].push(c)
            }
        &&& forall|i: int, t1: int, t2: int|
            0 <= i < n && 0 <= t1 < self.num_children(i) && 0 <= t2 < self.num_children(i) && t1
                != t2 ==> (#[trigger] self.child(i, t1)).0 != (#[trigger] self.child(i, t2)).0
        &&& forall|k: int|
            1 <= k < n ==> {
                &&& 0 <= #[trigger] self.parent@[k] < k
                &&& self.has_edge(self.parent@[k], self.paths@[k].last(), k)
            }
        &&& forall|a: int, b: int|
            0 <= a < n && 0 <= b < n && a != b ==> #[trigger] self.paths@[a] != #[trigger] self.paths@[b]
        &&& forall|a: int| 0 <= a < n && !(#[trigger] self.nodes@[a]).is_word ==> self.nodes@[a].weight == 0
    }

    /// Node `i` ends a stored word.
    pub closed spec fn word_at(&self, i: int) -> bool {
        0 <= i < self.len() && self.nodes@[i].is_word
    }

    pub closed spec fn is_word_path(&self, w: Seq<char>) -> bool {
        exists|i: int| #[trigger] self.word_at(i) && self.paths@[i] == w
    }

    pub closed spec fn node_of(&self, w: Seq<char>) -> int {
        choose|i: int| 0 <= i < self.len() && self.paths@[i] == w
    }

    /// The stored words and their weights.
    pub closed spec fn words(&self) -> Map<Seq<char>, u32> {
        Map::new(|w: Seq<char>| self.is_word_path(w), |w: Seq<char>| self.nodes@[self.node_of(w)].weight)
    }

    proof fn lemma_word_at(&self, i: int)
        requires
            self.wf(),
            0 <= i < self.len(),
        ensures
            self.nodes@[i].is_word ==> self.words().contains_key(self.paths@[i]) && self.words()[self.paths@[i]] == self.nodes@[i].weight,
            !self.nodes@[i].is_word ==> !self.words().contains_key(self.paths@[i]),
            self.node_of(self.paths@[i]) == i,
    {
        let w = self.paths@[i];
        assert(0 <= i < self.len() && self.paths@[i] == w);
        let k = self.node_of(w);
        assert(self.paths@[k] == w);
        if self.nodes@[i].is_word {
            assert(self.word_at(i));
        } else {
            if self.is_word_path(w) {
                let j = choose|j: int| #[trigger] self.word_at(j) && self.paths@[j] == w;
                assert(self.paths@[j] == self.paths@[i]);
            }
        }
    }

    proof fn lemma_word_in_view(&self, w: Seq<char>)
        requires
            self.wf(),
            self.words().contains_key(w),
        ensures
            0 <= self.node_of(w) < self.len(),
            self.paths@[self.node_of(w)] == w,
            self.nodes@[self.node_of(w)].is_word,
            self.words()[w] == self.nodes@[self.node_of(w)].weight,
    {
        let j = choose|j: int| #[trigger] self.word_at(j) && self.paths@[j] == w;
        self.lemma_word_at(j);
    }

    /// The child of `i` reached by `c`, if any.
    fn find_child(&self, i: usize, c: char) -> (r: Option<usize>)
        requires
            self.wf(),
            i < self.len(),
        ensures
            match r {
                Some(j) => j < self.len() && self.has_edge(i as int, c, j as int) && self.paths@[j as int] == self.paths@[i as int].push(c),
                None => forall|t: int| 0 <= t < self.num_children(i as int) ==> (#[trigger] self.child(i as int, t)).0 != c,
            },
    {
        let children = &self.nodes[i].children;
        let mut t: usize = 0;
        while t < children.len()
            invariant
                self.wf(),
                i < self.len(),
                children@ == self.nodes@[i as int].children@,
                t <= children@.len(),
                forall|s: int| 0 <= s < t ==> (#[trigger] self.child(i as int, s)).0 != c,
            decreases children@.len() - t,
        {
            let (ch, j) = children[t];
            if ch == c {
                assert(self.child(i as int, t as int) == (c, j));
                return Some(j);
            }
            assert(self.child(i as int, t as int).0 == ch);
            t = t + 1;
        }
        None
    }

    /// No node has the path `paths[i] + c` when `i` has no child for `c`.
    proof fn lemma_no_path_without_edge(&self, i: int, c: char)
        requires
            self.wf(),
            0 <= i < self.len(),
            forall|t: int| 0 <= t < self.num_children(i) ==> (#[trigger] self.child(i, t)).0 != c,
        ensures
            forall|k: int| 0 <= k < self.len() ==> self.paths@[k] != self.paths@[i].push(c),
    {
        assert forall|k: int| 0 <= k < self.len() implies self.paths@[k] != self.paths@[i].push(c) by {
            if self.paths@[k] == self.paths@[i].push(c) {
                if k == 0 {
                    assert(self.paths@[0].len() == 0);
                } else {
                    let p = self.parent@[k];
                    assert(0 <= p < k);
                    assert(self.has_edge(p, self.paths@[k].last(), k));
                    let t = choose|t: int| 0 <= t < self.num_children(p) && #[trigger] self.child(p, t) == (self.paths@[k].last(), k as usize);
                    assert(k as usize as int == k);
                    assert(self.paths@[k] == self.paths@[p].push(self.paths@[k].last()));
                    assert(self.paths@[p] == self.paths@[k].drop_last());
                    assert(self.paths@[i] == self.paths@[k].drop_last());
                    assert(p == i);
                    assert(self.child(i, t).0 == c);
                }
            }
        }
    }

    /// Every prefix of a node's path is the path of some node.
    proof fn lemma_prefix_node(&self, k: int, m: int) -> (a: int)
        requires
            self.wf(),
            0 <= k < self.len(),
            0 <= m <= self.paths@[k].len(),
        ensures
            0 <= a < self.len(),
            self.paths@[a] == self.paths@[k].take(m),
        decreases k,
    {
        if m == self.paths@[k].len() {
            assert(self.paths@[k].take(m) == self.paths@[k]);
            k
        } else {
            assert(k != 0);
            let p = self.parent@[k];
            assert(self.has_edge(p, self.paths@[k].last(), k));
                    let t = choose|t: int| 0 <= t < self.num_children(p) && #[trigger] self.child(p, t) == (self.paths@[k].last(), k as usize);
                    assert(k as usize as int == k);
            assert(self.paths@[k] == self.paths@[p].push(self.paths@[k].last()));
            let a = self.lemma_prefix_node(p, m);
            assert(self.paths@[p].take(m) == self.paths@[k].take(m));
            a
        }
    }

    /// A node whose path extends `paths[i]` by at least one character lies
    /// under the child of `i` for the next character of that path.
    proof fn lemma_child_toward(&self, i: int, w: Seq<char>, k: int) -> (t: int)
        requires
            self.wf(),
            0 <= i < self.len(),
            0 <= k < self.len(),
            self.paths@[k] == w,
            self.paths@[i].is_prefix_of(w),
            w.len() > self.paths@[i].len(),
        ensures
            0 <= t < self.num_children(i),
            self.child(i, t).0 == w[self.paths@[i].len() as int],
    {
        let d = self.paths@[i].len() as int;
        let a = self.lemma_prefix_node(k, d + 1);
        assert(self.paths@[a].len() == d + 1);
        assert(a != 0);
        let p = self.parent@[a];
        assert(self.has_edge(p, self.paths@[a].last(), a));
        let t = choose|t: int| 0 <= t < self.num_children(p) && #[trigger] self.child(p, t) == (self.paths@[a].last(), a as usize);
        assert(a as usize as int == a);
        assert(self.paths@[a] == self.paths@[p].push(self.paths@[a].last()));
        assert(self.paths@[p] == w.take(d));
        assert(self.paths@[i] == w.take(d));
        assert(p == i);
        t
    }
}

impl Trie {
    /// An empty trie: only the root.
    pub fn new() -> (t: Self)
        ensures
            t.wf(),
            t@ == Map::<Seq<char>, u32>::empty(),
            t@.dom().finite(),
    {
        let mut nodes: Vec<TrieNode> = Vec::new();
        nodes.push(TrieNode::new());
        let ghost paths = seq![Seq::<char>::empty()];
        let ghost parent = seq![0int];
        let t = Trie { nodes, paths: Ghost(paths), parent: Ghost(parent) };
        proof {
            assert(t.words() =~= Map::<Seq<char>, u32>::empty()) by {
                assert forall|w: Seq<char>| !t.is_word_path(w) by {
                    if t.is_word_path(w) {
                        let i = choose|i: int| #[trigger] t.word_at(i) && t.paths@[i] == w;
                    }
                }
            }
        }
        t
    }

    /// Appends a node for `paths[i] + c` as a new child of `i`.
    fn add_child(&mut self, i: usize, c: char) -> (j: usize)
        requires
            old(self).wf(),
            i < old(self).len(),
            forall|t: int| 0 <= t < old(self).num_children(i as int) ==> (#[trigger] old(self).child(i as int, t)).0 != c,
        ensures
            final(self).wf(),
            j < final(self).len(),
            final(self).paths@[j as int] == old(self).paths@[i as int].push(c),
            final(self)@ == old(self)@,
    {
        proof {
            old(self).lemma_no_path_without_edge(i as int, c);
        }
        let ghost old_t = *self;
        let j = self.nodes.len();
        self.nodes.push(TrieNode::new());
        let _ = self.nodes.len();
        self.nodes[i].children.push((c, j));
        self.paths = Ghost(self.paths@.push(self.paths@[i as int].push(c)));
        self.parent = Ghost(self.parent@.push(i as int));
        proof {
            let n = self.len();
            assert(n == old_t.len() + 1);
            assert forall|a: int, t: int| 0 <= a < n && 0 <= t < self.num_children(a) implies {
                let (ch, b) = #[trigger] self.child(a, t);
                &&& a < b < n
                &&& self.paths@[b as int] == self.paths@[a].push(ch)
            } by {
                if a < old_t.len() && !(a == i && t == old_t.num_children(a)) {
                    assert(self.child(a, t) == old_t.child(a, t));
                }
            }
            assert forall|a: int, t1: int, t2: int|
                0 <= a < n && 0 <= t1 < self.num_children(a) && 0 <= t2 < self.num_children(a) && t1 != t2
                implies (#[trigger] self.child(a, t1)).0 != (#[trigger] self.child(a, t2)).0 by {
                if a == i {
                    if t1 < old_t.num_children(a) {
                        assert(self.child(a, t1) == old_t.child(a, t1));
                    }
                    if t2 < old_t.num_children(a) {
                        assert(self.child(a, t2) == old_t.child(a, t2));
                    }
                } else {
                    assert(self.child(a, t1) == old_t.child(a, t1));
                    assert(self.child(a, t2) == old_t.child(a, t2));
                }
            }
            assert forall|k: int| 1 <= k < n implies {
                &&& 0 <= #[trigger] self.parent@[k] < k
                &&& self.has_edge(self.parent@[k], self.paths@[k].last(), k)
            } by {
                if k < old_t.len() {
                    let p = old_t.parent@[k];
                    assert(old_t.has_edge(p, old_t.paths@[k].last(), k));
                    let t = choose|t: int| 0 <= t < old_t.num_children(p) && #[trigger] old_t.child(p, t) == (old_t.paths@[k].last(), k as usize);
                    assert(self.child(p, t) == old_t.child(p, t));
                } else {
                    let t = old_t.num_children(i as int);
                    assert(self.child(i as int, t) == (c, j));
                    assert(self.paths@[k].last() == c);
                }
            }
            assert(self.words() =~= old_t.words()) by {
                assert forall|w: Seq<char>| self.is_word_path(w) == old_t.is_word_path(w) by {
                    if self.is_word_path(w) {
                        let a = choose|a: int| #[trigger] self.word_at(a) && self.paths@[a] == w;
                        assert(a != j);
                        assert(old_t.word_at(a));
                    }
                    if old_t.is_word_path(w) {
                        let a = choose|a: int| #[trigger] old_t.word_at(a) && old_t.paths@[a] == w;
                        assert(self.word_at(a));
                    }
                }
                assert forall|w: Seq<char>| #[trigger] self.words().contains_key(w) implies self.words()[w] == old_t.words()[w] by {
                    let a = choose|a: int| #[trigger] self.word_at(a) && self.paths@[a] == w;
                    self.lemma_word_at(a);
                    old_t.lemma_word_at(a);
                }
            }
        }
        j
    }

    /// Marks node `i` as a word with the larger of its weight and `weight`.
    fn set_word(&mut self, i: usize, weight: u32)
        requires
            old(self).wf(),
            i < old(self).len(),
        ensures
            final(self).wf(),
            final(self)@ == old(self)@.insert(
                old(self).paths@[i as int],
                merged_weight(old(self)@, old(self).paths@[i as int], weight),
            ),
    {
        let ghost old_t = *self;
        proof {
            old_t.lemma_word_at(i as int);
        }
        let cur = self.nodes[i].weight;
        let was_word = self.nodes[i].is_word;
        let nw = if was_word && cur > weight {
            cur
        } else {
            weight
        };
        self.nodes[i].is_word = true;
        self.nodes[i].weight = if cur > weight { cur } else { weight };
        proof {
            let n = self.len();
            assert forall|a: int| 0 <= a < n implies #[trigger] self.nodes@[a].children == old_t.nodes@[a].children by {}
            assert forall|a: int, t: int| 0 <= a < n && 0 <= t < self.num_children(a) implies #[trigger] self.child(a, t) == old_t.child(a, t) by {
                assert(self.nodes@[a].children == old_t.nodes@[a].children);
            }
            assert forall|k: int| 1 <= k < n implies self.has_edge(self.parent@[k], self.paths@[k].last(), k) by {
                let p = old_t.parent@[k];
                assert(old_t.has_edge(p, old_t.paths@[k].last(), k));
                let t = choose|t: int| 0 <= t < old_t.num_children(p) && #[trigger] old_t.child(p, t) == (old_t.paths@[k].last(), k as usize);
                assert(self.child(p, t) == old_t.child(p, t));
            }
            assert forall|a: int| 0 <= a < n && !(#[trigger] self.nodes@[a]).is_word implies self.nodes@[a].weight == 0 by {
                if a != i {
                    assert(self.nodes@[a] == old_t.nodes@[a]);
                }
            }
            assert(self.wf());
            let w0 = old_t.paths@[i as int];
            assert(self.words() =~= old_t.words().insert(w0, merged_weight(old_t.words(), w0, weight))) by {
                assert forall|w: Seq<char>| self.is_word_path(w) == (old_t.is_word_path(w) || w == w0) by {
                    if self.is_word_path(w) {
                        let a = choose|a: int| #[trigger] self.word_at(a) && self.paths@[a] == w;
                        if a != i {
                            assert(old_t.word_at(a));
                        }
                    }
                    if old_t.is_word_path(w) {
                        let a = choose|a: int| #[trigger] old_t.word_at(a) && old_t.paths@[a] == w;
                        assert(self.word_at(a));
                    }
                    if w == w0 {
                        assert(self.word_at(i as int));
                    }
                }
                assert forall|w: Seq<char>| #[trigger] self.words().contains_key(w) implies self.words()[w] == old_t.words().insert(w0, merged_weight(old_t.words(), w0, weight))[w] by {
                    let a = choose|a: int| #[trigger] self.word_at(a) && self.paths@[a] == w;
                    self.lemma_word_at(a);
                    old_t.lemma_word_at(a);
                }
            }
        }
    }

    /// Inserts `word` with `weight`; a word already present keeps the larger
    /// of its two weights.
    pub fn insert(&mut self, word: &str, weight: u32)
        requires
            old(self).wf(),
        ensures
            final(self).wf(),
            final(self)@ == old(self)@.insert(word@, merged_weight(old(self)@, word@, weight)),
            final(self)@.dom().finite(),
    {
        let chars = str_chars(word);
        self.insert_chars(&chars, weight);
        proof {
            self.lemma_words_finite();
        }
    }

    /// `insert` on the characters of a word.
    pub fn insert_chars(&mut self, chars: &Vec<char>, weight: u32)
        requires
            old(self).wf(),
        ensures
            final(self).wf(),
            final(self)@ == old(self)@.insert(chars@, merged_weight(old(self)@, chars@, weight)),
    {
        let ghost old_view = self@;
        let mut node: usize = 0;
        let mut k: usize = 0;
        while k < chars.len()
            invariant
                self.wf(),
                k <= chars@.len(),
                node < self.len(),
                self.paths@[node as int] == chars@.take(k as int),
                self@ == old_view,
            decreases chars@.len() - k,
        {
            let c = chars[k];
            match self.find_child(node, c) {
                Some(j) => {
                    node = j;
                },
                None => {
                    node = self.add_child(node, c);
                },
            }
            assert(chars@.take(k + 1) == chars@.take(k as int).push(c));
            k = k + 1;
        }
        assert(chars@.take(k as int) == chars@);
        self.set_word(node, weight);
    }
}

/// `p + c` is a prefix of `w` exactly when `p` is and `w` continues with `c`.
pub proof fn lemma_prefix_push(p: Seq<char>, c: char, w: Seq<char>)
    ensures
        p.push(c).is_prefix_of(w) <==> (p.is_prefix_of(w) && w.len() > p.len() && w[p.len() as int] == c),
{
    if p.push(c).is_prefix_of(w) {
        assert(w.subrange(0, p.len() as int) =~= w.subrange(0, p.len() + 1int).drop_last());
        assert(w[p.len() as int] == w.subrange(0, p.len() + 1int)[p.len() as int]);
    }
    if p.is_prefix_of(w) && w.len() > p.len() && w[p.len() as int] == c {
        assert(w.subrange(0, p.len() + 1int) =~= w.subrange(0, p.len() as int).push(c));
    }
}

/// The word/weight pairs of a listing, with words taken by their view.
pub open spec fn pair_views(r: Seq<(Vec<char>, u32)>) -> Seq<(Seq<char>, u32)> {
    r.map_values(|x: (Vec<char>, u32)| (x.0@, x.1))
}

pub open spec fn string_pair_views(r: Seq<(String, u32)>) -> Seq<(Seq<char>, u32)> {
    r.map_values(|x: (String, u32)| (x.0@, x.1))
}

/// Every entry of `r` is a word of `m` with its weight and starts with `p`;
/// every word of `m` that starts with `p` is listed; no word is listed twice.
pub open spec fn lists_prefix_words(m: Map<Seq<char>, u32>, p: Seq<char>, r: Seq<(Seq<char>, u32)>) -> bool {
    &&& forall|x: int|
        0 <= x < r.len() ==> m.contains_key((#[trigger] r[x]).0) && m[r[x].0] == r[x].1 && p.is_prefix_of(r[x].0)
    &&& forall|w: Seq<char>| m.contains_key(w) && p.is_prefix_of(w) ==> exists|x: int| 0 <= x < r.len() && (#[trigger] r[x]).0 == w
    &&& forall|x: int, y: int| 0 <= x < y < r.len() ==> (#[trigger] r[x]).0 != (#[trigger] r[y]).0
}

/// Weights never increase along `r`.
pub open spec fn by_weight_desc(r: Seq<(Seq<char>, u32)>) -> bool {
    forall|x: int, y: int| 0 <= x < y < r.len() ==> (#[trigger] r[x]).1 >= (#[trigger] r[y]).1
}

impl Trie {
    /// Appends to `out` the words stored under node `i` (whose path `word` holds).
    fn collect(&self, i: usize, word: &mut Vec<char>, out: &mut Vec<(Vec<char>, u32)>)
        requires
            self.wf(),
            i < self.len(),
            old(word)@ == self.paths@[i as int],
        ensures
            final(word)@ == old(word)@,
            final(out)@.len() >= old(out)@.len(),
            final(out)@.subrange(0, old(out)@.len() as int) == old(out)@,
            lists_prefix_words(
                self@,
                self.paths@[i as int],
                pair_views(final(out)@).subrange(old(out)@.len() as int, final(out)@.len() as int),
            ),
        decreases self.len() - i,
    {
        let ghost base = out@.len() as int;
        let ghost old_out = out@;
        let ghost p = self.paths@[i as int];
        proof {
            self.lemma_word_at(i as int);
        }
        if self.nodes[i].is_word {
            let w = copy_range(word, 0, word.len());
            assert(word@.subrange(0, word@.len() as int) == word@);
            out.push((w, self.nodes[i].weight));
            assert(pair_views(out@)[base].0 == p);
        }
        assert forall|w: Seq<char>|
            self@.contains_key(w) && p.is_prefix_of(w) && (w == p || (w.len() > p.len() && exists|s: int| 0 <= s < 0 && #[trigger] self.child(i as int, s).0 == w[p.len() as int]))
            implies exists|x: int| base <= x < out@.len() && (#[trigger] pair_views(out@)[x]).0 == w by {
            assert(pair_views(out@)[base].0 == w);
        }
        let nc = self.nodes[i].children.len();
        let mut t: usize = 0;
        while t < nc
            invariant
                self.wf(),
                i < self.len(),
                p == self.paths@[i as int],
                nc == self.num_children(i as int),
                t <= nc,
                word@ == p,
                base == old_out.len(),
                out@.len() >= base,
                out@.subrange(0, base) == old_out,
                forall|x: int| base <= x < out@.len() ==> {
                    let e = #[trigger] pair_views(out@)[x];
                    &&& self@.contains_key(e.0)
                    &&& self@[e.0] == e.1
                    &&& p.is_prefix_of(e.0)
                    &&& (e.0 == p || exists|s: int| 0 <= s < t && p.push(#[trigger] self.child(i as int, s).0).is_prefix_of(e.0))
                },
                forall|w: Seq<char>|
                    self@.contains_key(w) && p.is_prefix_of(w) && (w == p || (w.len() > p.len() && exists|s: int| 0 <= s < t && #[trigger] self.child(i as int, s).0 == w[p.len() as int]))
                    ==> exists|x: int| base <= x < out@.len() && (#[trigger] pair_views(out@)[x]).0 == w,
                forall|x: int, y: int| base <= x < y < out@.len() ==> (#[trigger] pair_views(out@)[x]).0 != (#[trigger] pair_views(out@)[y]).0,
            decreases nc - t,
        {
            let (c, j) = self.nodes[i].children[t];
            assert(self.child(i as int, t as int) == (c, j));
            word.push(c);
            let ghost mid = out@.len() as int;
            let ghost before = out@;
            self.collect(j, word, out);
            word.pop();
            proof {
                let pc = p.push(c);
                assert(out@.subrange(0, mid) == before);
                assert forall|x: int| base <= x < mid implies #[trigger] pair_views(out@)[x] == pair_views(before)[x] by {
                    assert(out@[x] == out@.subrange(0, mid)[x]);
                }
                assert(out@.subrange(0, base) == old_out) by {
                    assert forall|x: int| 0 <= x < base implies out@.subrange(0, base)[x] == old_out[x] by {
                        assert(out@[x] == before[x]);
                        assert(before[x] == before.subrange(0, base)[x]);
                    }
                }
                let seg = pair_views(out@).subrange(mid, out@.len() as int);
                assert forall|x: int| mid <= x < out@.len() implies #[trigger] pair_views(out@)[x] == seg[x - mid] by {}
                assert forall|x: int| base <= x < out@.len() implies {
                    let e = #[trigger] pair_views(out@)[x];
                    &&& self@.contains_key(e.0)
                    &&& self@[e.0] == e.1
                    &&& p.is_prefix_of(e.0)
                    &&& (e.0 == p || exists|s: int| 0 <= s < t + 1 && p.push(#[trigger] self.child(i as int, s).0).is_prefix_of(e.0))
                } by {
                    let e = pair_views(out@)[x];
                    if x >= mid {
                        assert(seg[x - mid] == e);
                        lemma_prefix_push(p, c, e.0);
                        assert(p.push(self.child(i as int, t as int).0).is_prefix_of(e.0));
                    } else {
                        assert(pair_views(before)[x] == e);
                        if e.0 != p {
                            let s = choose|s: int| 0 <= s < t && p.push(#[trigger] self.child(i as int, s).0).is_prefix_of(e.0);
                            assert(p.push(self.child(i as int, s).0).is_prefix_of(e.0));
                        }
                    }
                }
                assert forall|w: Seq<char>|
                    self@.contains_key(w) && p.is_prefix_of(w) && (w == p || (w.len() > p.len() && exists|s: int| 0 <= s < t + 1 && #[trigger] self.child(i as int, s).0 == w[p.len() as int]))
                    implies exists|x: int| base <= x < out@.len() && (#[trigger] pair_views(out@)[x]).0 == w by {
                    if w != p && w[p.len() as int] == c {
                        lemma_prefix_push(p, c, w);
                        let y = choose|y: int| 0 <= y < seg.len() && (#[trigger] seg[y]).0 == w;
                        assert(pair_views(out@)[mid + y] == seg[y]);
                    } else {
                        if w != p {
                            let s = choose|s: int| 0 <= s < t + 1 && #[trigger] self.child(i as int, s).0 == w[p.len() as int];
                            assert(s != t);
                            assert(self.child(i as int, s).0 == w[p.len() as int]);
                        }
                        let x = choose|x: int| base <= x < before.len() && (#[trigger] pair_views(before)[x]).0 == w;
                        assert(pair_views(out@)[x] == pair_views(before)[x]);
                    }
                }
                assert forall|x: int, y: int| base <= x < y < out@.len() implies (#[trigger] pair_views(out@)[x]).0 != (#[trigger] pair_views(out@)[y]).0 by {
                    let ex = pair_views(out@)[x];
                    let ey = pair_views(out@)[y];
                    if y >= mid && x >= mid {
                        assert(seg[x - mid] == ex);
                        assert(seg[y - mid] == ey);
                    } else if y >= mid {
                        assert(seg[y - mid] == ey);
                        assert(pair_views(before)[x] == ex);
                        lemma_prefix_push(p, c, ey.0);
                        if ex.0 == ey.0 {
                            if ex.0 != p {
                                let s = choose|s: int| 0 <= s < t && p.push(#[trigger] self.child(i as int, s).0).is_prefix_of(ex.0);
                                lemma_prefix_push(p, self.child(i as int, s).0, ex.0);
                                assert(self.child(i as int, s).0 != self.child(i as int, t as int).0);
                            }
                        }
                    } else {
                        assert(pair_views(before)[x] == ex);
                        assert(pair_views(before)[y] == ey);
                    }
                }
            }
            t = t + 1;
        }
        proof {
            let seg = pair_views(out@).subrange(base, out@.len() as int);
            assert forall|x: int| base <= x < out@.len() implies #[trigger] pair_views(out@)[x] == seg[x - base] by {}
            assert forall|x: int| 0 <= x < seg.len() implies
                self@.contains_key((#[trigger] seg[x]).0) && self@[seg[x].0] == seg[x].1 && p.is_prefix_of(seg[x].0) by {
                assert(pair_views(out@)[x + base] == seg[x]);
            }
            assert forall|w: Seq<char>| self@.contains_key(w) && p.is_prefix_of(w) implies exists|x: int| 0 <= x < seg.len() && (#[trigger] seg[x]).0 == w by {
                if w != p {
                    self.lemma_word_in_view(w);
                    let k = self.node_of(w);
                    assert(w.len() > p.len()) by {
                        if w.len() <= p.len() {
                            assert(w =~= p);
                        }
                    }
                    let s = self.lemma_child_toward(i as int, w, k);
                    assert(self.child(i as int, s).0 == w[p.len() as int]);
                }
                let x = choose|x: int| base <= x < out@.len() && (#[trigger] pair_views(out@)[x]).0 == w;
                assert(seg[x - base] == pair_views(out@)[x]);
            }
            assert forall|x: int, y: int| 0 <= x < y < seg.len() implies (#[trigger] seg[x]).0 != (#[trigger] seg[y]).0 by {
                assert(pair_views(out@)[x + base] == seg[x]);
                assert(pair_views(out@)[y + base] == seg[y]);
            }
        }
    }
}

/// The weights of a listing, in order.
pub open spec fn weights_of(r: Seq<(Vec<char>, u32)>) -> Seq<u32> {
    r.map_values(|x: (Vec<char>, u32)| x.1)
}

fn weights_vec(items: &Vec<(Vec<char>, u32)>) -> (w: Vec<u32>)
    ensures
        w@ == weights_of(items@),
{
    let mut w: Vec<u32> = Vec::new();
    let mut k: usize = 0;
    while k < items.len()
        invariant
            k <= items@.len(),
            w@ == weights_of(items@).take(k as int),
        decreases items@.len() - k,
    {
        w.push(items[k].1);
        k = k + 1;
        assert(weights_of(items@).take(k as int) == weights_of(items@).take(k - 1).push(items@[k - 1].1));
    }
    assert(weights_of(items@).take(k as int) == weights_of(items@));
    w
}

/// A listing of `m`'s words under `p`, reordered by descending weight.
fn rank_listing(items: &Vec<(Vec<char>, u32)>, Ghost(m): Ghost<Map<Seq<char>, u32>>, Ghost(p): Ghost<Seq<char>>) -> (r: Vec<(String, u32)>)
    requires
        lists_prefix_words(m, p, pair_views(items@)),
    ensures
        lists_prefix_words(m, p, string_pair_views(r@)),
        by_weight_desc(string_pair_views(r@)),
{
    let weights = weights_vec(items);
    let perm = order_by_weight_desc(&weights);
    let n = items.len();
    let mut r: Vec<(String, u32)> = Vec::new();
    let mut k: usize = 0;
    while k < n
        invariant
            n == items@.len(),
            weights@ == weights_of(items@),
            stable_desc_order(weights@, perm@),
            k <= n,
            r@.len() == k,
            forall|a: int| 0 <= a < k ==> #[trigger] string_pair_views(r@)[a] == pair_views(items@)[perm@[a] as int],
        decreases n - k,
    {
        let x = perm[k];
        let s = chars_to_string(&items[x].0);
        let ghost old_r = r@;
        r.push((s, items[x].1));
        assert forall|a: int| 0 <= a < k implies #[trigger] string_pair_views(r@)[a] == string_pair_views(old_r)[a] by {
            assert(r@[a] == old_r[a]);
        }
        assert(string_pair_views(r@)[k as int] == pair_views(items@)[perm@[k as int] as int]);
        k = k + 1;
    }
    proof {
        let rv = string_pair_views(r@);
        let iv = pair_views(items@);
        assert forall|x: int| 0 <= x < rv.len() implies m.contains_key((#[trigger] rv[x]).0) && m[rv[x].0] == rv[x].1 && p.is_prefix_of(rv[x].0) by {
            assert(rv[x] == iv[perm@[x] as int]);
        }
        assert forall|w: Seq<char>| m.contains_key(w) && p.is_prefix_of(w) implies exists|x: int| 0 <= x < rv.len() && (#[trigger] rv[x]).0 == w by {
            let y = choose|y: int| 0 <= y < iv.len() && (#[trigger] iv[y]).0 == w;
            assert(occurs(perm@, n as int, y));
            let a = choose|a: int| 0 <= a < n && #[trigger] perm@[a] == y;
            assert(rv[a] == iv[y]);
        }
        assert forall|x: int, y: int| 0 <= x < y < rv.len() implies (#[trigger] rv[x]).0 != (#[trigger] rv[y]).0 by {
            assert(rv[x] == iv[perm@[x] as int]);
            assert(rv[y] == iv[perm@[y] as int]);
            assert(perm@[x] != perm@[y]);
            if perm@[x] < perm@[y] {
                assert(iv[perm@[x] as int].0 != iv[perm@[y] as int].0);
            } else {
                assert(iv[perm@[y] as int].0 != iv[perm@[x] as int].0);
            }
        }
        assert forall|x: int, y: int| 0 <= x < y < rv.len() implies (#[trigger] rv[x]).1 >= (#[trigger] rv[y]).1 by {
            assert(rv[x] == iv[perm@[x] as int]);
            assert(rv[y] == iv[perm@[y] as int]);
            assert(weights@[perm@[x] as int] >= weights@[perm@[y] as int]);
        }
    }
    r
}

impl Trie {
    /// The node whose path is `prefix`, if there is one; when there is none,
    /// no stored word starts with `prefix`.
    fn find_node(&self, prefix: &Vec<char>) -> (r: Option<usize>)
        requires
            self.wf(),
        ensures
            match r {
                Some(i) => i < self.len() && self.paths@[i as int] == prefix@,
                None => forall|w: Seq<char>| self@.contains_key(w) ==> !prefix@.is_prefix_of(w),
            },
    {
        let mut node: usize = 0;
        let mut k: usize = 0;
        while k < prefix.len()
            invariant
                self.wf(),
                k <= prefix@.len(),
                node < self.len(),
                self.paths@[node as int] == prefix@.take(k as int),
            decreases prefix@.len() - k,
        {
            let c = prefix[k];
            match self.find_child(node, c) {
                Some(j) => {
                    node = j;
                },
                None => {
                    proof {
                        assert forall|w: Seq<char>| self@.contains_key(w) implies !prefix@.is_prefix_of(w) by {
                            if prefix@.is_prefix_of(w) {
                                self.lemma_word_in_view(w);
                                let kk = self.node_of(w);
                                assert(prefix@.take(k as int) =~= w.take(k as int));
                                assert(self.paths@[node as int].is_prefix_of(w));
                                let t = self.lemma_child_toward(node as int, w, kk);
                                assert(w[k as int] == prefix@[k as int]);
                            }
                        }
                    }
                    return None;
                },
            }
            assert(prefix@.take(k + 1) == prefix@.take(k as int).push(c));
            k = k + 1;
        }
        assert(prefix@.take(k as int) == prefix@);
        Some(node)
    }

    /// All stored words that start with `prefix`, with their weights, by
    /// descending weight.
    pub fn search_chars(&self, prefix: &Vec<char>) -> (r: Vec<(String, u32)>)
        requires
            self.wf(),
        ensures
            lists_prefix_words(self@, prefix@, string_pair_views(r@)),
            by_weight_desc(string_pair_views(r@)),
    {
        match self.find_node(prefix) {
            None => {
                let r: Vec<(String, u32)> = Vec::new();
                assert forall|w: Seq<char>| self@.contains_key(w) && prefix@.is_prefix_of(w) implies exists|x: int| 0 <= x < string_pair_views(r@).len() && (#[trigger] string_pair_views(r@)[x]).0 == w by {}
                r
            },
            Some(i) => {
                let mut word = copy_range(prefix, 0, prefix.len());
                assert(prefix@.subrange(0, prefix@.len() as int) == prefix@);
                let mut items: Vec<(Vec<char>, u32)> = Vec::new();
                self.collect(i, &mut word, &mut items);
                assert(pair_views(items@).subrange(0, items@.len() as int) == pair_views(items@));
                rank_listing(&items, Ghost(self@), Ghost(prefix@))
            },
        }
    }

    /// Searches every stored word that starts with `prefix`; the result is
    /// ordered by descending weight.
    pub fn search(&self, prefix: &str) -> (r: Vec<(String, u32)>)
        requires
            self.wf(),
        ensures
            lists_prefix_words(self@, prefix@, string_pair_views(r@)),
            by_weight_desc(string_pair_views(r@)),
    {
        let chars = str_chars(prefix);
        self.search_chars(&chars)
    }
}

impl Trie {
    /// Paths of the word nodes among the first `k` nodes.
    closed spec fn word_paths_upto(&self, k: int) -> Set<Seq<char>> {
        Set::new(|w: Seq<char>| exists|i: int| 0 <= i < k && #[trigger] self.word_at(i) && self.paths@[i] == w)
    }

    /// Number of word nodes among the first `k` nodes.
    closed spec fn count_upto(&self, k: int) -> nat
        decreases k,
    {
        if k <= 0 {
            0
        } else {
            self.count_upto(k - 1) + if self.word_at(k - 1) {
                1nat
            } else {
                0nat
            }
        }
    }

    proof fn lemma_count_upto(&self, k: int)
        requires
            self.wf(),
            0 <= k <= self.len(),
        ensures
            self.word_paths_upto(k).finite(),
            self.word_paths_upto(k).len() == self.count_upto(k),
        decreases k,
    {
        if k == 0 {
            assert(self.word_paths_upto(0) =~= Set::empty());
        } else {
            self.lemma_count_upto(k - 1);
            let prev = self.word_paths_upto(k - 1);
            if self.word_at(k - 1) {
                assert(self.word_paths_upto(k) =~= prev.insert(self.paths@[k - 1]));
                if prev.contains(self.paths@[k - 1]) {
                    let i = choose|i: int| 0 <= i < k - 1 && #[trigger] self.word_at(i) && self.paths@[i] == self.paths@[k - 1];
                    assert(self.paths@[i] != self.paths@[k - 1]);
                }
            } else {
                assert(self.word_paths_upto(k) =~= prev);
            }
        }
    }

    /// A trie stores finitely many words, so adding a new word raises the
    /// count of words by one.
    pub proof fn lemma_words_finite(&self)
        requires
            self.wf(),
        ensures
            self@.dom().finite(),
    {
        self.lemma_count_upto(self.len());
        assert(self.words().dom() =~= self.word_paths_upto(self.len()));
    }

    /// Number of stored words.
    pub fn word_count(&self) -> (n: usize)
        requires
            self.wf(),
        ensures
            self@.dom().finite(),
            n == self@.len(),
    {
        let mut n: usize = 0;
        let mut k: usize = 0;
        while k < self.nodes.len()
            invariant
                self.wf(),
                k <= self.len(),
                n == self.count_upto(k as int),
                n <= k,
            decreases self.len() - k,
        {
            if self.nodes[k].is_word {
                n = n + 1;
            }
            k = k + 1;
        }
        proof {
            self.lemma_count_upto(self.len());
            assert(self.words().dom() =~= self.word_paths_upto(self.len()));
        }
        n
    }

    /// The heaviest stored word that starts with `prefix`; of equally heavy
    /// ones, the alphabetically first.
    pub fn best_match(&self, prefix: &str) -> (r: Option<String>)
        requires
            self.wf(),
        ensures
            r is None <==> (forall|w: Seq<char>| self@.contains_key(w) ==> !prefix@.is_prefix_of(w)),
            r matches Some(b) ==> {
                &&& self@.contains_key(b@)
                &&& prefix@.is_prefix_of(b@)
                &&& forall|w: Seq<char>| self@.contains_key(w) && prefix@.is_prefix_of(w) ==> self@[w] <= self@[b@]
                &&& forall|w: Seq<char>|
                    self@.contains_key(w) && prefix@.is_prefix_of(w) && w != b@ ==> ranks_before(
                        (b@, self@[b@]),
                        (w, self@[w]),
                    )
            },
    {
        let results = self.search(prefix);
        let ghost rv = string_pair_views(results@);
        if results.len() > 0 {
            let k = first_ranked(&results);
            let b = results[k].0.clone();
            proof {
                assert(rv[k as int].0 == b@);
                assert forall|w: Seq<char>| self@.contains_key(w) && prefix@.is_prefix_of(w) && w != b@ implies ranks_before(
                    (b@, self@[b@]),
                    (w, self@[w]),
                ) by {
                    let x = choose|x: int| 0 <= x < rv.len() && (#[trigger] rv[x]).0 == w;
                    assert(x != k);
                }
                assert forall|w: Seq<char>| self@.contains_key(w) && prefix@.is_prefix_of(w) implies self@[w] <= self@[b@] by {
                    if w != b@ {
                        let x = choose|x: int| 0 <= x < rv.len() && (#[trigger] rv[x]).0 == w;
                        assert(x != k);
                    }
                }
            }
            Some(b)
        } else {
            proof {
                assert forall|w: Seq<char>| self@.contains_key(w) implies !prefix@.is_prefix_of(w) by {
                    if prefix@.is_prefix_of(w) {
                        let x = choose|x: int| 0 <= x < rv.len() && (#[trigger] rv[x]).0 == w;
                    }
                }
            }
            None
        }
    }
}

/// Word/weight/distance triples, with words taken by their view.
pub open spec fn triple_views(r: Seq<(Vec<char>, u32, usize)>) -> Seq<(Seq<char>, u32, usize)> {
    r.map_values(|x: (Vec<char>, u32, usize)| (x.0@, x.1, x.2))
}

pub open spec fn string_triple_views(r: Seq<(String, u32, usize)>) -> Seq<(Seq<char>, u32, usize)> {
    r.map_values(|x: (String, u32, usize)| (x.0@, x.1, x.2))
}

/// Every entry of `r` is a non-empty word of `m` that starts with `p`, with
/// its weight and its distance to `q`, and that distance is at most `d`;
/// every such word of `m` is listed; no word is listed twice.
pub open spec fn lists_near_words(
    m: Map<Seq<char>, u32>,
    q: Seq<char>,
    d: nat,
    p: Seq<char>,
    r: Seq<(Seq<char>, u32, usize)>,
) -> bool {
    &&& forall|x: int|
        0 <= x < r.len() ==> {
            let e = #[trigger] r[x];
            &&& m.contains_key(e.0)
            &&& m[e.0] == e.1
            &&& p.is_prefix_of(e.0)
            &&& e.0.len() > 0
            &&& e.2 == edit_distance(q, e.0)
            &&& e.2 <= d
        }
    &&& forall|w: Seq<char>|
        m.contains_key(w) && p.is_prefix_of(w) && w.len() > 0 && edit_distance(q, w) <= d ==> exists|x: int|
            0 <= x < r.len() && (#[trigger] r[x]).0 == w
    &&& forall|x: int, y: int| 0 <= x < y < r.len() ==> (#[trigger] r[x]).0 != (#[trigger] r[y]).0
}

impl Trie {
    /// A node lies no deeper than its index.
    proof fn lemma_depth(&self, k: int)
        requires
            self.wf(),
            0 <= k < self.len(),
        ensures
            self.paths@[k].len() <= k,
        decreases k,
    {
        if k > 0 {
            let p = self.parent@[k];
            assert(self.has_edge(p, self.paths@[k].last(), k));
            let t = choose|t: int| 0 <= t < self.num_children(p) && #[trigger] self.child(p, t) == (self.paths@[k].last(), k as usize);
            assert(k as usize as int == k);
            assert(self.paths@[k] == self.paths@[p].push(self.paths@[k].last()));
            self.lemma_depth(p);
        }
    }

    /// Appends to `out` the words under node `i` whose distance to `q` is at
    /// most `d`; `row` is the distance row of node `i`'s path and `prev_row`
    /// that of its parent's.
    fn fuzzy_collect(
        &self,
        i: usize,
        word: &mut Vec<char>,
        row: &Vec<usize>,
        prev_row: &Vec<usize>,
        q: &Vec<char>,
        d: usize,
        out: &mut Vec<(Vec<char>, u32, usize)>,
    )
        requires
            self.wf(),
            1 <= i < self.len(),
            old(word)@ == self.paths@[i as int],
            row@ == row_of(q@, self.paths@[i as int]),
            prev_row@ == row_of(q@, self.paths@[i as int].drop_last()),
        ensures
            final(word)@ == old(word)@,
            final(out)@.len() >= old(out)@.len(),
            final(out)@.subrange(0, old(out)@.len() as int) == old(out)@,
            lists_near_words(
                self@,
                q@,
                d as nat,
                self.paths@[i as int],
                triple_views(final(out)@).subrange(old(out)@.len() as int, final(out)@.len() as int),
            ),
        decreases self.len() - i,
    {
        let ghost base = out@.len() as int;
        let ghost old_out = out@;
        let ghost p = self.paths@[i as int];
        let ghost m = self@;
        let n = q.len();
        let _ = row.len();
        proof {
            self.lemma_word_at(i as int);
            assert(p.len() >= 1) by {
                assert(self.paths@[i as int] != self.paths@[0]);
                if p.len() == 0 {
                    assert(p =~= self.paths@[0]);
                }
            }
            self.lemma_depth(i as int);
            crate::distance::lemma_osa_bound(q@, p, n as nat, p.len());
        }
        assert(n + 1 <= usize::MAX);
        let dist = row[n];
        assert(dist == edit_distance(q@, p));
        if self.nodes[i].is_word && dist <= d {
            let w = copy_range(word, 0, word.len());
            assert(word@.subrange(0, word@.len() as int) == word@);
            out.push((w, self.nodes[i].weight, dist));
            assert(triple_views(out@)[base].0 == p);
        }
        let mut all_far = true;
        let mut k: usize = 0;
        while k <= n
            invariant
                n == q@.len(),
                n + 1 <= usize::MAX,
                row@ == row_of(q@, p),
                k <= n + 1,
                all_far == forall|x: int| 0 <= x < k ==> row@[x] > d,
            decreases n + 1 - k,
        {
            if row[k] <= d {
                all_far = false;
            }
            k = k + 1;
        }
        if all_far {
            proof {
                assert forall|kk: nat| kk <= q@.len() implies #[trigger] osa(q@, p, kk, p.len()) > d as nat by {
                    assert(row@[kk as int] > d);
                    crate::distance::lemma_osa_bound(q@, p, kk, p.len());
                }
                assert forall|w: Seq<char>| p.is_prefix_of(w) implies edit_distance(q@, w) > d as nat by {
                    lemma_prune(q@, p, w, d as nat);
                }
                let seg = triple_views(out@).subrange(base, out@.len() as int);
                assert(out@.len() == base) by {
                    if out@.len() > base {
                        assert(triple_views(out@)[base].2 <= d);
                    }
                }
                assert(seg.len() == 0);
            }
            return;
        }
        assert(edit_distance(q@, p) <= d ==> m.contains_key(p) ==> exists|x: int| base <= x < out@.len() && (#[trigger] triple_views(out@)[x]).0 == p);
        let nc = self.nodes[i].children.len();
        let last = word[word.len() - 1];
        let mut t: usize = 0;
        while t < nc
            invariant
                self.wf(),
                1 <= i < self.len(),
                p == self.paths@[i as int],
                p.len() >= 1,
                p.len() <= i,
                m == self@,
                last == p.last(),
                row@ == row_of(q@, p),
                prev_row@ == row_of(q@, p.drop_last()),
                nc == self.num_children(i as int),
                t <= nc,
                word@ == p,
                base == old_out.len(),
                out@.len() >= base,
                out@.subrange(0, base) == old_out,
                forall|x: int| base <= x < out@.len() ==> {
                    let e = #[trigger] triple_views(out@)[x];
                    &&& m.contains_key(e.0)
                    &&& m[e.0] == e.1
                    &&& p.is_prefix_of(e.0)
                    &&& e.0.len() > 0
                    &&& e.2 == edit_distance(q@, e.0)
                    &&& e.2 <= d
                    &&& (e.0 == p || exists|s: int| 0 <= s < t && p.push(#[trigger] self.child(i as int, s).0).is_prefix_of(e.0))
                },
                forall|w: Seq<char>|
                    m.contains_key(w) && p.is_prefix_of(w) && edit_distance(q@, w) <= d && (w == p || (w.len() > p.len() && exists|s: int| 0 <= s < t && #[trigger] self.child(i as int, s).0 == w[p.len() as int]))
                    ==> exists|x: int| base <= x < out@.len() && (#[trigger] triple_views(out@)[x]).0 == w,
                forall|x: int, y: int| base <= x < y < out@.len() ==> (#[trigger] triple_views(out@)[x]).0 != (#[trigger] triple_views(out@)[y]).0,
            decreases nc - t,
        {
            let (c, j) = self.nodes[i].children[t];
            assert(self.child(i as int, t as int) == (c, j));
            proof {
                self.lemma_depth(j as int);
            }
            let child_row = next_row(row, prev_row, last, q, c, Ghost(p));
            word.push(c);
            let ghost mid = out@.len() as int;
            let ghost before = out@;
            assert(p.push(c).drop_last() == p);
            self.fuzzy_collect(j, word, &child_row, row, q, d, out);
            word.pop();
            proof {
                let pc = p.push(c);
                assert(out@.subrange(0, mid) == before);
                assert forall|x: int| base <= x < mid implies #[trigger] triple_views(out@)[x] == triple_views(before)[x] by {
                    assert(out@[x] == out@.subrange(0, mid)[x]);
                }
                assert(out@.subrange(0, base) == old_out) by {
                    assert forall|x: int| 0 <= x < base implies out@.subrange(0, base)[x] == old_out[x] by {
                        assert(out@[x] == before[x]);
                        assert(before[x] == before.subrange(0, base)[x]);
                    }
                }
                let seg = triple_views(out@).subrange(mid, out@.len() as int);
                assert forall|x: int| mid <= x < out@.len() implies #[trigger] triple_views(out@)[x] == seg[x - mid] by {}
                assert forall|x: int| base <= x < out@.len() implies {
                    let e = #[trigger] triple_views(out@)[x];
                    &&& m.contains_key(e.0)
                    &&& m[e.0] == e.1
                    &&& p.is_prefix_of(e.0)
                    &&& e.0.len() > 0
                    &&& e.2 == edit_distance(q@, e.0)
                    &&& e.2 <= d
                    &&& (e.0 == p || exists|s: int| 0 <= s < t + 1 && p.push(#[trigger] self.child(i as int, s).0).is_prefix_of(e.0))
                } by {
                    let e = triple_views(out@)[x];
                    if x >= mid {
                        assert(seg[x - mid] == e);
                        lemma_prefix_push(p, c, e.0);
                        assert(p.push(self.child(i as int, t as int).0).is_prefix_of(e.0));
                    } else {
                        assert(triple_views(before)[x] == e);
                        if e.0 != p {
                            let s = choose|s: int| 0 <= s < t && p.push(#[trigger] self.child(i as int, s).0).is_prefix_of(e.0);
                            assert(p.push(self.child(i as int, s).0).is_prefix_of(e.0));
                        }
                    }
                }
                assert forall|w: Seq<char>|
                    m.contains_key(w) && p.is_prefix_of(w) && edit_distance(q@, w) <= d && (w == p || (w.len() > p.len() && exists|s: int| 0 <= s < t + 1 && #[trigger] self.child(i as int, s).0 == w[p.len() as int]))
                    implies exists|x: int| base <= x < out@.len() && (#[trigger] triple_views(out@)[x]).0 == w by {
                    if w != p && w[p.len() as int] == c {
                        lemma_prefix_push(p, c, w);
                        let y = choose|y: int| 0 <= y < seg.len() && (#[trigger] seg[y]).0 == w;
                        assert(triple_views(out@)[mid + y] == seg[y]);
                    } else {
                        if w != p {
                            let s = choose|s: int| 0 <= s < t + 1 && #[trigger] self.child(i as int, s).0 == w[p.len() as int];
                            assert(s != t);
                            assert(self.child(i as int, s).0 == w[p.len() as int]);
                        }
                        let x = choose|x: int| base <= x < before.len() && (#[trigger] triple_views(before)[x]).0 == w;
                        assert(triple_views(out@)[x] == triple_views(before)[x]);
                    }
                }
                assert forall|x: int, y: int| base <= x < y < out@.len() implies (#[trigger] triple_views(out@)[x]).0 != (#[trigger] triple_views(out@)[y]).0 by {
                    let ex = triple_views(out@)[x];
                    let ey = triple_views(out@)[y];
                    if y >= mid && x >= mid {
                        assert(seg[x - mid] == ex);
                        assert(seg[y - mid] == ey);
                    } else if y >= mid {
                        assert(seg[y - mid] == ey);
                        assert(triple_views(before)[x] == ex);
                        lemma_prefix_push(p, c, ey.0);
                        if ex.0 == ey.0 {
                            if ex.0 != p {
                                let s = choose|s: int| 0 <= s < t && p.push(#[trigger] self.child(i as int, s).0).is_prefix_of(ex.0);
                                lemma_prefix_push(p, self.child(i as int, s).0, ex.0);
                                assert(self.child(i as int, s).0 != self.child(i as int, t as int).0);
                            }
                        }
                    } else {
                        assert(triple_views(before)[x] == ex);
                        assert(triple_views(before)[y] == ey);
                    }
                }
            }
            t = t + 1;
        }
        proof {
            let seg = triple_views(out@).subrange(base, out@.len() as int);
            assert forall|x: int| base <= x < out@.len() implies #[trigger] triple_views(out@)[x] == seg[x - base] by {}
            assert forall|x: int| 0 <= x < seg.len() implies {
                let e = #[trigger] seg[x];
                &&& m.contains_key(e.0)
                &&& m[e.0] == e.1
                &&& p.is_prefix_of(e.0)
                &&& e.0.len() > 0
                &&& e.2 == edit_distance(q@, e.0)
                &&& e.2 <= d
            } by {
                assert(triple_views(out@)[x + base] == seg[x]);
            }
            assert forall|w: Seq<char>| m.contains_key(w) && p.is_prefix_of(w) && w.len() > 0 && edit_distance(q@, w) <= d implies exists|x: int| 0 <= x < seg.len() && (#[trigger] seg[x]).0 == w by {
                if w != p {
                    self.lemma_word_in_view(w);
                    let k = self.node_of(w);
                    assert(w.len() > p.len()) by {
                        if w.len() <= p.len() {
                            assert(w =~= p);
                        }
                    }
                    let s = self.lemma_child_toward(i as int, w, k);
                    assert(self.child(i as int, s).0 == w[p.len() as int]);
                }
                let x = choose|x: int| base <= x < out@.len() && (#[trigger] triple_views(out@)[x]).0 == w;
                assert(seg[x - base] == triple_views(out@)[x]);
            }
            assert forall|x: int, y: int| 0 <= x < y < seg.len() implies (#[trigger] seg[x]).0 != (#[trigger] seg[y]).0 by {
                assert(triple_views(out@)[x + base] == seg[x]);
                assert(triple_views(out@)[y + base] == seg[y]);
            }
        }
    }
}

/// Weights never increase along `r`.
pub open spec fn by_weight_desc3(r: Seq<(Seq<char>, u32, usize)>) -> bool {
    forall|x: int, y: int| 0 <= x < y < r.len() ==> (#[trigger] r[x]).1 >= (#[trigger] r[y]).1
}

pub open spec fn weights_of3(r: Seq<(Vec<char>, u32, usize)>) -> Seq<u32> {
    r.map_values(|x: (Vec<char>, u32, usize)| x.1)
}

fn weights_vec3(items: &Vec<(Vec<char>, u32, usize)>) -> (w: Vec<u32>)
    ensures
        w@ == weights_of3(items@),
{
    let mut w: Vec<u32> = Vec::new();
    let mut k: usize = 0;
    while k < items.len()
        invariant
            k <= items@.len(),
            w@ == weights_of3(items@).take(k as int),
        decreases items@.len() - k,
    {
        w.push(items[k].1);
        k = k + 1;
        assert(weights_of3(items@).take(k as int) == weights_of3(items@).take(k - 1).push(items@[k - 1].1));
    }
    assert(weights_of3(items@).take(k as int) == weights_of3(items@));
    w
}

/// A near-word listing reordered by descending weight.
fn rank_near_listing(
    items: &Vec<(Vec<char>, u32, usize)>,
    Ghost(m): Ghost<Map<Seq<char>, u32>>,
    Ghost(q): Ghost<Seq<char>>,
    Ghost(d): Ghost<nat>,
    Ghost(p): Ghost<Seq<char>>,
) -> (r: Vec<(String, u32, usize)>)
    requires
        lists_near_words(m, q, d, p, triple_views(items@)),
    ensures
        lists_near_words(m, q, d, p, string_triple_views(r@)),
        by_weight_desc3(string_triple_views(r@)),
{
    let weights = weights_vec3(items);
    let perm = order_by_weight_desc(&weights);
    let n = items.len();
    let mut r: Vec<(String, u32, usize)> = Vec::new();
    let mut k: usize = 0;
    while k < n
        invariant
            n == items@.len(),
            weights@ == weights_of3(items@),
            stable_desc_order(weights@, perm@),
            k <= n,
            r@.len() == k,
            forall|a: int| 0 <= a < k ==> #[trigger] string_triple_views(r@)[a] == triple_views(items@)[perm@[a] as int],
        decreases n - k,
    {
        let x = perm[k];
        let s = chars_to_string(&items[x].0);
        let ghost old_r = r@;
        r.push((s, items[x].1, items[x].2));
        assert forall|a: int| 0 <= a < k implies #[trigger] string_triple_views(r@)[a] == string_triple_views(old_r)[a] by {
            assert(r@[a] == old_r[a]);
        }
        assert(string_triple_views(r@)[k as int] == triple_views(items@)[perm@[k as int] as int]);
        k = k + 1;
    }
    proof {
        let rv = string_triple_views(r@);
        let iv = triple_views(items@);
        assert forall|x: int| 0 <= x < rv.len() implies {
            let e = #[trigger] rv[x];
            &&& m.contains_key(e.0)
            &&& m[e.0] == e.1
            &&& p.is_prefix_of(e.0)
            &&& e.0.len() > 0
            &&& e.2 == edit_distance(q, e.0)
            &&& e.2 <= d
        } by {
            assert(rv[x] == iv[perm@[x] as int]);
        }
        assert forall|w: Seq<char>| m.contains_key(w) && p.is_prefix_of(w) && w.len() > 0 && edit_distance(q, w) <= d implies exists|x: int| 0 <= x < rv.len() && (#[trigger] rv[x]).0 == w by {
            let y = choose|y: int| 0 <= y < iv.len() && (#[trigger] iv[y]).0 == w;
            assert(occurs(perm@, n as int, y));
            let a = choose|a: int| 0 <= a < n && #[trigger] perm@[a] == y;
            assert(rv[a] == iv[y]);
        }
        assert forall|x: int, y: int| 0 <= x < y < rv.len() implies (#[trigger] rv[x]).0 != (#[trigger] rv[y]).0 by {
            assert(rv[x] == iv[perm@[x] as int]);
            assert(rv[y] == iv[perm@[y] as int]);
            assert(perm@[x] != perm@[y]);
            if perm@[x] < perm@[y] {
                assert(iv[perm@[x] as int].0 != iv[perm@[y] as int].0);
            } else {
                assert(iv[perm@[y] as int].0 != iv[perm@[x] as int].0);
            }
        }
        assert forall|x: int, y: int| 0 <= x < y < rv.len() implies (#[trigger] rv[x]).1 >= (#[trigger] rv[y]).1 by {
            assert(rv[x] == iv[perm@[x] as int]);
            assert(rv[y] == iv[perm@[y] as int]);
            assert(weights@[perm@[x] as int] >= weights@[perm@[y] as int]);
        }
    }
    r
}

/// The distance row of the empty word: `0, 1, …, n`.
fn initial_row(q: &Vec<char>) -> (r: Vec<usize>)
    requires
        q@.len() < usize::MAX,
    ensures
        r@ == row_of(q@, Seq::<char>::empty()),
{
    let n = q.len();
    let mut r: Vec<usize> = Vec::new();
    let mut i: usize = 0;
    while i <= n
        invariant
            n == q@.len(),
            n < usize::MAX,
            i <= n + 1,
            r@.len() == i,
            forall|k: int| 0 <= k < i ==> #[trigger] r@[k] == k,
        decreases n + 1 - i,
    {
        r.push(i);
        i = i + 1;
    }
    assert(r@ =~= row_of(q@, Seq::<char>::empty()));
    r
}

impl Trie {
    /// Stored words within `max_distance` of `query` (Damerau–Levenshtein,
    /// adjacent transpositions allowed), with weight and distance, by
    /// descending weight. An empty query finds nothing, and so does the empty
    /// word.
    pub fn fuzzy_search_with_distance(&self, query: &str, max_distance: usize) -> (r: Vec<(String, u32, usize)>)
        requires
            self.wf(),
            query@.len() < usize::MAX,
        ensures
            query@.len() == 0 ==> r@.len() == 0,
            query@.len() > 0 ==> lists_near_words(self@, query@, max_distance as nat, Seq::<char>::empty(), string_triple_views(r@)),
            by_weight_desc3(string_triple_views(r@)),
    {
        let q = str_chars(query);
        if q.len() == 0 {
            return Vec::new();
        }
        let ghost m = self@;
        let ghost e = Seq::<char>::empty();
        let initial = initial_row(&q);
        let mut out: Vec<(Vec<char>, u32, usize)> = Vec::new();
        let nc = self.nodes[0].children.len();
        let mut t: usize = 0;
        while t < nc
            invariant
                self.wf(),
                m == self@,
                e == Seq::<char>::empty(),
                self.paths@[0] == e,
                initial@ == row_of(q@, e),
                nc == self.num_children(0),
                t <= nc,
                forall|x: int| 0 <= x < out@.len() ==> {
                    let en = #[trigger] triple_views(out@)[x];
                    &&& m.contains_key(en.0)
                    &&& m[en.0] == en.1
                    &&& en.0.len() > 0
                    &&& en.2 == edit_distance(q@, en.0)
                    &&& en.2 <= max_distance
                    &&& exists|s: int| 0 <= s < t && e.push(#[trigger] self.child(0, s).0).is_prefix_of(en.0)
                },
                forall|w: Seq<char>|
                    m.contains_key(w) && w.len() > 0 && edit_distance(q@, w) <= max_distance && (exists|s: int| 0 <= s < t && #[trigger] self.child(0, s).0 == w[0])
                    ==> exists|x: int| 0 <= x < out@.len() && (#[trigger] triple_views(out@)[x]).0 == w,
                forall|x: int, y: int| 0 <= x < y < out@.len() ==> (#[trigger] triple_views(out@)[x]).0 != (#[trigger] triple_views(out@)[y]).0,
            decreases nc - t,
        {
            let (c, j) = self.nodes[0].children[t];
            assert(self.child(0, t as int) == (c, j));
            let child_row = next_row(&initial, &initial, '\0', &q, c, Ghost(e));
            let mut word: Vec<char> = Vec::new();
            word.push(c);
            assert(word@ == e.push(c));
            assert(e.push(c).drop_last() == e);
            let ghost mid = out@.len() as int;
            let ghost before = out@;
            self.fuzzy_collect(j, &mut word, &child_row, &initial, &q, max_distance, &mut out);
            proof {
                let pc = e.push(c);
                assert(out@.subrange(0, mid) == before);
                assert forall|x: int| 0 <= x < mid implies #[trigger] triple_views(out@)[x] == triple_views(before)[x] by {
                    assert(out@[x] == out@.subrange(0, mid)[x]);
                }
                let seg = triple_views(out@).subrange(mid, out@.len() as int);
                assert forall|x: int| mid <= x < out@.len() implies #[trigger] triple_views(out@)[x] == seg[x - mid] by {}
                assert forall|x: int| 0 <= x < out@.len() implies {
                    let en = #[trigger] triple_views(out@)[x];
                    &&& m.contains_key(en.0)
                    &&& m[en.0] == en.1
                    &&& en.0.len() > 0
                    &&& en.2 == edit_distance(q@, en.0)
                    &&& en.2 <= max_distance
                    &&& exists|s: int| 0 <= s < t + 1 && e.push(#[trigger] self.child(0, s).0).is_prefix_of(en.0)
                } by {
                    let en = triple_views(out@)[x];
                    if x >= mid {
                        assert(seg[x - mid] == en);
                        assert(e.push(self.child(0, t as int).0).is_prefix_of(en.0));
                    } else {
                        assert(triple_views(before)[x] == en);
                        let s = choose|s: int| 0 <= s < t && e.push(#[trigger] self.child(0, s).0).is_prefix_of(en.0);
                        assert(e.push(self.child(0, s).0).is_prefix_of(en.0));
                    }
                }
                assert forall|w: Seq<char>|
                    m.contains_key(w) && w.len() > 0 && edit_distance(q@, w) <= max_distance && (exists|s: int| 0 <= s < t + 1 && #[trigger] self.child(0, s).0 == w[0])
                    implies exists|x: int| 0 <= x < out@.len() && (#[trigger] triple_views(out@)[x]).0 == w by {
                    if w[0] == c {
                        lemma_prefix_push(e, c, w);
                        let y = choose|y: int| 0 <= y < seg.len() && (#[trigger] seg[y]).0 == w;
                        assert(triple_views(out@)[mid + y] == seg[y]);
                    } else {
                        let s = choose|s: int| 0 <= s < t + 1 && #[trigger] self.child(0, s).0 == w[0];
                        assert(s != t);
                        assert(self.child(0, s).0 == w[0]);
                        let x = choose|x: int| 0 <= x < before.len() && (#[trigger] triple_views(before)[x]).0 == w;
                        assert(triple_views(out@)[x] == triple_views(before)[x]);
                    }
                }
                assert forall|x: int, y: int| 0 <= x < y < out@.len() implies (#[trigger] triple_views(out@)[x]).0 != (#[trigger] triple_views(out@)[y]).0 by {
                    let ex = triple_views(out@)[x];
                    let ey = triple_views(out@)[y];
                    if y >= mid && x >= mid {
                        assert(seg[x - mid] == ex);
                        assert(seg[y - mid] == ey);
                    } else if y >= mid {
                        assert(seg[y - mid] == ey);
                        assert(triple_views(before)[x] == ex);
                        lemma_prefix_push(e, c, ey.0);
                        if ex.0 == ey.0 {
                            let s = choose|s: int| 0 <= s < t && e.push(#[trigger] self.child(0, s).0).is_prefix_of(ex.0);
                            lemma_prefix_push(e, self.child(0, s).0, ex.0);
                            assert(self.child(0, s).0 != self.child(0, t as int).0);
                        }
                    } else {
                        assert(triple_views(before)[x] == ex);
                        assert(triple_views(before)[y] == ey);
                    }
                }
            }
            t = t + 1;
        }
        proof {
            let ov = triple_views(out@);
            assert forall|x: int| 0 <= x < ov.len() implies e.is_prefix_of((#[trigger] ov[x]).0) by {}
            assert forall|w: Seq<char>| m.contains_key(w) && e.is_prefix_of(w) && w.len() > 0 && edit_distance(q@, w) <= max_distance implies exists|x: int| 0 <= x < ov.len() && (#[trigger] ov[x]).0 == w by {
                self.lemma_word_in_view(w);
                let k = self.node_of(w);
                let s = self.lemma_child_toward(0, w, k);
                assert(self.child(0, s).0 == w[0]);
            }
        }
        rank_near_listing(&out, Ghost(self@), Ghost(q@), Ghost(max_distance as nat), Ghost(e))
    }
}

/// Every entry of `r` is a non-empty word of `m` with its weight, within `d`
/// of `q`; every such word is listed, once.
pub open spec fn lists_near_pairs(m: Map<Seq<char>, u32>, q: Seq<char>, d: nat, r: Seq<(Seq<char>, u32)>) -> bool {
    &&& forall|x: int|
        0 <= x < r.len() ==> {
            let e = #[trigger] r[x];
            &&& m.contains_key(e.0)
            &&& m[e.0] == e.1
            &&& e.0.len() > 0
            &&& edit_distance(q, e.0) <= d
        }
    &&& forall|w: Seq<char>|
        m.contains_key(w) && w.len() > 0 && edit_distance(q, w) <= d ==> exists|x: int|
            0 <= x < r.len() && (#[trigger] r[x]).0 == w
    &&& forall|x: int, y: int| 0 <= x < y < r.len() ==> (#[trigger] r[x]).0 != (#[trigger] r[y]).0
}

impl Trie {
    /// `fuzzy_search_with_distance` without the distances.
    pub fn fuzzy_search(&self, query: &str, max_distance: usize) -> (r: Vec<(String, u32)>)
        requires
            self.wf(),
            query@.len() < usize::MAX,
        ensures
            query@.len() == 0 ==> r@.len() == 0,
            query@.len() > 0 ==> lists_near_pairs(self@, query@, max_distance as nat, string_pair_views(r@)),
            by_weight_desc(string_pair_views(r@)),
    {
        let full = self.fuzzy_search_with_distance(query, max_distance);
        let ghost fv = string_triple_views(full@);
        let mut r: Vec<(String, u32)> = Vec::new();
        let mut k: usize = 0;
        while k < full.len()
            invariant
                fv == string_triple_views(full@),
                k <= full@.len(),
                r@.len() == k,
                forall|a: int| 0 <= a < k ==> #[trigger] string_pair_views(r@)[a] == (fv[a].0, fv[a].1),
            decreases full@.len() - k,
        {
            let w = full[k].0.clone();
            let ghost old_r = r@;
            r.push((w, full[k].1));
            assert forall|a: int| 0 <= a < k implies #[trigger] string_pair_views(r@)[a] == string_pair_views(old_r)[a] by {
                assert(r@[a] == old_r[a]);
            }
            assert(string_pair_views(r@)[k as int] == (fv[k as int].0, fv[k as int].1));
            k = k + 1;
        }
        proof {
            let rv = string_pair_views(r@);
            if query@.len() > 0 {
                assert forall|w: Seq<char>| self@.contains_key(w) && w.len() > 0 && edit_distance(query@, w) <= max_distance implies exists|x: int| 0 <= x < rv.len() && (#[trigger] rv[x]).0 == w by {
                    assert(Seq::<char>::empty().is_prefix_of(w));
                    let x = choose|x: int| 0 <= x < fv.len() && (#[trigger] fv[x]).0 == w;
                    assert(rv[x].0 == w);
                }
                assert forall|x: int, y: int| 0 <= x < y < rv.len() implies (#[trigger] rv[x]).0 != (#[trigger] rv[y]).0 by {
                    assert(fv[x].0 != fv[y].0);
                }
                assert forall|x: int| 0 <= x < rv.len() implies {
                    let e = #[trigger] rv[x];
                    &&& self@.contains_key(e.0)
                    &&& self@[e.0] == e.1
                    &&& e.0.len() > 0
                    &&& edit_distance(query@, e.0) <= max_distance
                } by {
                    assert(rv[x] == (fv[x].0, fv[x].1));
                }
            }
            assert forall|x: int, y: int| 0 <= x < y < rv.len() implies (#[trigger] rv[x]).1 >= (#[trigger] rv[y]).1 by {
                assert(fv[x].1 >= fv[y].1);
            }
        }
        r
    }
}

impl View for Trie {
    type V = Map<Seq<char>, u32>;

    closed spec fn view(&self) -> Map<Seq<char>, u32> {
        self.words()
    }
}


/// The words after `insert(w, weight)`.
pub open spec fn inserted(m: Map<Seq<char>, u32>, w: Seq<char>, weight: u32) -> Map<Seq<char>, u32> {
    m.insert(w, merged_weight(m, w, weight))
}

/// A repeated word keeps its highest weight: inserting a word twice leaves
/// it with the larger weight, whichever came first, and the order of two
/// insertions never matters.
pub proof fn law_insert_order_irrelevant(
    m: Map<Seq<char>, u32>,
    w1: Seq<char>,
    a1: u32,
    w2: Seq<char>,
    a2: u32,
)
    ensures
        inserted(inserted(m, w1, a1), w2, a2) == inserted(inserted(m, w2, a2), w1, a1),
        inserted(inserted(m, w1, a1), w1, a2)[w1] == (if a1 > a2 { merged_weight(m, w1, a1) } else {
            merged_weight(m, w1, a2)
        }),
{
    assert(inserted(inserted(m, w1, a1), w2, a2) =~= inserted(inserted(m, w2, a2), w1, a1));
}

/// A word just inserted is found by a search for any of its prefixes, with
/// at least the weight it was inserted with.
pub proof fn law_inserted_word_found(
    m: Map<Seq<char>, u32>,
    w: Seq<char>,
    weight: u32,
    p: Seq<char>,
    r: Seq<(Seq<char>, u32)>,
)
    requires
        lists_prefix_words(inserted(m, w, weight), p, r),
        p.is_prefix_of(w),
    ensures
        exists|x: int| 0 <= x < r.len() && (#[trigger] r[x]).0 == w && r[x].1 >= weight,
{
    let x = choose|x: int| 0 <= x < r.len() && (#[trigger] r[x]).0 == w;
    assert(r[x].1 == inserted(m, w, weight)[w]);
}

/// Index of the entry of `r` that ranks first: the heaviest, and of equally
/// heavy ones the alphabetically first.
pub fn first_ranked(r: &Vec<(String, u32)>) -> (k: usize)
    requires
        r@.len() > 0,
        forall|x: int, y: int|
            0 <= x < y < r@.len() ==> (#[trigger] string_pair_views(r@)[x]).0 != (#[trigger] string_pair_views(
                r@,
            )[y]).0,
    ensures
        k < r@.len(),
        forall|j: int|
            0 <= j < r@.len() && j != k ==> ranks_before(
                string_pair_views(r@)[k as int],
                #[trigger] string_pair_views(r@)[j],
            ),
{
    let ghost rv = string_pair_views(r@);
    let mut best: usize = 0;
    let mut best_word = str_chars(r[0].0.as_str());
    let mut i: usize = 1;
    while i < r.len()
        invariant
            rv == string_pair_views(r@),
            forall|x: int, y: int| 0 <= x < y < rv.len() ==> (#[trigger] rv[x]).0 != (#[trigger] rv[y]).0,
            1 <= i <= r@.len(),
            best < i,
            best_word@ == rv[best as int].0,
            forall|j: int| 0 <= j < i && j != best ==> ranks_before(rv[best as int], #[trigger] rv[j]),
        decreases r@.len() - i,
    {
        let w = str_chars(r[i].0.as_str());
        assert(rv[i as int] == (w@, r@[i as int].1));
        assert(rv[best as int].1 == r@[best as int].1);
        if ranks_ahead(&w, r[i].1, &best_word, r[best].1) {
            proof {
                assert forall|j: int| 0 <= j < i + 1 && j != i implies ranks_before(rv[i as int], #[trigger] rv[j]) by {
                    if j != best {
                        lemma_ranks_transitive(rv[i as int], rv[best as int], rv[j]);
                    }
                }
            }
            best = i;
            best_word = w;
        } else {
            proof {
                assert(rv[best as int].0 != rv[i as int].0);
                lemma_ranks_total(rv[i as int], rv[best as int]);
            }
        }
        i = i + 1;
    }
    best
}
} // verus!

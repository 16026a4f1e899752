//! The prediction engine: prefix search over the dictionary trie, the best
//! match, and a fuzzy fallback for misspelt prefixes.

use vstd::prelude::*;
use crate::trie::{Trie, lists_prefix_words, by_weight_desc, string_pair_views, lists_near_pairs, first_ranked};
use crate::rank::ranks_before;
use crate::order::law_lex_strict_total_order;
use crate::text::{str_chars, chars_to_string, to_lowercase, lowercased, utf8_len, utf8_len_at_least};
use crate::config::{FUZZY_MIN_PREFIX_LEN, MAX_FUZZY_DISTANCE};
use crate::distance::edit_distance;

verus! {

/// The words of a listing, in order.
pub open spec fn words_of(r: Seq<(Seq<char>, u32)>) -> Seq<Seq<char>> {
    r.map_values(|e: (Seq<char>, u32)| e.0)
}

pub open spec fn string_views_of(v: Seq<String>) -> Seq<Seq<char>> {
    v.map_values(|s: String| s@)
}

/// `w` is a word of `m` that starts with `p` and weighs at least as much as
/// every other such word; of equally heavy ones it is the alphabetically
/// first.
pub open spec fn heaviest_with_prefix(m: Map<Seq<char>, u32>, p: Seq<char>, w: Seq<char>) -> bool {
    &&& m.contains_key(w)
    &&& p.is_prefix_of(w)
    &&& forall|v: Seq<char>| m.contains_key(v) && p.is_prefix_of(v) ==> m[v] <= m[w]
    &&& forall|v: Seq<char>| m.contains_key(v) && p.is_prefix_of(v) && v != w ==> ranks_before((w, m[w]), (v, m[v]))
}

/// There is one best prediction: two words that are each the heaviest word
/// with a prefix (the alphabetically first among equally heavy ones) are the
/// same word. So `predict` has one answer for each lower-cased prefix, and
/// prefixes that lower-case alike, such as `ENV` and `env`, get the same one.
pub proof fn law_prediction_unique(m: Map<Seq<char>, u32>, p: Seq<char>, w1: Seq<char>, w2: Seq<char>)
    requires
        heaviest_with_prefix(m, p, w1),
        heaviest_with_prefix(m, p, w2),
    ensures
        w1 == w2,
{
    if w1 != w2 {
        assert(ranks_before((w1, m[w1]), (w2, m[w2])));
        assert(ranks_before((w2, m[w2]), (w1, m[w1])));
        law_lex_strict_total_order(w1, w2, w1);
    }
}

/// Some word of `m` starts with `p`.
pub open spec fn has_prefix_word(m: Map<Seq<char>, u32>, p: Seq<char>) -> bool {
    exists|v: Seq<char>| m.contains_key(v) && p.is_prefix_of(v)
}

/// `w` is a non-empty word of `m` within `d` edits of `q`, and weighs at
/// least as much as every other such word; of equally heavy ones it is the
/// alphabetically first.
pub open spec fn heaviest_near(m: Map<Seq<char>, u32>, q: Seq<char>, d: nat, w: Seq<char>) -> bool {
    &&& m.contains_key(w)
    &&& w.len() > 0
    &&& edit_distance(q, w) <= d
    &&& forall|v: Seq<char>| m.contains_key(v) && v.len() > 0 && edit_distance(q, v) <= d ==> m[v] <= m[w]
    &&& forall|v: Seq<char>|
        m.contains_key(v) && v.len() > 0 && edit_distance(q, v) <= d && v != w ==> ranks_before((w, m[w]), (v, m[v]))
}

/// Some non-empty word of `m` lies within `d` edits of `q`.
pub open spec fn has_near_word(m: Map<Seq<char>, u32>, q: Seq<char>, d: nat) -> bool {
    exists|v: Seq<char>| m.contains_key(v) && v.len() > 0 && edit_distance(q, v) <= d
}

/// What `predict_fuzzy` lists for `prefix`: nothing for a prefix shorter
/// than `FUZZY_MIN_PREFIX_LEN` bytes (or a lower-cased prefix too long to
/// measure); otherwise every non-empty word within `d` edits of the
/// lower-cased prefix, once each, heaviest first.
pub open spec fn fuzzy_listing(m: Map<Seq<char>, u32>, prefix: Seq<char>, d: nat, r: Seq<(Seq<char>, u32)>) -> bool {
    let p = lowercased(prefix);
    if utf8_len(prefix) < FUZZY_MIN_PREFIX_LEN || p.len() >= usize::MAX || p.len() == 0 {
        r.len() == 0
    } else {
        lists_near_pairs(m, p, d, r) && by_weight_desc(r)
    }
}

/// Prediction engine over a dictionary trie.
pub struct Predictor {
    trie: Trie,
}

impl View for Predictor {
    type V = Map<Seq<char>, u32>;

    closed spec fn view(&self) -> Map<Seq<char>, u32> {
        self.trie@
    }
}

impl Predictor {
    pub closed spec fn wf(&self) -> bool {
        self.trie.wf()
    }

    /// An engine over the words of `trie`.
    pub fn new(trie: Trie) -> (p: Self)
        requires
            trie.wf(),
        ensures
            p.wf(),
            p@ == trie@,
    {
        Predictor { trie }
    }

    /// The heaviest word that starts with the lower-cased `prefix` (exact
    /// prefix matches only); none for an empty prefix.
    pub fn predict(&self, prefix: &str) -> (r: Option<String>)
        requires
            self.wf(),
        ensures
            prefix@.len() == 0 ==> r is None,
            prefix@.len() > 0 ==> {
                let p = lowercased(prefix@);
                &&& r is None <==> !has_prefix_word(self@, p)
                &&& r matches Some(w) ==> heaviest_with_prefix(self@, p, w@)
            },
    {
        if prefix.is_empty() {
            return None;
        }
        let lower = chars_to_string(&to_lowercase(&str_chars(prefix)));
        let r = self.trie.best_match(lower.as_str());
        proof {
            let p = lowercased(prefix@);
            if r is None {
                assert(!has_prefix_word(self@, p));
            }
        }
        r
    }

    /// Every word that starts with the lower-cased `prefix`, heaviest first
    /// (exact prefix matches only); none for an empty prefix.
    pub fn predict_all(&self, prefix: &str) -> (r: Vec<String>)
        requires
            self.wf(),
        ensures
            prefix@.len() == 0 ==> r@.len() == 0,
            prefix@.len() > 0 ==> exists|listing: Seq<(Seq<char>, u32)>|
                {
                    &&& lists_prefix_words(self@, lowercased(prefix@), listing)
                    &&& by_weight_desc(listing)
                    &&& #[trigger] words_of(listing) == string_views_of(r@)
                },
    {
        if prefix.is_empty() {
            return Vec::new();
        }
        let lower = chars_to_string(&to_lowercase(&str_chars(prefix)));
        let found = self.trie.search(lower.as_str());
        let ghost listing = string_pair_views(found@);
        let mut r: Vec<String> = Vec::new();
        let mut k: usize = 0;
        while k < found.len()
            invariant
                k <= found@.len(),
                listing == string_pair_views(found@),
                string_views_of(r@) == words_of(listing).take(k as int),
            decreases found@.len() - k,
        {
            let w = found[k].0.clone();
            proof {
                assert(string_views_of(r@.push(w)) == string_views_of(r@).push(w@));
                assert(words_of(listing).take(k + 1) == words_of(listing).take(k as int).push(listing[k as int].0));
            }
            r.push(w);
            k = k + 1;
        }
        assert(words_of(listing).take(k as int) == words_of(listing));
        r
    }

    /// The best prediction and whether it came from the fuzzy fallback: the
    /// heaviest exact prefix match if there is one; otherwise, for a
    /// lower-cased prefix of at least `FUZZY_MIN_PREFIX_LEN` bytes, the
    /// heaviest word within `MAX_FUZZY_DISTANCE` edits of it.
    pub fn predict_best(&self, prefix: &str) -> (r: Option<(String, bool)>)
        requires
            self.wf(),
        ensures
            prefix@.len() == 0 ==> r is None,
            prefix@.len() > 0 ==> {
                let p = lowercased(prefix@);
                let fuzzy = utf8_len(p) >= FUZZY_MIN_PREFIX_LEN && p.len() < usize::MAX;
                &&& has_prefix_word(self@, p) ==> (r matches Some(x) && !x.1 && heaviest_with_prefix(self@, p, x.0@))
                &&& !has_prefix_word(self@, p) && fuzzy ==> {
                    &&& r is None <==> !has_near_word(self@, p, MAX_FUZZY_DISTANCE as nat)
                    &&& r matches Some(x) ==> x.1 && heaviest_near(self@, p, MAX_FUZZY_DISTANCE as nat, x.0@)
                }
                &&& !has_prefix_word(self@, p) && !fuzzy ==> r is None
            },
    {
        if prefix.is_empty() {
            return None;
        }
        let lower_chars = to_lowercase(&str_chars(prefix));
        let lower = chars_to_string(&lower_chars);
        let ghost p = lowercased(prefix@);
        if let Some(word) = self.trie.best_match(lower.as_str()) {
            return Some((word, false));
        }
        assert(!has_prefix_word(self@, p));
        if utf8_len_at_least(&lower_chars, FUZZY_MIN_PREFIX_LEN) && lower_chars.len() < usize::MAX {
            let results = self.trie.fuzzy_search(lower.as_str(), MAX_FUZZY_DISTANCE);
            let ghost rv = string_pair_views(results@);
            if results.len() > 0 {
                let k = first_ranked(&results);
                let w = results[k].0.clone();
                proof {
                    assert(rv[k as int].0 == w@);
                    assert forall|v: Seq<char>|
                        self@.contains_key(v) && v.len() > 0 && edit_distance(p, v) <= MAX_FUZZY_DISTANCE as nat && v
                            != w@ implies ranks_before((w@, self@[w@]), (v, self@[v])) by {
                        let x = choose|x: int| 0 <= x < rv.len() && (#[trigger] rv[x]).0 == v;
                        assert(x != k);
                    }
                    assert forall|v: Seq<char>|
                        self@.contains_key(v) && v.len() > 0 && edit_distance(p, v) <= MAX_FUZZY_DISTANCE as nat implies self@[v]
                        <= self@[w@] by {
                        if v != w@ {
                            let x = choose|x: int| 0 <= x < rv.len() && (#[trigger] rv[x]).0 == v;
                            assert(x != k);
                        }
                    }
                }
                return Some((w, true));
            }
            proof {
                assert forall|v: Seq<char>|
                    !(self@.contains_key(v) && v.len() > 0 && edit_distance(p, v) <= MAX_FUZZY_DISTANCE as nat) by {
                    if self@.contains_key(v) && v.len() > 0 && edit_distance(p, v) <= MAX_FUZZY_DISTANCE as nat {
                        let x = choose|x: int| 0 <= x < rv.len() && (#[trigger] rv[x]).0 == v;
                    }
                }
            }
            return None;
        }
        None
    }

    /// Every word within `max_distance` edits of the lower-cased `prefix`,
    /// heaviest first; none for a prefix shorter than
    /// `FUZZY_MIN_PREFIX_LEN` bytes.
    pub fn predict_fuzzy(&self, prefix: &str, max_distance: usize) -> (r: Vec<(String, u32)>)
        requires
            self.wf(),
        ensures
            fuzzy_listing(self@, prefix@, max_distance as nat, string_pair_views(r@)),
    {
        let chars = str_chars(prefix);
        if !utf8_len_at_least(&chars, FUZZY_MIN_PREFIX_LEN) {
            return Vec::new();
        }
        let lower_chars = to_lowercase(&chars);
        if lower_chars.len() == usize::MAX {
            return Vec::new();
        }
        let lower = chars_to_string(&lower_chars);
        self.trie.fuzzy_search(lower.as_str(), max_distance)
    }
}

} // verus!

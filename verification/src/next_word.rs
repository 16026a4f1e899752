//! Next-word prediction from a table of phrase transitions: each line of the
//! table reads `context<TAB>word<TAB>weight`, where the context is one or
//! more words.

use vstd::prelude::*;
use crate::text::{
    str_chars, chars_to_string, copy_range, trim, trim_ws, lower_ascii_seq, lowercase_ascii_chars,
    is_word_char, is_word_character, chars_equal, is_lower_ascii, is_upper_ascii, trim_start_ws, trim_end_ws,
};
use crate::split::{
    split, split_by, split_lines, lines, eq_char, ws_pred, views, join_space, join_with_space,
    lemma_split_by_nonempty,
};
use crate::number::{parse_u32, parse_u32_spec};
use crate::trie::{pair_views, string_pair_views};
use crate::text::starts_with;
use crate::rank::{ranks_before, strictly_ranked, distinct_words, absorb, lemma_ranks_total};
use crate::order::law_lex_strict_total_order;

verus! {

// ───────────────────────── normalization ─────────────────────────

/// The characters of `s` that may stand in a word, in order.
pub open spec fn keep_word_chars(s: Seq<char>) -> Seq<char>
    decreases s.len(),
{
    if s.len() == 0 {
        s
    } else {
        let r = keep_word_chars(s.drop_last());
        if is_word_char(s.last()) {
            r.push(s.last())
        } else {
            r
        }
    }
}

/// A word trimmed, lower-cased (ASCII) and stripped of every character but
/// letters, `'` and `-`.
pub open spec fn normalize_word_spec(s: Seq<char>) -> Seq<char> {
    keep_word_chars(lower_ascii_seq(trim_ws(s)))
}

/// A lower-case word: ASCII letters `a`–`z`, `'` and `-` only.
pub open spec fn lower_word(w: Seq<char>) -> bool {
    forall|i: int| 0 <= i < w.len() ==> is_lower_ascii(#[trigger] w[i]) || w[i] == '\'' || w[i] == '-'
}

proof fn lemma_keep_word_chars_fixed(w: Seq<char>)
    requires
        lower_word(w),
    ensures
        keep_word_chars(w) == w,
    decreases w.len(),
{
    if w.len() > 0 {
        assert(lower_word(w.drop_last()));
        lemma_keep_word_chars_fixed(w.drop_last());
        assert(is_lower_ascii(w.last()) || w.last() == '\'' || w.last() == '-');
        assert(w.drop_last().push(w.last()) =~= w);
    }
}

proof fn lemma_keep_word_chars_only(s: Seq<char>)
    ensures
        forall|i: int| 0 <= i < keep_word_chars(s).len() ==> is_word_char(#[trigger] keep_word_chars(s)[i]),
        keep_word_chars(s).len() <= s.len(),
    decreases s.len(),
{
    if s.len() > 0 {
        lemma_keep_word_chars_only(s.drop_last());
    }
}

/// Normalizing keeps a word that is already normal as it is: a lower-case
/// word of letters, `'` and `-` comes back unchanged (so contractions such
/// as `don't` keep their apostrophe); and whatever goes in, what comes out
/// is such a word, so normalizing twice changes nothing more.
pub proof fn law_normal_words_unchanged(w: Seq<char>, s: Seq<char>)
    ensures
        lower_word(w) ==> normalize_word_spec(w) == w,
        lower_word(normalize_word_spec(s)),
        normalize_word_spec(normalize_word_spec(s)) == normalize_word_spec(s),
{
    if lower_word(w) {
        if w.len() > 0 {
            assert(is_lower_ascii(w[0]) || w[0] == '\'' || w[0] == '-');
            assert(is_lower_ascii(w.last()) || w.last() == '\'' || w.last() == '-');
        }
        assert(trim_start_ws(w) == w);
        assert(trim_end_ws(w) == w);
        assert(lower_ascii_seq(w) =~= w);
        lemma_keep_word_chars_fixed(w);
    }
    let l = lower_ascii_seq(trim_ws(s));
    lemma_keep_word_chars_only(l);
    let n = normalize_word_spec(s);
    assert forall|i: int| 0 <= i < n.len() implies is_lower_ascii(#[trigger] n[i]) || n[i] == '\'' || n[i] == '-' by {
        assert(is_word_char(keep_word_chars(l)[i]));
        lemma_kept_not_upper(l, i);
    }
    let n2 = normalize_word_spec(n);
    if n.len() > 0 {
        assert(is_lower_ascii(n[0]) || n[0] == '\'' || n[0] == '-');
        assert(is_lower_ascii(n.last()) || n.last() == '\'' || n.last() == '-');
    }
    assert(trim_start_ws(n) == n);
    assert(trim_end_ws(n) == n);
    assert(lower_ascii_seq(n) =~= n);
    lemma_keep_word_chars_fixed(n);
}

/// A character kept from lower-cased text is no upper-case letter.
proof fn lemma_kept_not_upper(l: Seq<char>, i: int)
    requires
        forall|j: int| 0 <= j < l.len() ==> !is_upper_ascii(#[trigger] l[j]),
        0 <= i < keep_word_chars(l).len(),
    ensures
        !is_upper_ascii(keep_word_chars(l)[i]),
    decreases l.len(),
{
    let r = keep_word_chars(l.drop_last());
    if i < r.len() {
        assert forall|j: int| 0 <= j < l.drop_last().len() implies !is_upper_ascii(#[trigger] l.drop_last()[j]) by {
            assert(l.drop_last()[j] == l[j]);
        }
        lemma_kept_not_upper(l.drop_last(), i);
    } else {
        assert(!is_upper_ascii(l[l.len() - 1]));
    }
}

pub open spec fn normalized_all(ss: Seq<Seq<char>>) -> Seq<Seq<char>> {
    ss.map_values(|p: Seq<char>| normalize_word_spec(p))
}

/// The non-empty sequences of `ss`, in order.
pub open spec fn nonempty_only(ss: Seq<Seq<char>>) -> Seq<Seq<char>>
    decreases ss.len(),
{
    if ss.len() == 0 {
        ss
    } else {
        let r = nonempty_only(ss.drop_last());
        if ss.last().len() > 0 {
            r.push(ss.last())
        } else {
            r
        }
    }
}

/// A context phrase: its white-space separated words normalized, empty ones
/// dropped, joined with single spaces.
pub open spec fn normalize_context_spec(s: Seq<char>) -> Seq<char> {
    join_space(nonempty_only(normalized_all(split_by(s, ws_pred()))))
}

/// Normalizes a word as `normalize_word_spec` says.
pub fn normalize_word(v: &[char]) -> (r: Vec<char>)
    ensures
        r@ == normalize_word_spec(v@),
{
    let lowered = lowercase_ascii_chars(&trim(v));
    let mut r: Vec<char> = Vec::new();
    let mut i: usize = 0;
    while i < lowered.len()
        invariant
            i <= lowered@.len(),
            r@ == keep_word_chars(lowered@.take(i as int)),
        decreases lowered@.len() - i,
    {
        let c = lowered[i];
        assert(lowered@.take(i + 1).drop_last() == lowered@.take(i as int));
        if is_word_character(c) {
            r.push(c);
        }
        i = i + 1;
    }
    assert(lowered@.take(i as int) == lowered@);
    r
}

/// Normalizes a context phrase as `normalize_context_spec` says.
pub fn normalize_context(v: &[char]) -> (r: Vec<char>)
    ensures
        r@ == normalize_context_spec(v@),
{
    let pieces = split(v, ' ', true);
    let mut kept: Vec<Vec<char>> = Vec::new();
    let mut i: usize = 0;
    while i < pieces.len()
        invariant
            i <= pieces@.len(),
            views(pieces@) == split_by(v@, ws_pred()),
            views(kept@) == nonempty_only(normalized_all(views(pieces@)).take(i as int)),
        decreases pieces@.len() - i,
    {
        let w = normalize_word(&pieces[i]);
        proof {
            let na = normalized_all(views(pieces@));
            assert(na.take(i + 1).drop_last() == na.take(i as int));
            assert(na[i as int] == normalize_word_spec(pieces@[i as int]@));
        }
        if w.len() > 0 {
            assert(views(kept@.push(w)) == views(kept@).push(w@));
            kept.push(w);
        }
        i = i + 1;
    }
    assert(normalized_all(views(pieces@)).take(i as int) == normalized_all(views(pieces@)));
    join_with_space(&kept)
}

// ───────────────────────── the table ─────────────────────────

/// The transition one table line gives: its normalized context, and the
/// normalized next word with its weight (a missing or unreadable weight counts
/// as 1). Blank lines, `#` comments, empty contexts or words and zero weights
/// give none.
pub open spec fn transition_line_spec(line: Seq<char>) -> Option<(Seq<char>, (Seq<char>, u32))> {
    let t = trim_ws(line);
    if t.len() == 0 || t[0] == '#' {
        None
    } else {
        let f = split_by(t, eq_char('\t'));
        let context = normalize_context_spec(f[0]);
        let word = normalize_word_spec(
            if f.len() > 1 {
                f[1]
            } else {
                Seq::<char>::empty()
            },
        );
        let weight: u32 = if f.len() > 2 {
            match parse_u32_spec(trim_ws(f[2])) {
                Some(v) => v,
                None => 1,
            }
        } else {
            1
        };
        if context.len() == 0 || word.len() == 0 || weight == 0 {
            None
        } else {
            Some((context, (word, weight)))
        }
    }
}

/// The transitions that table lines give: each context maps to its next words
/// with their weights, in the order of the lines.
pub open spec fn transitions_of_lines(ls: Seq<Seq<char>>) -> Map<Seq<char>, Seq<(Seq<char>, u32)>>
    decreases ls.len(),
{
    if ls.len() == 0 {
        Map::empty()
    } else {
        let m = transitions_of_lines(ls.drop_last());
        match transition_line_spec(ls.last()) {
            Some(t) => m.insert(
                t.0,
                if m.contains_key(t.0) {
                    m[t.0].push(t.1)
                } else {
                    seq![t.1]
                },
            ),
            None => m,
        }
    }
}

/// Parses one table line as `transition_line_spec` says.
pub fn parse_transition_line(line: &[char]) -> (r: Option<(Vec<char>, (Vec<char>, u32))>)
    ensures
        match r {
            Some(t) => transition_line_spec(line@) == Some((t.0@, (t.1.0@, t.1.1))),
            None => transition_line_spec(line@) is None,
        },
{
    let t = trim(line);
    if t.len() == 0 || t[0] == '#' {
        return None;
    }
    let f = split(&t, '\t', false);
    proof {
        lemma_split_by_nonempty(t@, eq_char('\t'));
        assert(views(f@)[0] == f@[0]@);
    }
    let context = normalize_context(&f[0]);
    let word = if f.len() > 1 {
        assert(views(f@)[1] == f@[1]@);
        normalize_word(&f[1])
    } else {
        let empty: Vec<char> = Vec::new();
        normalize_word(&empty)
    };
    let weight: u32 = if f.len() > 2 {
        assert(views(f@)[2] == f@[2]@);
        match parse_u32(&trim(&f[2])) {
            Some(v) => v,
            None => 1,
        }
    } else {
        1
    };
    if context.len() == 0 || word.len() == 0 || weight == 0 {
        None
    } else {
        Some((context, (word, weight)))
    }
}

/// Phrase-transition model for next-word prediction.
pub struct NextWordModel {
    transitions: Vec<(Vec<char>, Vec<(Vec<char>, u32)>)>,
}

impl NextWordModel {
    pub closed spec fn key(&self, i: int) -> Seq<char> {
        self.transitions@[i].0@
    }

    pub closed spec fn entries(&self, i: int) -> Seq<(Seq<char>, u32)> {
        pair_views(self.transitions@[i].1@)
    }

    pub closed spec fn has_key(&self, k: Seq<char>) -> bool {
        exists|i: int| 0 <= i < self.transitions@.len() && #[trigger] self.key(i) == k
    }

    pub closed spec fn index_of(&self, k: Seq<char>) -> int {
        choose|i: int| 0 <= i < self.transitions@.len() && #[trigger] self.key(i) == k
    }

    /// No context appears twice.
    pub closed spec fn wf(&self) -> bool {
        forall|i: int, j: int|
            0 <= i < j < self.transitions@.len() ==> #[trigger] self.key(i) != #[trigger] self.key(j)
    }

    proof fn lemma_index_of(&self, i: int)
        requires
            self.wf(),
            0 <= i < self.transitions@.len(),
        ensures
            self.has_key(self.key(i)),
            self.index_of(self.key(i)) == i,
    {
        assert(self.key(i) == self.key(i));
        let j = self.index_of(self.key(i));
        if j < i {
            assert(self.key(j) != self.key(i));
        }
        if i < j {
            assert(self.key(i) != self.key(j));
        }
    }

    /// Index of the context `key`, if present.
    fn find(&self, key: &Vec<char>) -> (r: Option<usize>)
        requires
            self.wf(),
        ensures
            match r {
                Some(i) => i < self.transitions@.len() && self.key(i as int) == key@,
                None => !self.has_key(key@),
            },
    {
        let mut i: usize = 0;
        while i < self.transitions.len()
            invariant
                i <= self.transitions@.len(),
                forall|k: int| 0 <= k < i ==> #[trigger] self.key(k) != key@,
            decreases self.transitions@.len() - i,
        {
            if chars_equal(&self.transitions[i].0, key) {
                return Some(i);
            }
            i = i + 1;
        }
        None
    }
}

impl View for NextWordModel {
    type V = Map<Seq<char>, Seq<(Seq<char>, u32)>>;

    closed spec fn view(&self) -> Map<Seq<char>, Seq<(Seq<char>, u32)>> {
        Map::new(|k: Seq<char>| self.has_key(k), |k: Seq<char>| self.entries(self.index_of(k)))
    }
}

impl NextWordModel {
    /// Adds the transition `context -> (word, weight)`.
    fn add(&mut self, context: Vec<char>, entry: (Vec<char>, u32))
        requires
            old(self).wf(),
        ensures
            final(self).wf(),
            final(self)@ == old(self)@.insert(
                context@,
                if old(self)@.contains_key(context@) {
                    old(self)@[context@].push((entry.0@, entry.1))
                } else {
                    seq![(entry.0@, entry.1)]
                },
            ),
    {
        let ghost old_m = *self;
        let ghost e = (entry.0@, entry.1);
        match self.find(&context) {
            Some(i) => {
                proof {
                    old_m.lemma_index_of(i as int);
                }
                let ghost old_entries = self.transitions@[i as int].1@;
                self.transitions[i].1.push(entry);
                proof {
                    assert(pair_views(old_entries.push(entry)) == pair_views(old_entries).push(e));
                    assert forall|k: int| 0 <= k < self.transitions@.len() && k != i implies #[trigger] self.key(k) == old_m.key(k) && self.entries(k) == old_m.entries(k) by {}
                    assert(self.key(i as int) == old_m.key(i as int));
                    assert(self.wf());
                    assert(self@ =~= old_m@.insert(context@, old_m@[context@].push(e))) by {
                        assert forall|k: Seq<char>| self.has_key(k) == old_m.has_key(k) by {
                            if self.has_key(k) {
                                let a = choose|a: int| 0 <= a < self.transitions@.len() && #[trigger] self.key(a) == k;
                                assert(old_m.key(a) == k);
                            }
                            if old_m.has_key(k) {
                                let a = choose|a: int| 0 <= a < old_m.transitions@.len() && #[trigger] old_m.key(a) == k;
                                assert(self.key(a) == k);
                            }
                        }
                        assert forall|k: Seq<char>| #[trigger] self@.contains_key(k) implies self@[k] == old_m@.insert(context@, old_m@[context@].push(e))[k] by {
                            let a = choose|a: int| 0 <= a < self.transitions@.len() && #[trigger] self.key(a) == k;
                            self.lemma_index_of(a);
                            old_m.lemma_index_of(a);
                        }
                    }
                }
            },
            None => {
                let ghost cv = context@;
                self.transitions.push((context, vec![entry]));
                proof {
                    let n = old_m.transitions@.len() as int;
                    assert(self.key(n) == cv);
                    assert(pair_views(seq![entry]) == seq![e]);
                    assert(self.entries(n) == seq![e]);
                    assert forall|k: int| 0 <= k < n implies #[trigger] self.key(k) == old_m.key(k) && self.entries(k) == old_m.entries(k) by {}
                    assert forall|a: int, b: int| 0 <= a < b < self.transitions@.len() implies #[trigger] self.key(a) != #[trigger] self.key(b) by {
                        if b == n {
                            assert(old_m.key(a) != cv);
                        }
                    }
                    assert(self@ =~= old_m@.insert(cv, seq![e])) by {
                        assert forall|k: Seq<char>| self.has_key(k) == (old_m.has_key(k) || k == cv) by {
                            if self.has_key(k) {
                                let a = choose|a: int| 0 <= a < self.transitions@.len() && #[trigger] self.key(a) == k;
                                if a < n {
                                    assert(old_m.key(a) == k);
                                }
                            }
                            if old_m.has_key(k) {
                                let a = choose|a: int| 0 <= a < old_m.transitions@.len() && #[trigger] old_m.key(a) == k;
                                assert(self.key(a) == k);
                            }
                            if k == cv {
                                assert(self.key(n) == k);
                            }
                        }
                        assert forall|k: Seq<char>| #[trigger] self@.contains_key(k) implies self@[k] == old_m@.insert(cv, seq![e])[k] by {
                            let a = choose|a: int| 0 <= a < self.transitions@.len() && #[trigger] self.key(a) == k;
                            self.lemma_index_of(a);
                            if a < n {
                                old_m.lemma_index_of(a);
                            }
                        }
                    }
                }
            },
        }
    }

    /// Builds the model from the lines of a transition table.
    pub fn from_str(raw: &str) -> (m: Self)
        ensures
            m.wf(),
            m@ == transitions_of_lines(lines(raw@)),
    {
        let chars = str_chars(raw);
        let ls = split_lines(&chars);
        let mut model = NextWordModel { transitions: Vec::new() };
        assert(model@ =~= Map::<Seq<char>, Seq<(Seq<char>, u32)>>::empty()) by {
            assert forall|k: Seq<char>| !model.has_key(k) by {}
        }
        let mut k: usize = 0;
        while k < ls.len()
            invariant
                model.wf(),
                k <= ls@.len(),
                views(ls@) == lines(raw@),
                model@ == transitions_of_lines(views(ls@).take(k as int)),
            decreases ls@.len() - k,
        {
            let parsed = parse_transition_line(&ls[k]);
            assert(views(ls@).take(k + 1).drop_last() == views(ls@).take(k as int));
            assert(views(ls@)[k as int] == ls@[k as int]@);
            match parsed {
                Some((context, entry)) => {
                    model.add(context, entry);
                },
                None => {},
            }
            k = k + 1;
        }
        assert(views(ls@).take(k as int) == views(ls@));
        model
    }
}


// ───────────────────────── suggestions ─────────────────────────

pub open spec fn string_views(v: Seq<String>) -> Seq<Seq<char>> {
    v.map_values(|x: String| x@)
}

/// How many of the last context words are consulted: at most four.
pub open spec fn longest_context(n: int) -> int {
    if n < 4 {
        n
    } else {
        4
    }
}

/// The table key for the last `l` words of `ctx`: each normalized, joined
/// with single spaces.
pub open spec fn context_key(ctx: Seq<Seq<char>>, l: int) -> Seq<char> {
    join_space(normalized_all(ctx.skip(ctx.len() - l)))
}

/// The score of a next word reached through `l` context words:
/// `l * 1_000_000 + weight`, saturating at `u32::MAX`.
pub open spec fn context_score(l: int, weight: u32) -> u32 {
    if l * 1_000_000 + weight > u32::MAX {
        u32::MAX
    } else {
        (l * 1_000_000 + weight) as u32
    }
}

/// The normalized prefix `np` lets the word `w` through.
pub open spec fn admits(np: Seq<char>, w: Seq<char>) -> bool {
    np.len() == 0 || np.is_prefix_of(w)
}

/// Entry `k` under the key of the last `l` context words offers `w` with
/// score `s`.
#[verifier::opaque]
pub open spec fn offers(
    m: Map<Seq<char>, Seq<(Seq<char>, u32)>>,
    ctx: Seq<Seq<char>>,
    np: Seq<char>,
    l: int,
    k: int,
    w: Seq<char>,
    s: u32,
) -> bool {
    let key = context_key(ctx, l);
    &&& 1 <= l <= longest_context(ctx.len() as int)
    &&& m.contains_key(key)
    &&& 0 <= k < m[key].len()
    &&& m[key][k].0 == w
    &&& admits(np, w)
    &&& s == context_score(l, m[key][k].1)
}

/// Some entry offers `w` with score `s`.
pub open spec fn offered(
    m: Map<Seq<char>, Seq<(Seq<char>, u32)>>,
    ctx: Seq<Seq<char>>,
    np: Seq<char>,
    w: Seq<char>,
    s: u32,
) -> bool {
    exists|l: int, k: int| #[trigger] offers(m, ctx, np, l, k, w, s)
}

/// `r` lists, best first, at most `limit` offered words, each with the best
/// score offered for it; a word left out ranks after every listed one, and
/// then the listing is full.
pub open spec fn suggestion_listing(
    m: Map<Seq<char>, Seq<(Seq<char>, u32)>>,
    ctx: Seq<Seq<char>>,
    np: Seq<char>,
    limit: int,
    r: Seq<(Seq<char>, u32)>,
) -> bool {
    &&& r.len() <= limit
    &&& strictly_ranked(r)
    &&& distinct_words(r)
    &&& forall|x: int| 0 <= x < r.len() ==> offered(m, ctx, np, (#[trigger] r[x]).0, r[x].1)
    &&& forall|x: int, l: int, k: int, s: u32|
        0 <= x < r.len() && #[trigger] offers(m, ctx, np, l, k, r[x].0, s) ==> s <= r[x].1
    &&& forall|l: int, k: int, w: Seq<char>, s: u32|
        #[trigger] offers(m, ctx, np, l, k, w, s) && (forall|x: int| 0 <= x < r.len() ==> r[x].0 != w) ==> r.len()
            == limit && forall|x: int| 0 <= x < r.len() ==> ranks_before(r[x], (w, s))
}

/// Entry `k` under `l` context words comes before entry `at_k` under `at_l`
/// in the order the table is read.
spec fn read_before(l: int, k: int, at_l: int, at_k: int) -> bool {
    0 <= k && (l < at_l || (l == at_l && k < at_k))
}

/// Some entry read before `(at_l, at_k)` offers `w` with score `s`.
spec fn offered_before(
    m: Map<Seq<char>, Seq<(Seq<char>, u32)>>,
    ctx: Seq<Seq<char>>,
    np: Seq<char>,
    w: Seq<char>,
    s: u32,
    at_l: int,
    at_k: int,
) -> bool {
    exists|l: int, k: int| read_before(l, k, at_l, at_k) && #[trigger] offers(m, ctx, np, l, k, w, s)
}

/// What the ranked listing `r` holds once the entries before `(at_l, at_k)`
/// have been read: each listed word with the best score read for it, and
/// every word read.
spec fn listing_so_far(
    m: Map<Seq<char>, Seq<(Seq<char>, u32)>>,
    ctx: Seq<Seq<char>>,
    np: Seq<char>,
    r: Seq<(Seq<char>, u32)>,
    at_l: int,
    at_k: int,
) -> bool {
    &&& strictly_ranked(r)
    &&& distinct_words(r)
    &&& forall|x: int| 0 <= x < r.len() ==> offered_before(m, ctx, np, (#[trigger] r[x]).0, r[x].1, at_l, at_k)
    &&& forall|l: int, k: int, w: Seq<char>, s: u32|
        read_before(l, k, at_l, at_k) && #[trigger] offers(m, ctx, np, l, k, w, s) ==> exists|x: int|
            0 <= x < r.len() && (#[trigger] r[x]).0 == w && s <= r[x].1
}

proof fn lemma_listing_step(
    m: Map<Seq<char>, Seq<(Seq<char>, u32)>>,
    ctx: Seq<Seq<char>>,
    np: Seq<char>,
    r: Seq<(Seq<char>, u32)>,
    r2: Seq<(Seq<char>, u32)>,
    at_l: int,
    at_k: int,
    w: Seq<char>,
    s: u32,
)
    requires
        0 <= at_k,
        listing_so_far(m, ctx, np, r, at_l, at_k),
        offers(m, ctx, np, at_l, at_k, w, s),
        strictly_ranked(r2),
        distinct_words(r2),
        forall|y: int| 0 <= y < r2.len() ==> #[trigger] r2[y] == (w, s) || exists|x: int| 0 <= x < r.len() && r2[y] == #[trigger] r[x],
        forall|x: int| 0 <= x < r.len() ==> exists|y: int| 0 <= y < r2.len() && (#[trigger] r2[y]).0 == (#[trigger] r[x]).0 && r2[y].1 >= r[x].1,
        exists|y: int| 0 <= y < r2.len() && (#[trigger] r2[y]).0 == w && r2[y].1 >= s,
    ensures
        listing_so_far(m, ctx, np, r2, at_l, at_k + 1),
{
    assert forall|y: int| 0 <= y < r2.len() implies offered_before(m, ctx, np, (#[trigger] r2[y]).0, r2[y].1, at_l, at_k + 1) by {
        if r2[y] == (w, s) {
            assert(read_before(at_l, at_k, at_l, at_k + 1));
        } else {
            let x = choose|x: int| 0 <= x < r.len() && r2[y] == #[trigger] r[x];
            let (l, k) = choose|l: int, k: int| read_before(l, k, at_l, at_k) && #[trigger] offers(m, ctx, np, l, k, r[x].0, r[x].1);
            assert(read_before(l, k, at_l, at_k + 1));
        }
    }
    assert forall|l: int, k: int, w2: Seq<char>, s2: u32|
        read_before(l, k, at_l, at_k + 1) && #[trigger] offers(m, ctx, np, l, k, w2, s2) implies exists|y: int|
            0 <= y < r2.len() && (#[trigger] r2[y]).0 == w2 && s2 <= r2[y].1 by {
        if l == at_l && k == at_k {
            let y = choose|y: int| 0 <= y < r2.len() && (#[trigger] r2[y]).0 == w && r2[y].1 >= s;
            assert(w2 == w && s2 == s) by {
                reveal(offers);
            }
        } else {
            assert(read_before(l, k, at_l, at_k));
            let x = choose|x: int| 0 <= x < r.len() && (#[trigger] r[x]).0 == w2 && s2 <= r[x].1;
            let y = choose|y: int| 0 <= y < r2.len() && (#[trigger] r2[y]).0 == (#[trigger] r[x]).0 && r2[y].1 >= r[x].1;
            assert(r2[y].0 == w2);
        }
    }
}

proof fn lemma_listing_skip(
    m: Map<Seq<char>, Seq<(Seq<char>, u32)>>,
    ctx: Seq<Seq<char>>,
    np: Seq<char>,
    r: Seq<(Seq<char>, u32)>,
    at_l: int,
    at_k: int,
)
    requires
        0 <= at_k,
        listing_so_far(m, ctx, np, r, at_l, at_k),
        forall|w: Seq<char>, s: u32| !offers(m, ctx, np, at_l, at_k, w, s),
    ensures
        listing_so_far(m, ctx, np, r, at_l, at_k + 1),
{
    assert forall|y: int| 0 <= y < r.len() implies offered_before(m, ctx, np, (#[trigger] r[y]).0, r[y].1, at_l, at_k + 1) by {
        let (l, k) = choose|l: int, k: int| read_before(l, k, at_l, at_k) && #[trigger] offers(m, ctx, np, l, k, r[y].0, r[y].1);
        assert(read_before(l, k, at_l, at_k + 1));
    }
    assert forall|l: int, k: int, w2: Seq<char>, s2: u32|
        read_before(l, k, at_l, at_k + 1) && #[trigger] offers(m, ctx, np, l, k, w2, s2) implies exists|y: int|
            0 <= y < r.len() && (#[trigger] r[y]).0 == w2 && s2 <= r[y].1 by {
        if l == at_l && k == at_k {
        } else {
            assert(read_before(l, k, at_l, at_k));
        }
    }
}

/// Moving on from context length `at_l`, none of whose entries from `at_k`
/// on offers anything.
proof fn lemma_listing_next_length(
    m: Map<Seq<char>, Seq<(Seq<char>, u32)>>,
    ctx: Seq<Seq<char>>,
    np: Seq<char>,
    r: Seq<(Seq<char>, u32)>,
    at_l: int,
    at_k: int,
)
    requires
        listing_so_far(m, ctx, np, r, at_l, at_k),
        forall|k: int, w: Seq<char>, s: u32| k >= at_k ==> !#[trigger] offers(m, ctx, np, at_l, k, w, s),
    ensures
        listing_so_far(m, ctx, np, r, at_l + 1, 0),
{
    assert forall|y: int| 0 <= y < r.len() implies offered_before(m, ctx, np, (#[trigger] r[y]).0, r[y].1, at_l + 1, 0) by {
        let (l, k) = choose|l: int, k: int| read_before(l, k, at_l, at_k) && #[trigger] offers(m, ctx, np, l, k, r[y].0, r[y].1);
        assert(read_before(l, k, at_l + 1, 0));
    }
    assert forall|l: int, k: int, w2: Seq<char>, s2: u32|
        read_before(l, k, at_l + 1, 0) && #[trigger] offers(m, ctx, np, l, k, w2, s2) implies exists|y: int|
            0 <= y < r.len() && (#[trigger] r[y]).0 == w2 && s2 <= r[y].1 by {
        if l == at_l && k >= at_k {
        } else {
            assert(read_before(l, k, at_l, at_k));
        }
    }
}

/// Every entry there is has been read once the reading has passed the
/// longest context.
proof fn lemma_read_all(
    m: Map<Seq<char>, Seq<(Seq<char>, u32)>>,
    ctx: Seq<Seq<char>>,
    np: Seq<char>,
    l: int,
    k: int,
    w: Seq<char>,
    s: u32,
)
    requires
        offers(m, ctx, np, l, k, w, s),
    ensures
        read_before(l, k, longest_context(ctx.len() as int) + 1, 0),
{
    reveal(offers);
}

proof fn lemma_done_listed(
    m: Map<Seq<char>, Seq<(Seq<char>, u32)>>,
    ctx: Seq<Seq<char>>,
    np: Seq<char>,
    r: Seq<(Seq<char>, u32)>,
    n: int,
)
    requires
        listing_so_far(m, ctx, np, r, longest_context(ctx.len() as int) + 1, 0),
        0 <= n <= r.len(),
    ensures
        forall|x: int| 0 <= x < n ==> offered(m, ctx, np, (#[trigger] r.take(n)[x]).0, r.take(n)[x].1),
        forall|x: int, l: int, k: int, s: u32|
            0 <= x < n && #[trigger] offers(m, ctx, np, l, k, r.take(n)[x].0, s) ==> s <= r.take(n)[x].1,
{
    let t = r.take(n);
    assert forall|x: int| 0 <= x < n implies offered(m, ctx, np, (#[trigger] t[x]).0, t[x].1) by {
        assert(t[x] == r[x]);
        assert(offered_before(m, ctx, np, r[x].0, r[x].1, longest_context(ctx.len() as int) + 1, 0));
    }
    assert forall|x: int, l: int, k: int, s: u32|
        0 <= x < n && #[trigger] offers(m, ctx, np, l, k, t[x].0, s) implies s <= t[x].1 by {
        assert(t[x] == r[x]);
        lemma_read_all(m, ctx, np, l, k, t[x].0, s);
        let y = choose|y: int| 0 <= y < r.len() && (#[trigger] r[y]).0 == r[x].0 && s <= r[y].1;
        if y < x {
            assert(r[y].0 != r[x].0);
        } else if y > x {
            assert(r[x].0 != r[y].0);
        }
    }
}

proof fn lemma_done_left_out(
    m: Map<Seq<char>, Seq<(Seq<char>, u32)>>,
    ctx: Seq<Seq<char>>,
    np: Seq<char>,
    r: Seq<(Seq<char>, u32)>,
    limit: int,
    n: int,
)
    requires
        listing_so_far(m, ctx, np, r, longest_context(ctx.len() as int) + 1, 0),
        0 <= limit,
        n == if r.len() < limit { r.len() as int } else { limit },
    ensures
        forall|l: int, k: int, w: Seq<char>, s: u32|
            #[trigger] offers(m, ctx, np, l, k, w, s) && (forall|x: int| 0 <= x < n ==> r.take(n)[x].0 != w) ==> n
                == limit && forall|x: int| 0 <= x < n ==> ranks_before(r.take(n)[x], (w, s)),
{
    let t = r.take(n);
    assert forall|l: int, k: int, w: Seq<char>, s: u32|
        #[trigger] offers(m, ctx, np, l, k, w, s) && (forall|x: int| 0 <= x < n ==> t[x].0 != w) implies n == limit
            && forall|x: int| 0 <= x < n ==> ranks_before(t[x], (w, s)) by {
        lemma_read_all(m, ctx, np, l, k, w, s);
        let y = choose|y: int| 0 <= y < r.len() && (#[trigger] r[y]).0 == w && s <= r[y].1;
        if y < n {
            assert(t[y] == r[y]);
            assert(t[y].0 != w);
        }
        assert forall|x: int| 0 <= x < n implies ranks_before(t[x], (w, s)) by {
            assert(t[x] == r[x]);
            assert(ranks_before(r[x], r[y]));
        }
    }
}

/// Once every entry has been read, the first `limit` entries of the listing
/// are the suggestions.
proof fn lemma_listing_done(
    m: Map<Seq<char>, Seq<(Seq<char>, u32)>>,
    ctx: Seq<Seq<char>>,
    np: Seq<char>,
    r: Seq<(Seq<char>, u32)>,
    limit: int,
)
    requires
        listing_so_far(m, ctx, np, r, longest_context(ctx.len() as int) + 1, 0),
        0 <= limit,
    ensures
        suggestion_listing(m, ctx, np, limit, r.take(if r.len() < limit { r.len() as int } else { limit })),
{
    let n = if r.len() < limit { r.len() as int } else { limit };
    let t = r.take(n);
    lemma_done_listed(m, ctx, np, r, n);
    lemma_done_left_out(m, ctx, np, r, limit, n);
    assert forall|x: int, y: int| 0 <= x < y < t.len() implies ranks_before(#[trigger] t[x], #[trigger] t[y]) by {
        assert(t[x] == r[x] && t[y] == r[y]);
    }
    assert forall|x: int, y: int| 0 <= x < y < t.len() implies (#[trigger] t[x]).0 != (#[trigger] t[y]).0 by {
        assert(t[x] == r[x] && t[y] == r[y]);
    }
}

impl NextWordModel {
    /// The normalized words of `context`.
    fn normalized_context_words(context: &[String]) -> (r: Vec<Vec<char>>)
        ensures
            views(r@) == normalized_all(string_views(context@)),
    {
        let mut r: Vec<Vec<char>> = Vec::new();
        let mut i: usize = 0;
        while i < context.len()
            invariant
                i <= context@.len(),
                views(r@) == normalized_all(string_views(context@)).take(i as int),
            decreases context@.len() - i,
        {
            let w = normalize_word(&str_chars(context[i].as_str()));
            proof {
                let na = normalized_all(string_views(context@));
                assert(na[i as int] == normalize_word_spec(context@[i as int]@));
                assert(views(r@.push(w)) == views(r@).push(w@));
                assert(na.take(i + 1) == na.take(i as int).push(na[i as int]));
            }
            r.push(w);
            i = i + 1;
        }
        assert(normalized_all(string_views(context@)).take(i as int) == normalized_all(string_views(context@)));
        r
    }

    /// The table key for the last `l` of the normalized context words `norm`.
    fn key_of_last(norm: &Vec<Vec<char>>, l: usize) -> (key: Vec<char>)
        requires
            l <= norm@.len(),
        ensures
            key@ == join_space(views(norm@).skip(norm@.len() - l)),
    {
        let n = norm.len();
        let mut tail: Vec<Vec<char>> = Vec::new();
        let mut t: usize = n - l;
        while t < n
            invariant
                n == norm@.len(),
                l <= n,
                n - l <= t <= n,
                views(norm@).len() == n,
                views(tail@) == views(norm@).subrange(n - l, t as int),
            decreases n - t,
        {
            let piece = copy_range(&norm[t], 0, norm[t].len());
            proof {
                assert(norm@[t as int]@.subrange(0, norm@[t as int]@.len() as int) == norm@[t as int]@);
                assert(views(tail@.push(piece)) == views(tail@).push(piece@));
                assert(views(norm@).subrange(n - l, t + 1) == views(norm@).subrange(n - l, t as int).push(
                    views(norm@)[t as int],
                ));
            }
            tail.push(piece);
            t = t + 1;
        }
        assert(views(norm@).subrange(n - l, n as int) == views(norm@).skip(n - l));
        join_with_space(&tail)
    }

    /// Next words after `context`, best first: the table is consulted with
    /// the last one to four context words, a word's score is the number of
    /// context words times 1,000,000 plus its weight (saturating), a word
    /// reached several ways keeps its best score, only words starting with
    /// the normalized `prefix` count (an empty one admits all), ties go to
    /// the word that sorts first, and at most `limit` are returned.
    pub fn suggest(&self, context: &[String], prefix: &str, limit: usize) -> (r: Vec<(String, u32)>)
        requires
            self.wf(),
        ensures
            suggestion_listing(
                self@,
                string_views(context@),
                normalize_word_spec(prefix@),
                limit as int,
                string_pair_views(r@),
            ),
    {
        let ghost m = self@;
        let ghost ctx = string_views(context@);
        let np = normalize_word(&str_chars(prefix));
        let ghost npv = np@;
        let n = context.len();
        let maxc: usize = if n < 4 {
            n
        } else {
            4
        };
        let norm = Self::normalized_context_words(context);
        let mut out: Vec<(Vec<char>, u32)> = Vec::new();
        let mut l: usize = 1;
        proof {
            assert(listing_so_far(m, ctx, npv, pair_views(out@), 1, 0)) by {
                assert forall|l2: int, k: int, w: Seq<char>, s: u32|
                    read_before(l2, k, 1, 0) && #[trigger] offers(m, ctx, npv, l2, k, w, s) implies false by {
                    reveal(offers);
                }
            }
        }
        while l <= maxc
            invariant
                self.wf(),
                m == self@,
                ctx == string_views(context@),
                npv == np@,
                n == ctx.len(),
                maxc == longest_context(n as int),
                1 <= l <= maxc + 1,
                views(norm@) == normalized_all(ctx),
                listing_so_far(m, ctx, npv, pair_views(out@), l as int, 0),
            decreases maxc + 1 - l,
        {
            assert(views(norm@).len() == norm@.len());
            let key = Self::key_of_last(&norm, l);
            proof {
                assert(normalized_all(ctx).skip(n - l) == normalized_all(ctx.skip(n - l)));
                assert(key@ == context_key(ctx, l as int));
            }
            match self.find(&key) {
                Some(i) => {
                    proof {
                        self.lemma_index_of(i as int);
                    }
                    let entries = &self.transitions[i].1;
                    let ghost ev = pair_views(entries@);
                    assert(m[key@] == ev);
                    let bonus: u32 = (l as u32) * 1_000_000;
                    let mut k: usize = 0;
                    while k < entries.len()
                        invariant
                            1 <= l <= maxc,
                            maxc == longest_context(n as int),
                            n == ctx.len(),
                            key@ == context_key(ctx, l as int),
                            m.contains_key(key@),
                            m[key@] == ev,
                            ev == pair_views(entries@),
                            npv == np@,
                            bonus == l * 1_000_000,
                            k <= entries@.len(),
                            listing_so_far(m, ctx, npv, pair_views(out@), l as int, k as int),
                        decreases entries@.len() - k,
                    {
                        let ew = &entries[k].0;
                        assert(ev[k as int] == (ew@, entries@[k as int].1));
                        if np.len() == 0 || starts_with(ew, &np) {
                            let score = bonus.saturating_add(entries[k].1);
                            let ghost r = pair_views(out@);
                            let word = copy_range(ew, 0, ew.len());
                            assert(ew@.subrange(0, ew@.len() as int) == ew@);
                            absorb(&mut out, word, score);
                            proof {
                                assert(offers(m, ctx, npv, l as int, k as int, ew@, score)) by {
                                    reveal(offers);
                                    assert(m[key@][k as int] == (ew@, entries@[k as int].1));
                                }
                                lemma_listing_step(m, ctx, npv, r, pair_views(out@), l as int, k as int, ew@, score);
                            }
                        } else {
                            proof {
                                assert forall|w: Seq<char>, s: u32| !offers(m, ctx, npv, l as int, k as int, w, s) by {
                                    reveal(offers);
                                    assert(m[key@][k as int] == (ew@, entries@[k as int].1));
                                }
                                lemma_listing_skip(m, ctx, npv, pair_views(out@), l as int, k as int);
                            }
                        }
                        k = k + 1;
                    }
                    proof {
                        assert forall|k2: int, w: Seq<char>, s: u32| k2 >= k implies !#[trigger] offers(m, ctx, npv, l as int, k2, w, s) by {
                            reveal(offers);
                        }
                        lemma_listing_next_length(m, ctx, npv, pair_views(out@), l as int, k as int);
                    }
                },
                None => {
                    proof {
                        assert forall|k2: int, w: Seq<char>, s: u32| k2 >= 0 implies !#[trigger] offers(m, ctx, npv, l as int, k2, w, s) by {
                            reveal(offers);
                            assert(!m.contains_key(key@));
                        }
                        lemma_listing_next_length(m, ctx, npv, pair_views(out@), l as int, 0);
                    }
                },
            }
            l = l + 1;
        }
        let ghost rv = pair_views(out@);
        proof {
            lemma_listing_done(m, ctx, npv, rv, limit as int);
        }
        let count = if out.len() < limit {
            out.len()
        } else {
            limit
        };
        let mut res: Vec<(String, u32)> = Vec::new();
        let mut j: usize = 0;
        while j < count
            invariant
                count <= out@.len(),
                rv == pair_views(out@),
                j <= count,
                string_pair_views(res@) == rv.take(j as int),
            decreases count - j,
        {
            let s = chars_to_string(&out[j].0);
            proof {
                assert(rv[j as int] == (out@[j as int].0@, out@[j as int].1));
                assert(string_pair_views(res@.push((s, out@[j as int].1))) == string_pair_views(res@).push((s@, out@[j as int].1)));
                assert(rv.take(j + 1) == rv.take(j as int).push(rv[j as int]));
            }
            res.push((s, out[j].1));
            j = j + 1;
        }
        res
    }
}

/// Every weight in the table is below 1,000,000.
pub open spec fn weights_below_million(m: Map<Seq<char>, Seq<(Seq<char>, u32)>>) -> bool {
    forall|key: Seq<char>, i: int| m.contains_key(key) && 0 <= i < m[key].len() ==> #[trigger] m[key][i].1 < 1_000_000
}

/// Some entry under the last `l` context words offers `w` with score `s`.
pub open spec fn offered_through(
    m: Map<Seq<char>, Seq<(Seq<char>, u32)>>,
    ctx: Seq<Seq<char>>,
    np: Seq<char>,
    w: Seq<char>,
    s: u32,
    l: int,
) -> bool {
    exists|k: int| #[trigger] offers(m, ctx, np, l, k, w, s)
}

/// A score below the saturation point reads as the context length in
/// millions and the weight below.
proof fn lemma_score_context(
    m: Map<Seq<char>, Seq<(Seq<char>, u32)>>,
    ctx: Seq<Seq<char>>,
    np: Seq<char>,
    l: int,
    k: int,
    w: Seq<char>,
    s: u32,
)
    requires
        weights_below_million(m),
        offers(m, ctx, np, l, k, w, s),
    ensures
        s / 1_000_000 == l,
{
    reveal(offers);
    let key = context_key(ctx, l);
    assert(m[key][k].1 < 1_000_000);
}

/// Longest context first, weight second: while every weight of the table is
/// below 1,000,000, suggestions reached through more context words come
/// before those reached through fewer, and each listed word carries the
/// longest context that offers it (its score in millions).
pub proof fn law_longest_context_first(
    m: Map<Seq<char>, Seq<(Seq<char>, u32)>>,
    ctx: Seq<Seq<char>>,
    np: Seq<char>,
    limit: int,
    r: Seq<(Seq<char>, u32)>,
)
    requires
        suggestion_listing(m, ctx, np, limit, r),
        weights_below_million(m),
    ensures
        forall|x: int, y: int| 0 <= x < y < r.len() ==> (#[trigger] r[x]).1 / 1_000_000 >= (#[trigger] r[y]).1 / 1_000_000,
        forall|x: int, l: int, k: int, s: u32|
            0 <= x < r.len() && #[trigger] offers(m, ctx, np, l, k, r[x].0, s) ==> l <= r[x].1 / 1_000_000,
        forall|x: int|
            0 <= x < r.len() ==> offered_through(m, ctx, np, (#[trigger] r[x]).0, r[x].1, (r[x].1 / 1_000_000) as int),
{
    assert forall|x: int, y: int| 0 <= x < y < r.len() implies (#[trigger] r[x]).1 / 1_000_000 >= (
    #[trigger] r[y]).1 / 1_000_000 by {
        assert(ranks_before(r[x], r[y]));
        assert(r[x].1 >= r[y].1);
    }
    assert forall|x: int, l: int, k: int, s: u32|
        0 <= x < r.len() && #[trigger] offers(m, ctx, np, l, k, r[x].0, s) implies l <= r[x].1 / 1_000_000 by {
        lemma_score_context(m, ctx, np, l, k, r[x].0, s);
        assert(s <= r[x].1);
    }
    assert forall|x: int| 0 <= x < r.len() implies offered_through(
        m,
        ctx,
        np,
        (#[trigger] r[x]).0,
        r[x].1,
        (r[x].1 / 1_000_000) as int,
    ) by {
        assert(offered(m, ctx, np, r[x].0, r[x].1));
        let (l, k) = choose|l: int, k: int| #[trigger] offers(m, ctx, np, l, k, r[x].0, r[x].1);
        lemma_score_context(m, ctx, np, l, k, r[x].0, r[x].1);
    }
}

/// Two entries never rank before each other.
proof fn lemma_ranks_asymmetric(a: (Seq<char>, u32), b: (Seq<char>, u32))
    requires
        ranks_before(a, b),
    ensures
        !ranks_before(b, a),
{
    law_lex_strict_total_order(a.0, b.0, a.0);
    law_lex_strict_total_order(a.0, a.0, a.0);
}

/// Two listings that agree before position `i` agree at `i`.
proof fn lemma_listings_agree_at(
    m: Map<Seq<char>, Seq<(Seq<char>, u32)>>,
    ctx: Seq<Seq<char>>,
    np: Seq<char>,
    limit: int,
    r1: Seq<(Seq<char>, u32)>,
    r2: Seq<(Seq<char>, u32)>,
    i: int,
)
    requires
        suggestion_listing(m, ctx, np, limit, r1),
        suggestion_listing(m, ctx, np, limit, r2),
        0 <= i < r1.len(),
        i < r2.len(),
        forall|j: int| 0 <= j < i ==> r1[j] == r2[j],
    ensures
        r1[i] == r2[i],
{
    let a = r1[i];
    let b = r2[i];
    assert(offered(m, ctx, np, a.0, a.1));
    assert(offered(m, ctx, np, b.0, b.1));
    let (la, ka) = choose|l: int, k: int| #[trigger] offers(m, ctx, np, l, k, a.0, a.1);
    let (lb, kb) = choose|l: int, k: int| #[trigger] offers(m, ctx, np, l, k, b.0, b.1);
    if a.0 == b.0 {
        assert(offers(m, ctx, np, la, ka, r2[i].0, a.1));
        assert(offers(m, ctx, np, lb, kb, r1[i].0, b.1));
    } else {
        lemma_ranks_total(a, b);
        if ranks_before(a, b) {
            if exists|j: int| 0 <= j < r2.len() && r2[j].0 == a.0 {
                let j = choose|j: int| 0 <= j < r2.len() && r2[j].0 == a.0;
                if j < i {
                    assert(r1[j] == r2[j]);
                    assert(r1[j].0 != r1[i].0);
                } else {
                    assert(j != i);
                    assert(ranks_before(r2[i], r2[j]));
                    assert(r2[j].1 == a.1) by {
                        assert(offers(m, ctx, np, la, ka, r2[j].0, a.1));
                        let (lj, kj) = choose|l: int, k: int| #[trigger] offers(m, ctx, np, l, k, r2[j].0, r2[j].1);
                        assert(offers(m, ctx, np, lj, kj, r1[i].0, r2[j].1));
                    }
                    assert(r2[j] == a);
                    lemma_ranks_asymmetric(a, b);
                }
            } else {
                assert(offers(m, ctx, np, la, ka, a.0, a.1));
                assert(ranks_before(r2[i], (a.0, a.1)));
                lemma_ranks_asymmetric(a, b);
            }
        } else {
            if exists|j: int| 0 <= j < r1.len() && r1[j].0 == b.0 {
                let j = choose|j: int| 0 <= j < r1.len() && r1[j].0 == b.0;
                if j < i {
                    assert(r1[j] == r2[j]);
                    assert(r2[j].0 != r2[i].0);
                } else {
                    assert(j != i);
                    assert(ranks_before(r1[i], r1[j]));
                    assert(r1[j].1 == b.1) by {
                        assert(offers(m, ctx, np, lb, kb, r1[j].0, b.1));
                        let (lj, kj) = choose|l: int, k: int| #[trigger] offers(m, ctx, np, l, k, r1[j].0, r1[j].1);
                        assert(offers(m, ctx, np, lj, kj, r2[i].0, r1[j].1));
                    }
                    assert(r1[j] == b);
                    lemma_ranks_asymmetric(b, a);
                }
            } else {
                assert(offers(m, ctx, np, lb, kb, b.0, b.1));
                assert(ranks_before(r1[i], (b.0, b.1)));
                lemma_ranks_asymmetric(b, a);
            }
        }
    }
}

proof fn lemma_listings_agree_upto(
    m: Map<Seq<char>, Seq<(Seq<char>, u32)>>,
    ctx: Seq<Seq<char>>,
    np: Seq<char>,
    limit: int,
    r1: Seq<(Seq<char>, u32)>,
    r2: Seq<(Seq<char>, u32)>,
    n: int,
)
    requires
        suggestion_listing(m, ctx, np, limit, r1),
        suggestion_listing(m, ctx, np, limit, r2),
        0 <= n <= r1.len(),
        n <= r2.len(),
    ensures
        forall|j: int| 0 <= j < n ==> r1[j] == r2[j],
    decreases n,
{
    if n > 0 {
        lemma_listings_agree_upto(m, ctx, np, limit, r1, r2, n - 1);
        lemma_listings_agree_at(m, ctx, np, limit, r1, r2, n - 1);
    }
}

proof fn lemma_listing_not_longer(
    m: Map<Seq<char>, Seq<(Seq<char>, u32)>>,
    ctx: Seq<Seq<char>>,
    np: Seq<char>,
    limit: int,
    r1: Seq<(Seq<char>, u32)>,
    r2: Seq<(Seq<char>, u32)>,
)
    requires
        suggestion_listing(m, ctx, np, limit, r1),
        suggestion_listing(m, ctx, np, limit, r2),
        r2.len() <= r1.len(),
    ensures
        r1.len() == r2.len(),
{
    lemma_listings_agree_upto(m, ctx, np, limit, r1, r2, r2.len() as int);
    if r1.len() > r2.len() {
        let n = r2.len() as int;
        let a = r1[n];
        assert(offered(m, ctx, np, a.0, a.1));
        let (la, ka) = choose|l: int, k: int| #[trigger] offers(m, ctx, np, l, k, a.0, a.1);
        assert forall|x: int| 0 <= x < r2.len() implies r2[x].0 != a.0 by {
            assert(r1[x] == r2[x]);
            assert(r1[x].0 != r1[n].0);
        }
        assert(offers(m, ctx, np, la, ka, a.0, a.1));
    }
}

/// The suggestions are determined: two listings that each meet what
/// `suggest` promises are the same. So `suggest` gives the first `limit`
/// offered words, each with its best score, sorted by score and then by word.
pub proof fn law_suggestions_determined(
    m: Map<Seq<char>, Seq<(Seq<char>, u32)>>,
    ctx: Seq<Seq<char>>,
    np: Seq<char>,
    limit: int,
    r1: Seq<(Seq<char>, u32)>,
    r2: Seq<(Seq<char>, u32)>,
)
    requires
        suggestion_listing(m, ctx, np, limit, r1),
        suggestion_listing(m, ctx, np, limit, r2),
    ensures
        r1 == r2,
{
    if r2.len() <= r1.len() {
        lemma_listing_not_longer(m, ctx, np, limit, r1, r2);
    } else {
        lemma_listing_not_longer(m, ctx, np, limit, r2, r1);
    }
    lemma_listings_agree_upto(m, ctx, np, limit, r1, r2, r1.len() as int);
    assert(r1 =~= r2);
}

/// Only words that start with the normalized prefix are suggested (an empty
/// prefix lets every word through).
pub proof fn law_suggestions_match_prefix(
    m: Map<Seq<char>, Seq<(Seq<char>, u32)>>,
    ctx: Seq<Seq<char>>,
    np: Seq<char>,
    limit: int,
    r: Seq<(Seq<char>, u32)>,
)
    requires
        suggestion_listing(m, ctx, np, limit, r),
    ensures
        forall|x: int| 0 <= x < r.len() ==> admits(np, (#[trigger] r[x]).0),
        ctx.len() == 0 || limit == 0 ==> r.len() == 0,
{
    reveal(offers);
    assert forall|x: int| 0 <= x < r.len() implies admits(np, (#[trigger] r[x]).0) by {
        assert(offered(m, ctx, np, r[x].0, r[x].1));
    }
    if ctx.len() == 0 && r.len() > 0 {
        assert(offered(m, ctx, np, r[0].0, r[0].1));
    }
}

/// The phrase transitions the model starts with: common English phrases,
/// one `context<TAB>word<TAB>weight` line each.
pub const NEXT_WORDS_TABLE: &'static str = "\
# context\tword\tweight\n\
what\tdoes\t900\n\
what\tis\t850\n\
what\tare\t700\n\
what\tdo\t650\n\
what\tabout\t400\n\
what does\tthe\t900\n\
what does\tit\t600\n\
what does\tthat\t500\n\
what does the\tfox\t900\n\
what does the\tword\t400\n\
what does the fox\tsay\t900\n\
how\tare\t800\n\
how\tdo\t700\n\
how\tto\t650\n\
how\tmuch\t500\n\
how are\tyou\t900\n\
thank\tyou\t900\n\
see\tyou\t700\n\
see you\tlater\t800\n\
i\tam\t800\n\
i\thave\t700\n\
i\tthink\t650\n\
i\twant\t600\n\
i am\tgoing\t700\n\
i am\tnot\t650\n\
going\tto\t900\n\
going to\tbe\t800\n\
want\tto\t900\n\
need\tto\t850\n\
have\tto\t700\n\
of\tthe\t900\n\
in\tthe\t900\n\
on\tthe\t850\n\
at\tthe\t800\n\
to\tbe\t800\n\
to\tthe\t750\n\
is\ta\t700\n\
is\tthe\t650\n\
it\tis\t800\n\
this\tis\t850\n\
there\tis\t800\n\
there\tare\t700\n\
good\tmorning\t800\n\
good\tluck\t600\n\
as\twell\t700\n\
as well\tas\t800\n\
let\tme\t800\n\
let me\tknow\t850\n\
you\tcan\t700\n\
you\tare\t650\n";

impl NextWordModel {
    /// The model built from `NEXT_WORDS_TABLE`.
    pub fn load_builtin() -> (m: Self)
        ensures
            m.wf(),
            m@ == transitions_of_lines(lines(NEXT_WORDS_TABLE@)),
    {
        Self::from_str(NEXT_WORDS_TABLE)
    }
}
} // verus!

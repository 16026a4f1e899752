//! The candidates the overlay offers, and the overlay's list with its
//! selection.

use vstd::prelude::*;
use crate::predictor::{Predictor, fuzzy_listing, words_of, string_views_of};
use crate::next_word::{NextWordModel, suggestion_listing, string_views, normalize_word_spec};
use crate::trie::{lists_prefix_words, by_weight_desc, string_pair_views};
use crate::text::{lowercased, chars_equal, str_chars};
use crate::config::{MAX_FUZZY_DISTANCE, MAX_FUZZY_CANDIDATES};

verus! {

/// A word offered in the overlay.
#[derive(Debug, Clone)]
pub struct Candidate {
    pub word: String,
    /// Found by fuzzy matching, not by its prefix; shown as `~word`.
    pub fuzzy: bool,
}

pub open spec fn candidate_views(r: Seq<Candidate>) -> Seq<(Seq<char>, bool)> {
    r.map_values(|c: Candidate| (c.word@, c.fuzzy))
}

/// Words offered as exact matches.
pub open spec fn exact(ws: Seq<Seq<char>>) -> Seq<(Seq<char>, bool)> {
    ws.map_values(|w: Seq<char>| (w, false))
}

/// Words offered as fuzzy matches.
pub open spec fn approximate(ws: Seq<Seq<char>>) -> Seq<(Seq<char>, bool)> {
    ws.map_values(|w: Seq<char>| (w, true))
}

/// `acc` extended, while it is shorter than `limit`, by the words of `ds`
/// it does not hold yet, in order.
pub open spec fn add_missing(acc: Seq<Seq<char>>, ds: Seq<Seq<char>>, limit: int) -> Seq<Seq<char>>
    decreases ds.len(),
{
    if ds.len() == 0 {
        acc
    } else {
        let a = add_missing(acc, ds.drop_last(), limit);
        if a.len() < limit && !a.contains(ds.last()) {
            a.push(ds.last())
        } else {
            a
        }
    }
}

/// The exact candidates for the typed `input`: the next-word suggestions
/// `cs` (which start with the input), then, for a non-empty input, the
/// dictionary's prefix matches `ds` not offered yet, up to `limit`.
pub open spec fn merged_words(input: Seq<char>, limit: int, cs: Seq<(Seq<char>, u32)>, ds: Seq<(Seq<char>, u32)>) -> Seq<Seq<char>> {
    if input.len() == 0 {
        words_of(cs)
    } else {
        add_missing(words_of(cs), words_of(ds), limit)
    }
}

/// The fuzzy candidates: the first `MAX_FUZZY_CANDIDATES` (at most `limit`)
/// words of the fuzzy listing `fz`.
pub open spec fn fuzzy_pick(limit: int, fz: Seq<(Seq<char>, u32)>) -> Seq<(Seq<char>, bool)> {
    let k = if limit < MAX_FUZZY_CANDIDATES { limit } else { MAX_FUZZY_CANDIDATES as int };
    approximate(words_of(fz).take(if fz.len() < k { fz.len() as int } else { k }))
}

/// Some fuzzy listing for `input` gives the candidates `r`.
pub open spec fn fuzzy_candidates(m: Map<Seq<char>, u32>, input: Seq<char>, limit: int, r: Seq<(Seq<char>, bool)>) -> bool {
    exists|fz: Seq<(Seq<char>, u32)>|
        #[trigger] fuzzy_listing(m, input, MAX_FUZZY_DISTANCE as nat, fz) && r == fuzzy_pick(limit, fz)
}

/// Whether `ws` holds `w`.
fn holds_word(ws: &Vec<String>, w: &String) -> (b: bool)
    ensures
        b == string_views_of(ws@).contains(w@),
{
    let wc = str_chars(w.as_str());
    let mut i: usize = 0;
    while i < ws.len()
        invariant
            i <= ws@.len(),
            wc@ == w@,
            forall|k: int| 0 <= k < i ==> ws@[k]@ != w@,
        decreases ws@.len() - i,
    {
        if chars_equal(&str_chars(ws[i].as_str()), &wc) {
            assert(string_views_of(ws@)[i as int] == w@);
            return true;
        }
        i = i + 1;
    }
    assert forall|k: int| 0 <= k < string_views_of(ws@).len() implies string_views_of(ws@)[k] != w@ by {
        assert(string_views_of(ws@)[k] == ws@[k]@);
    }
    false
}

/// Candidates offered for `input` after the confirmed words `context`.
pub fn candidates(
    predictor: &Predictor,
    model: &NextWordModel,
    context: &[String],
    input: &str,
    limit: usize,
) -> (r: Vec<Candidate>)
    requires
        predictor.wf(),
        model.wf(),
    ensures
        exists|cs: Seq<(Seq<char>, u32)>, ds: Seq<(Seq<char>, u32)>|
            #![trigger suggestion_listing(model@, string_views(context@), normalize_word_spec(input@), limit as int, cs), merged_words(input@, limit as int, cs, ds)]
            {
                let m = merged_words(input@, limit as int, cs, ds);
                &&& suggestion_listing(model@, string_views(context@), normalize_word_spec(input@), limit as int, cs)
                &&& input@.len() > 0 ==> lists_prefix_words(predictor@, lowercased(input@), ds) && by_weight_desc(
                    ds,
                )
                &&& m.len() > 0 || input@.len() == 0 ==> candidate_views(r@) == exact(m)
                &&& m.len() == 0 && input@.len() > 0 ==> fuzzy_candidates(
                    predictor@,
                    input@,
                    limit as int,
                    candidate_views(r@),
                )
            },
{
    let ctx = model.suggest(context, input, limit);
    let ghost cs = string_pair_views(ctx@);
    let mut words: Vec<String> = Vec::new();
    let mut i: usize = 0;
    while i < ctx.len()
        invariant
            i <= ctx@.len(),
            cs == string_pair_views(ctx@),
            string_views_of(words@) == words_of(cs).take(i as int),
        decreases ctx@.len() - i,
    {
        let w = ctx[i].0.clone();
        proof {
            assert(string_views_of(words@.push(w)) == string_views_of(words@).push(w@));
            assert(words_of(cs).take(i + 1) == words_of(cs).take(i as int).push(cs[i as int].0));
        }
        words.push(w);
        i = i + 1;
    }
    assert(words_of(cs).take(i as int) == words_of(cs));
    let ghost mut ds = Seq::<(Seq<char>, u32)>::empty();
    if !input.is_empty() {
        let found = predictor.predict_all(input);
        proof {
            ds = choose|listing: Seq<(Seq<char>, u32)>|
                {
                    &&& lists_prefix_words(predictor@, lowercased(input@), listing)
                    &&& by_weight_desc(listing)
                    &&& #[trigger] words_of(listing) == string_views_of(found@)
                };
        }
        let ghost base = string_views_of(words@);
        let mut j: usize = 0;
        while j < found.len()
            invariant
                j <= found@.len(),
                words_of(ds) == string_views_of(found@),
                string_views_of(words@) == add_missing(base, words_of(ds).take(j as int), limit as int),
            decreases found@.len() - j,
        {
            assert(words_of(ds).take(j + 1).drop_last() == words_of(ds).take(j as int));
            assert(words_of(ds)[j as int] == found@[j as int]@);
            if words.len() < limit && !holds_word(&words, &found[j]) {
                let w = found[j].clone();
                assert(string_views_of(words@.push(w)) == string_views_of(words@).push(w@));
                words.push(w);
            }
            j = j + 1;
        }
        assert(words_of(ds).take(j as int) == words_of(ds));
    }
    let ghost m = string_views_of(words@);
    let mut r: Vec<Candidate> = Vec::new();
    if words.len() > 0 || input.is_empty() {
        let mut k: usize = 0;
        while k < words.len()
            invariant
                k <= words@.len(),
                m == string_views_of(words@),
                candidate_views(r@) == exact(m.take(k as int)),
            decreases words@.len() - k,
        {
            let c = Candidate { word: words[k].clone(), fuzzy: false };
            proof {
                assert(candidate_views(r@.push(c)) == candidate_views(r@).push((c.word@, false)));
                assert(exact(m.take(k + 1)) == exact(m.take(k as int)).push((m[k as int], false)));
            }
            r.push(c);
            k = k + 1;
        }
        assert(m.take(k as int) == m);
    } else {
        let fuzzy = predictor.predict_fuzzy(input, MAX_FUZZY_DISTANCE);
        let ghost fz = string_pair_views(fuzzy@);
        let cap: usize = if limit < MAX_FUZZY_CANDIDATES {
            limit
        } else {
            MAX_FUZZY_CANDIDATES
        };
        let n: usize = if fuzzy.len() < cap {
            fuzzy.len()
        } else {
            cap
        };
        let ghost fw = words_of(fz);
        let mut k: usize = 0;
        while k < n
            invariant
                k <= n <= fuzzy@.len(),
                fz == string_pair_views(fuzzy@),
                fw == words_of(fz),
                candidate_views(r@) == approximate(fw.take(k as int)),
            decreases n - k,
        {
            let c = Candidate { word: fuzzy[k].0.clone(), fuzzy: true };
            proof {
                assert(fw[k as int] == fuzzy@[k as int].0@);
                assert(candidate_views(r@.push(c)) == candidate_views(r@).push((c.word@, true)));
                assert(approximate(fw.take(k + 1)) == approximate(fw.take(k as int)).push((fw[k as int], true)));
            }
            r.push(c);
            k = k + 1;
        }
        assert(candidate_views(r@) == fuzzy_pick(limit as int, fz));
        assert(fuzzy_candidates(predictor@, input@, limit as int, candidate_views(r@)));
    }
    assert(merged_words(input@, limit as int, cs, ds) == m);
    r
}


/// The overlay's candidates and which one is selected.
pub struct CandidateList {
    pub candidates: Vec<Candidate>,
    pub selected: usize,
    /// The overlay is on screen.
    pub visible: bool,
}

impl CandidateList {
    /// No candidates, hidden.
    pub fn new() -> (l: Self)
        ensures
            l.candidates@.len() == 0,
            l.selected == 0,
            !l.visible,
    {
        CandidateList { candidates: Vec::new(), selected: 0, visible: false }
    }

    /// Shows `candidates` with the first selected; an empty list hides the
    /// overlay instead.
    pub fn show(&mut self, candidates: Vec<Candidate>)
        ensures
            candidates@.len() > 0 ==> final(self).candidates@ == candidates@ && final(self).selected == 0
                && final(self).visible,
            candidates@.len() == 0 ==> !final(self).visible && final(self).selected == old(self).selected,
            candidates@.len() == 0 && old(self).visible ==> final(self).candidates@.len() == 0,
            candidates@.len() == 0 && !old(self).visible ==> final(self).candidates == old(self).candidates,
    {
        if candidates.len() == 0 {
            self.dismiss();
            return;
        }
        self.candidates = candidates;
        self.selected = 0;
        self.visible = true;
    }

    /// Takes the overlay off screen; returns whether it was on screen.
    pub fn dismiss(&mut self) -> (was_visible: bool)
        ensures
            was_visible == old(self).visible,
            final(self).selected == old(self).selected,
            !final(self).visible,
            old(self).visible ==> final(self).candidates@.len() == 0,
            !old(self).visible ==> final(self).candidates == old(self).candidates,
    {
        if self.visible {
            self.candidates = Vec::new();
            self.visible = false;
            true
        } else {
            false
        }
    }

    /// Selects candidate `index` if there is one.
    pub fn set_selected(&mut self, index: usize) -> (ok: bool)
        ensures
            ok == (index < old(self).candidates@.len()),
            final(self).selected == (if ok {
                index
            } else {
                old(self).selected
            }),
            final(self).candidates == old(self).candidates,
            final(self).visible == old(self).visible,
    {
        if index < self.candidates.len() {
            self.selected = index;
            true
        } else {
            false
        }
    }

    /// The selected word, if the selection points at a candidate.
    pub fn selected_word(&self) -> (w: Option<String>)
        ensures
            self.selected < self.candidates@.len() ==> (w matches Some(s) && s@ == self.candidates@[self.selected as int].word@),
            self.selected >= self.candidates@.len() ==> w is None,
    {
        if self.selected < self.candidates.len() {
            Some(self.candidates[self.selected].word.clone())
        } else {
            None
        }
    }

    /// The selected word and its index.
    pub fn selected_info(&self) -> (w: Option<(String, usize)>)
        ensures
            self.selected < self.candidates@.len() ==> (w matches Some(p) && p.0@ == self.candidates@[
                self.selected as int].word@ && p.1 == self.selected),
            self.selected >= self.candidates@.len() ==> w is None,
    {
        if self.selected < self.candidates.len() {
            Some((self.candidates[self.selected].word.clone(), self.selected))
        } else {
            None
        }
    }
}
} // verus!

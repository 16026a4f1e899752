//! Application state: the mode, the word being typed, the shown prediction,
//! the recently confirmed words and the configuration.

use vstd::prelude::*;
use crate::config::AppConfig;
use crate::text::{
    str_chars, chars_to_string, trim, trim_ws, lower_ascii_seq, lowercase_ascii_chars, is_word_char,
    is_word_character, string_push,
};
use crate::next_word::string_views;

verus! {

/// Running mode.
#[derive(Debug, Clone, Copy, PartialEq, Eq, Structural)]
pub enum AppMode {
    /// Predictions and completion are on.
    Active,
    /// Nothing is triggered.
    Invisible,
}

/// The mode stored as `v`: 0 is active, anything else invisible.
pub open spec fn mode_of(v: u8) -> AppMode {
    if v == 0 {
        AppMode::Active
    } else {
        AppMode::Invisible
    }
}

/// The number a mode is stored as: 0 when active, 1 when invisible.
pub open spec fn code_of(m: AppMode) -> u8 {
    if m == AppMode::Active {
        0
    } else {
        1
    }
}

impl AppMode {
    /// The mode stored as `v`: 0 is active, anything else invisible.
    pub fn from_u8(v: u8) -> (m: Self)
        ensures
            m == mode_of(v),
    {
        if v == 0 {
            AppMode::Active
        } else {
            AppMode::Invisible
        }
    }

    /// The number the mode is stored as: 0 when active, 1 when invisible.
    pub fn to_u8(self) -> (v: u8)
        ensures
            v == code_of(self),
    {
        match self {
            AppMode::Active => 0,
            AppMode::Invisible => 1,
        }
    }

    pub open spec fn toggled(self) -> AppMode {
        match self {
            AppMode::Active => AppMode::Invisible,
            AppMode::Invisible => AppMode::Active,
        }
    }

    /// The other mode.
    pub fn toggle(self) -> (m: Self)
        ensures
            m == self.toggled(),
    {
        match self {
            AppMode::Active => AppMode::Invisible,
            AppMode::Invisible => AppMode::Active,
        }
    }

    pub fn is_active(self) -> (b: bool)
        ensures
            b == (self == AppMode::Active),
    {
        match self {
            AppMode::Active => true,
            AppMode::Invisible => false,
        }
    }
}

/// Toggling twice gives the mode back, and toggling always changes it.
pub proof fn law_toggle_twice(m: AppMode)
    ensures
        m.toggled().toggled() == m,
        m.toggled() != m,
{
}

/// A mode stored as a number reads back as itself.
pub proof fn law_mode_round_trip(m: AppMode)
    ensures
        mode_of(code_of(m)) == m,
{
}

/// Most confirmed words kept as context.
pub const CONTEXT_WORDS: usize = 4;

/// A confirmed word: trimmed and lower-cased (ASCII).
pub open spec fn committed_word(word: Seq<char>) -> Seq<char> {
    lower_ascii_seq(trim_ws(word))
}

/// A confirmed word is kept only if it is non-empty and made of letters,
/// `'` and `-`.
pub open spec fn acceptable_word(w: Seq<char>) -> bool {
    w.len() > 0 && forall|i: int| 0 <= i < w.len() ==> is_word_char(#[trigger] w[i])
}

/// The last four entries of `s` (all of them if there are fewer).
pub open spec fn last_four(s: Seq<Seq<char>>) -> Seq<Seq<char>> {
    if s.len() > 4 {
        s.skip(s.len() - 4)
    } else {
        s
    }
}

/// The context after confirming `word`.
pub open spec fn context_after(ctx: Seq<Seq<char>>, word: Seq<char>) -> Seq<Seq<char>> {
    let w = committed_word(word);
    if acceptable_word(w) {
        last_four(ctx.push(w))
    } else {
        ctx
    }
}

/// Shared application state.
pub struct AppState {
    /// The running mode.
    pub mode: AppMode,
    /// The word being typed.
    pub buffer: String,
    /// The prediction shown, if any.
    pub prediction: Option<String>,
    /// The recently confirmed words, oldest first, for next-word prediction.
    pub context: Vec<String>,
    /// The configuration in use.
    pub config: AppConfig,
}

/// A copy of `v`, string by string.
pub fn copy_strings(v: &Vec<String>) -> (r: Vec<String>)
    ensures
        string_views(r@) == string_views(v@),
{
    let mut r: Vec<String> = Vec::new();
    let mut i: usize = 0;
    while i < v.len()
        invariant
            i <= v@.len(),
            string_views(r@) == string_views(v@).take(i as int),
        decreases v@.len() - i,
    {
        let s = v[i].clone();
        proof {
            assert(string_views(r@.push(s)) == string_views(r@).push(s@));
            assert(string_views(v@).take(i + 1) == string_views(v@).take(i as int).push(v@[i as int]@));
        }
        r.push(s);
        i = i + 1;
    }
    assert(string_views(v@).take(i as int) == string_views(v@));
    r
}

impl AppState {
    /// Active, with an empty buffer, no prediction and no context.
    pub fn new(config: AppConfig) -> (s: Self)
        ensures
            s.mode == AppMode::Active,
            s.buffer@ == Seq::<char>::empty(),
            s.prediction is None,
            s.context@.len() == 0,
            s.config == config,
    {
        AppState {
            mode: AppMode::Active,
            buffer: String::new(),
            prediction: None,
            context: Vec::new(),
            config,
        }
    }

    pub fn get_mode(&self) -> (m: AppMode)
        ensures
            m == self.mode,
    {
        self.mode
    }

    pub fn set_mode(&mut self, mode: AppMode)
        ensures
            *final(self) == (AppState { mode, ..*old(self) }),
    {
        self.mode = mode;
    }

    /// Switches to the other mode and returns it.
    pub fn toggle_mode(&mut self) -> (m: AppMode)
        ensures
            m == old(self).mode.toggled(),
            *final(self) == (AppState { mode: m, ..*old(self) }),
    {
        let m = self.mode.toggle();
        self.mode = m;
        m
    }

    /// A copy of the word being typed.
    pub fn get_buffer(&self) -> (b: String)
        ensures
            b@ == self.buffer@,
    {
        self.buffer.clone()
    }

    pub fn push_to_buffer(&mut self, ch: char)
        ensures
            final(self).buffer@ == old(self).buffer@.push(ch),
            final(self).mode == old(self).mode,
            final(self).prediction == old(self).prediction,
            final(self).context == old(self).context,
            final(self).config == old(self).config,
    {
        string_push(&mut self.buffer, ch);
    }

    /// Drops the last character of the buffer, if there is one.
    pub fn pop_from_buffer(&mut self)
        ensures
            final(self).buffer@ == (if old(self).buffer@.len() > 0 {
                old(self).buffer@.drop_last()
            } else {
                old(self).buffer@
            }),
            final(self).mode == old(self).mode,
            final(self).prediction == old(self).prediction,
            final(self).context == old(self).context,
            final(self).config == old(self).config,
    {
        let chars = str_chars(self.buffer.as_str());
        if chars.len() > 0 {
            let n = chars.len() - 1;
            let kept = crate::text::copy_range(&chars, 0, n);
            assert(chars@.subrange(0, n as int) == chars@.drop_last());
            self.buffer = chars_to_string(&kept);
        }
    }

    pub fn clear_buffer(&mut self)
        ensures
            final(self).buffer@ == Seq::<char>::empty(),
            final(self).mode == old(self).mode,
            final(self).prediction == old(self).prediction,
            final(self).context == old(self).context,
            final(self).config == old(self).config,
    {
        self.buffer = String::new();
    }

    /// Confirms `word`: trimmed and lower-cased, it joins the context if it is
    /// a word of letters, `'` and `-`; only the last four words are kept.
    pub fn commit_word(&mut self, word: &str)
        ensures
            string_views(final(self).context@) == context_after(string_views(old(self).context@), word@),
            final(self).mode == old(self).mode,
            final(self).buffer == old(self).buffer,
            final(self).prediction == old(self).prediction,
            final(self).config == old(self).config,
    {
        let w = lowercase_ascii_chars(&trim(&str_chars(word)));
        if w.len() == 0 {
            return;
        }
        let mut i: usize = 0;
        while i < w.len()
            invariant
                i <= w@.len(),
                w@ == committed_word(word@),
                forall|k: int| 0 <= k < i ==> is_word_char(#[trigger] w@[k]),
            decreases w@.len() - i,
        {
            if !is_word_character(w[i]) {
                assert(!acceptable_word(w@)) by {
                    assert(!is_word_char(w@[i as int]));
                }
                return;
            }
            i = i + 1;
        }
        let ghost old_ctx = string_views(self.context@);
        let s = chars_to_string(&w);
        let mut ctx = copy_strings(&self.context);
        proof {
            assert(string_views(ctx@.push(s)) == string_views(ctx@).push(s@));
        }
        ctx.push(s);
        let ghost pushed = string_views(ctx@);
        if ctx.len() > CONTEXT_WORDS {
            let start = ctx.len() - CONTEXT_WORDS;
            let mut kept: Vec<String> = Vec::new();
            let mut j: usize = start;
            while j < ctx.len()
                invariant
                    start <= j <= ctx@.len(),
                    pushed == string_views(ctx@),
                    string_views(kept@) == pushed.subrange(start as int, j as int),
                decreases ctx@.len() - j,
            {
                let c = ctx[j].clone();
                proof {
                    assert(string_views(kept@.push(c)) == string_views(kept@).push(c@));
                    assert(pushed.subrange(start as int, j + 1) == pushed.subrange(start as int, j as int).push(
                        pushed[j as int],
                    ));
                }
                kept.push(c);
                j = j + 1;
            }
            assert(pushed.subrange(start as int, ctx@.len() as int) == pushed.skip(start as int));
            self.context = kept;
        } else {
            self.context = ctx;
        }
    }

    /// A copy of the context words.
    pub fn get_context(&self) -> (c: Vec<String>)
        ensures
            string_views(c@) == string_views(self.context@),
    {
        copy_strings(&self.context)
    }

    /// Forgets the context words.
    pub fn clear_context(&mut self)
        ensures
            final(self).context@.len() == 0,
            final(self).mode == old(self).mode,
            final(self).buffer == old(self).buffer,
            final(self).prediction == old(self).prediction,
            final(self).config == old(self).config,
    {
        self.context = Vec::new();
    }
}

/// The context never holds more than four words: confirming a word keeps
/// the bound, and an accepted word becomes the newest entry, after the
/// newest three of the words before it.
pub proof fn law_context_bounded(ctx: Seq<Seq<char>>, word: Seq<char>)
    requires
        ctx.len() <= 4,
    ensures
        context_after(ctx, word).len() <= 4,
        acceptable_word(committed_word(word)) ==> context_after(ctx, word).last() == committed_word(word),
        acceptable_word(committed_word(word)) ==> context_after(ctx, word).drop_last() == (if ctx.len() == 4 {
            ctx.skip(1)
        } else {
            ctx
        }),
        !acceptable_word(committed_word(word)) ==> context_after(ctx, word) == ctx,
{
    let w = committed_word(word);
    if acceptable_word(w) {
        if ctx.len() == 4 {
            assert(ctx.push(w).skip(1).drop_last() =~= ctx.skip(1));
        } else {
            assert(ctx.push(w).drop_last() =~= ctx);
        }
    }
}

} // verus!

//! The word buffer: each key press updates the word being typed and tells
//! the main loop whether the prediction needs refreshing.

use vstd::prelude::*;
use crate::hook::{
    KeyEvent, VK_BACK, VK_TAB, ignored_key, buffer_clear_key, key_char, is_ignored_key,
    is_buffer_clear_key, vk_to_char, VK_SPACE, VK_RETURN, VK_OEM_COMMA, VK_OEM_PERIOD, VK_OEM_1, VK_OEM_2,
    VK_OEM_3, VK_OEM_4, VK_OEM_5, VK_OEM_6, VK_OEM_7, VK_OEM_8, VK_OEM_PLUS, VK_OEM_MINUS, VK_OEM_102,
};
use crate::state::AppState;
use crate::text::{is_alpha_ascii, is_digit_ascii, is_ascii_alphabetic, is_ascii_digit, str_chars, is_word_char};

verus! {

/// What a key press asks of the main loop.
#[derive(Debug, Clone, Copy, PartialEq, Eq, Structural)]
pub enum BufferAction {
    /// Compute the prediction again.
    UpdatePrediction,
    /// Clear the prediction and hide the overlay.
    ClearPrediction,
    /// Nothing to do.
    NoOp,
}

/// `t` occurs in `s` as a contiguous run.
pub open spec fn has_infix(s: Seq<char>, t: Seq<char>) -> bool {
    exists|i: int| 0 <= i && i + t.len() <= s.len() && #[trigger] s.subrange(i, i + t.len()) == t
}

/// Some character of `s` is an ASCII digit.
pub open spec fn has_digit(s: Seq<char>) -> bool {
    exists|i: int| 0 <= i < s.len() && is_digit_ascii(#[trigger] s[i])
}

/// Typing `ch` after `buffer` looks like a web address or a path: `ch` is a
/// path separator or a colon, the buffer holds `http`, `https`, `www`, `\`
/// or `/`, or the buffer is one ASCII letter (a drive letter) and `ch` is
/// a colon.
pub open spec fn url_or_path(buffer: Seq<char>, ch: char) -> bool {
    ||| ch == '\\' || ch == '/' || ch == ':'
    ||| has_infix(buffer, "http"@) || has_infix(buffer, "https"@) || has_infix(buffer, "www"@)
    ||| has_infix(buffer, "\\"@) || buffer.contains('/')
    ||| buffer.len() == 1 && (buffer[0] as u32) < 0x80 && is_alpha_ascii(buffer[0]) && ch == ':'
}

/// Whether `t` occurs in `s`.
pub fn contains_chars(s: &[char], t: &[char]) -> (b: bool)
    ensures
        b == has_infix(s@, t@),
{
    if t.len() > s.len() {
        assert forall|i: int| 0 <= i && i + t@.len() <= s@.len() implies #[trigger] s@.subrange(i, i + t@.len()) != t@ by {}
        return false;
    }
    let last = s.len() - t.len();
    let mut i: usize = 0;
    while i <= last
        invariant
            t@.len() <= s@.len(),
            last == s@.len() - t@.len(),
            i <= last + 1,
            forall|k: int| 0 <= k < i ==> #[trigger] s@.subrange(k, k + t@.len()) != t@,
        decreases s@.len() - i,
    {
        let mut j: usize = 0;
        let mut same = true;
        while j < t.len()
            invariant
                i + t@.len() <= s@.len(),
                s@.len() == s.len(),
                j <= t@.len(),
                same == (forall|k: int| 0 <= k < j ==> s@[i + k] == t@[k]),
            decreases t@.len() - j,
        {
            if s[i + j] != t[j] {
                same = false;
            }
            j = j + 1;
        }
        if same {
            assert(s@.subrange(i as int, i + t@.len()) =~= t@);
            return true;
        }
        assert(s@.subrange(i as int, i + t@.len()) != t@) by {
            let k = choose|k: int| 0 <= k < t@.len() && s@[i + k] != t@[k];
            assert(s@.subrange(i as int, i + t@.len())[k] == s@[i + k]);
        }
        i = i + 1;
    }
    false
}

/// Whether some character of `s` is an ASCII digit.
fn contains_digit(s: &[char]) -> (b: bool)
    ensures
        b == has_digit(s@),
{
    let mut i: usize = 0;
    while i < s.len()
        invariant
            i <= s@.len(),
            forall|k: int| 0 <= k < i ==> !is_digit_ascii(#[trigger] s@[k]),
        decreases s@.len() - i,
    {
        if is_ascii_digit(s[i]) {
            return true;
        }
        i = i + 1;
    }
    false
}

/// Whether typing `ch` after `buffer` looks like a web address or a path,
/// as `url_or_path` says.
pub fn is_url_or_path_pattern(buffer: &str, ch: char) -> (b: bool)
    ensures
        b == url_or_path(buffer@, ch),
{
    if ch == '\\' || ch == '/' || ch == ':' {
        return true;
    }
    let chars = str_chars(buffer);
    if contains_chars(&chars, &str_chars("http")) || contains_chars(&chars, &str_chars("https"))
        || contains_chars(&chars, &str_chars("www")) {
        return true;
    }
    let slash = contains_chars(&chars, &str_chars("/"));
    proof {
        reveal_strlit("/");
        if slash {
            let i = choose|i: int| 0 <= i && i + 1 <= chars@.len() && #[trigger] chars@.subrange(i, i + 1) == "/"@;
            assert(chars@[i] == chars@.subrange(i, i + 1)[0]);
        }
        if chars@.contains('/') {
            let i = choose|i: int| 0 <= i < chars@.len() && chars@[i] == '/';
            assert(chars@.subrange(i, i + 1) =~= "/"@);
        }
    }
    if contains_chars(&chars, &str_chars("\\")) || slash {
        return true;
    }
    if chars.len() == 1 && (chars[0] as u32) < 0x80 {
        if is_ascii_alphabetic(chars[0]) && ch == ':' {
            return true;
        }
    }
    false
}

/// What a key press does, as `process_key_event` carries it out: the
/// buffer afterwards and the action.
pub open spec fn key_effect(
    buffer: Seq<char>,
    filter_digits: bool,
    filter_urls: bool,
    e: KeyEvent,
) -> (Seq<char>, BufferAction) {
    let vk = e.vk_code;
    if ignored_key(vk, e.is_extended) {
        (buffer, BufferAction::NoOp)
    } else if vk == VK_BACK {
        if buffer.len() > 0 {
            let b = buffer.drop_last();
            (b, if b.len() == 0 { BufferAction::ClearPrediction } else { BufferAction::UpdatePrediction })
        } else {
            (buffer, BufferAction::NoOp)
        }
    } else if vk == VK_TAB {
        (buffer, BufferAction::NoOp)
    } else if buffer_clear_key(vk) {
        if buffer.len() > 0 {
            (Seq::<char>::empty(), BufferAction::ClearPrediction)
        } else {
            (buffer, BufferAction::NoOp)
        }
    } else {
        match key_char(vk, e.shift_down) {
            Some(c) => if filter_digits && (is_digit_ascii(c) || ((is_alpha_ascii(c) || c == '-' || c == '\'')
                && has_digit(buffer))) {
                (buffer, BufferAction::ClearPrediction)
            } else if is_alpha_ascii(c) || c == '-' || c == '\'' {
                if filter_urls && url_or_path(buffer, c) {
                    (buffer, BufferAction::ClearPrediction)
                } else {
                    (buffer.push(c), BufferAction::UpdatePrediction)
                }
            } else {
                (buffer, BufferAction::NoOp)
            },
            None => (buffer, BufferAction::NoOp),
        }
    }
}

/// Handles one key press: ignored and Tab keys do nothing, Backspace drops
/// a character, space, Enter and punctuation end the word, and letters,
/// `-` and `'` extend it unless a filter holds them back. With the digit
/// filter on, a digit withdraws the prediction and leaves the word as it was.
pub fn process_key_event(event: &KeyEvent, state: &mut AppState) -> (action: BufferAction)
    ensures
        (final(state).buffer@, action) == key_effect(
            old(state).buffer@,
            old(state).config.filter_digits,
            old(state).config.filter_urls,
            *event,
        ),
        final(state).mode == old(state).mode,
        final(state).prediction == old(state).prediction,
        final(state).context == old(state).context,
        final(state).config == old(state).config,
{
    let vk = event.vk_code;
    if is_ignored_key(vk, event.is_extended) {
        return BufferAction::NoOp;
    }
    if vk == VK_BACK {
        let before = str_chars(state.buffer.as_str());
        if before.len() > 0 {
            state.pop_from_buffer();
            if before.len() == 1 {
                return BufferAction::ClearPrediction;
            }
            return BufferAction::UpdatePrediction;
        }
        return BufferAction::NoOp;
    }
    if vk == VK_TAB {
        return BufferAction::NoOp;
    }
    if is_buffer_clear_key(vk) {
        let before = str_chars(state.buffer.as_str());
        if before.len() > 0 {
            state.clear_buffer();
            return BufferAction::ClearPrediction;
        }
        return BufferAction::NoOp;
    }
    if let Some(c) = vk_to_char(vk, event.shift_down) {
        let word_char = is_ascii_alphabetic(c) || c == '-' || c == '\'';
        let buffer = state.get_buffer();
        if state.config.filter_digits && (is_ascii_digit(c) || (word_char && contains_digit(
            &str_chars(buffer.as_str()),
        ))) {
            return BufferAction::ClearPrediction;
        }
        if word_char {
            if state.config.filter_urls && is_url_or_path_pattern(buffer.as_str(), c) {
                return BufferAction::ClearPrediction;
            }
            state.push_to_buffer(c);
            return BufferAction::UpdatePrediction;
        }
    }
    BufferAction::NoOp
}


/// Space, Enter and every punctuation key (`,` `.` `;` `/` `` ` `` `[` `\\`
/// `]` `'` `=` `-` and the other OEM keys) end the word, with or without
/// Shift and whatever the filters: a word being typed is dropped and its
/// prediction withdrawn, so the next word starts afresh; with no word being
/// typed nothing happens.
pub proof fn law_separators_end_the_word(buffer: Seq<char>, filter_digits: bool, filter_urls: bool, e: KeyEvent)
    requires
        e.vk_code == VK_SPACE || e.vk_code == VK_RETURN || e.vk_code == VK_OEM_COMMA || e.vk_code == VK_OEM_PERIOD
            || e.vk_code == VK_OEM_1 || e.vk_code == VK_OEM_2 || e.vk_code == VK_OEM_3 || e.vk_code == VK_OEM_4
            || e.vk_code == VK_OEM_5 || e.vk_code == VK_OEM_6 || e.vk_code == VK_OEM_7 || e.vk_code == VK_OEM_8
            || e.vk_code == VK_OEM_PLUS || e.vk_code == VK_OEM_MINUS || e.vk_code == VK_OEM_102,
    ensures
        buffer.len() > 0 ==> key_effect(buffer, filter_digits, filter_urls, e) == (
        Seq::<char>::empty(),
        BufferAction::ClearPrediction,
        ),
        buffer.len() == 0 ==> key_effect(buffer, filter_digits, filter_urls, e) == (buffer, BufferAction::NoOp),
{
}

/// A letter key extends the word by its letter, lower case without Shift
/// and upper case with it, and asks for a new prediction (the filters off).
pub proof fn law_letters_extend_the_word(buffer: Seq<char>, e: KeyEvent)
    requires
        0x41 <= e.vk_code <= 0x5A,
    ensures
        ({
            let (b, action) = key_effect(buffer, false, false, e);
            &&& action == BufferAction::UpdatePrediction
            &&& b.len() == buffer.len() + 1
            &&& b.take(buffer.len() as int) == buffer
            &&& b.last() as u32 == if e.shift_down { e.vk_code as int } else { e.vk_code + 32 }
        }),
{
    let (b, action) = key_effect(buffer, false, false, e);
    assert(b.take(buffer.len() as int) =~= buffer);
}

/// Backspace takes back a typed character: after a key press that extended
/// the word, Backspace restores the word as it was.
pub proof fn law_backspace_undoes_typing(
    buffer: Seq<char>,
    filter_digits: bool,
    filter_urls: bool,
    typed: KeyEvent,
    back: KeyEvent,
)
    requires
        key_effect(buffer, filter_digits, filter_urls, typed).1 == BufferAction::UpdatePrediction,
        typed.vk_code != VK_BACK,
        back.vk_code == VK_BACK,
    ensures
        key_effect(key_effect(buffer, filter_digits, filter_urls, typed).0, filter_digits, filter_urls, back)
            == (buffer, if buffer.len() == 0 {
            BufferAction::ClearPrediction
        } else {
            BufferAction::UpdatePrediction
        }),
{
    let c = key_char(typed.vk_code, typed.shift_down)->0;
    assert(key_effect(buffer, filter_digits, filter_urls, typed).0 == buffer.push(c));
    assert(buffer.push(c).drop_last() =~= buffer);
}

/// The buffer only ever holds a word: letters, `-` and `'`.
pub proof fn law_buffer_holds_a_word(buffer: Seq<char>, filter_digits: bool, filter_urls: bool, e: KeyEvent)
    requires
        forall|i: int| 0 <= i < buffer.len() ==> is_word_char(#[trigger] buffer[i]),
    ensures
        ({
            let b = key_effect(buffer, filter_digits, filter_urls, e).0;
            forall|i: int| 0 <= i < b.len() ==> is_word_char(#[trigger] b[i])
        }),
{
    let b = key_effect(buffer, filter_digits, filter_urls, e).0;
    assert forall|i: int| 0 <= i < b.len() implies is_word_char(#[trigger] b[i]) by {
        if b.len() == buffer.len() + 1 {
            if i < buffer.len() {
                assert(b[i] == buffer[i]);
            }
        } else if b.len() + 1 == buffer.len() {
            assert(b[i] == buffer[i]);
        } else if b.len() > 0 {
            assert(b == buffer);
        }
    }
}
} // verus!

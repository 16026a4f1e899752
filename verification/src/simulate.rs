//! Word completion by simulated typing: what to send to replace the typed
//! prefix with the chosen word. One batch of Backspace presses, a pause, then
//! one batch of UTF-16 units of the new text.

use vstd::prelude::*;
use crate::text::{str_chars, chars_to_string, trim_end, trim_end_ws};

verus! {

/// A completion to carry out: erase `buffer_len` characters, then type
/// `correct_word` (and a space after it when `append_space` is set).
#[derive(Debug, Clone)]
pub struct CompleteTask {
    pub buffer_len: usize,
    pub correct_word: String,
    pub append_space: bool,
}

/// The completion that replaces `buffer_len` typed characters with
/// `correct_word`.
pub fn complete_word(buffer_len: usize, correct_word: &str) -> (t: CompleteTask)
    ensures
        t.buffer_len == buffer_len,
        t.correct_word@ == correct_word@,
        !t.append_space,
{
    CompleteTask { buffer_len, correct_word: correct_word.to_owned(), append_space: false }
}

/// The completion that replaces `buffer_len` typed characters with
/// `correct_word` followed by a space, so that the next word can be
/// predicted at once.
pub fn complete_word_with_space(buffer_len: usize, correct_word: &str) -> (t: CompleteTask)
    ensures
        t.buffer_len == buffer_len,
        t.correct_word@ == correct_word@,
        t.append_space,
{
    CompleteTask { buffer_len, correct_word: correct_word.to_owned(), append_space: true }
}

/// The text typed for a completion: the word, or the word without trailing
/// white space and with one space after it.
pub open spec fn completion_text_spec(word: Seq<char>, append_space: bool) -> Seq<char> {
    if append_space {
        trim_end_ws(word).push(' ')
    } else {
        word
    }
}

/// The text typed for a completion, as `completion_text_spec` says.
pub fn completion_text(correct_word: &str, append_space: bool) -> (s: String)
    ensures
        s@ == completion_text_spec(correct_word@, append_space),
{
    if append_space {
        let mut v = trim_end(&str_chars(correct_word));
        v.push(' ');
        chars_to_string(&v)
    } else {
        correct_word.to_owned()
    }
}

/// Milliseconds to wait after the Backspace batch: two per erased character,
/// and never less than ten.
pub open spec fn settle_delay_spec(buffer_len: nat) -> nat {
    if buffer_len * 2 > 10 {
        buffer_len * 2
    } else {
        10
    }
}

/// The pause after the Backspace batch, as `settle_delay_spec` says.
pub fn settle_delay_ms(buffer_len: usize) -> (ms: u64)
    requires
        buffer_len * 2 <= u64::MAX,
    ensures
        ms == settle_delay_spec(buffer_len as nat),
{
    let twice = (buffer_len as u64) * 2;
    if twice > 10 {
        twice
    } else {
        10
    }
}

/// One simulated keyboard event.
#[derive(Debug, Clone, Copy, PartialEq, Eq, Structural)]
pub enum KeyStroke {
    BackspaceDown,
    BackspaceUp,
    /// A UTF-16 unit pressed.
    UnitDown(u16),
    /// A UTF-16 unit released.
    UnitUp(u16),
}

/// The UTF-16 units of `c`: one below U+10000, a surrogate pair above.
pub open spec fn utf16_units(c: char) -> Seq<u16> {
    let v = c as u32;
    if v < 0x10000 {
        seq![v as u16]
    } else {
        let w = v - 0x10000;
        seq![(0xD800 + w / 0x400) as u16, (0xDC00 + w % 0x400) as u16]
    }
}

/// Each unit pressed and released, in order.
pub open spec fn unit_strokes(units: Seq<u16>) -> Seq<KeyStroke>
    decreases units.len(),
{
    if units.len() == 0 {
        Seq::<KeyStroke>::empty()
    } else {
        unit_strokes(units.drop_last()) + seq![KeyStroke::UnitDown(units.last()), KeyStroke::UnitUp(units.last())]
    }
}

/// The strokes that type `text`.
pub open spec fn text_strokes_spec(text: Seq<char>) -> Seq<KeyStroke>
    decreases text.len(),
{
    if text.len() == 0 {
        Seq::<KeyStroke>::empty()
    } else {
        text_strokes_spec(text.drop_last()) + unit_strokes(utf16_units(text.last()))
    }
}

/// `n` Backspace presses, each pressed and released.
pub open spec fn backspace_strokes_spec(n: nat) -> Seq<KeyStroke>
    decreases n,
{
    if n == 0 {
        Seq::<KeyStroke>::empty()
    } else {
        backspace_strokes_spec((n - 1) as nat) + seq![KeyStroke::BackspaceDown, KeyStroke::BackspaceUp]
    }
}

/// The UTF-16 units of `c`, as `utf16_units` says.
pub fn encode_utf16(c: char) -> (u: Vec<u16>)
    ensures
        u@ == utf16_units(c),
{
    let v = c as u32;
    let mut u: Vec<u16> = Vec::new();
    if v < 0x10000 {
        u.push(v as u16);
    } else {
        let w = v - 0x10000;
        u.push((0xD800 + w / 0x400) as u16);
        u.push((0xDC00 + w % 0x400) as u16);
    }
    u
}

/// The Backspace batch: `n` presses.
pub fn backspace_strokes(n: usize) -> (s: Vec<KeyStroke>)
    ensures
        s@ == backspace_strokes_spec(n as nat),
{
    let mut s: Vec<KeyStroke> = Vec::new();
    let mut i: usize = 0;
    while i < n
        invariant
            i <= n,
            s@ == backspace_strokes_spec(i as nat),
        decreases n - i,
    {
        s.push(KeyStroke::BackspaceDown);
        s.push(KeyStroke::BackspaceUp);
        i = i + 1;
        assert(s@ == backspace_strokes_spec(i as nat));
    }
    s
}

/// The text batch: every UTF-16 unit of `text`, pressed and released.
pub fn text_strokes(text: &str) -> (s: Vec<KeyStroke>)
    ensures
        s@ == text_strokes_spec(text@),
{
    let chars = str_chars(text);
    let mut s: Vec<KeyStroke> = Vec::new();
    let mut i: usize = 0;
    while i < chars.len()
        invariant
            i <= chars@.len(),
            chars@ == text@,
            s@ == text_strokes_spec(chars@.take(i as int)),
        decreases chars@.len() - i,
    {
        let units = encode_utf16(chars[i]);
        let ghost base = s@;
        let mut k: usize = 0;
        while k < units.len()
            invariant
                k <= units@.len(),
                s@ == base + unit_strokes(units@.take(k as int)),
            decreases units@.len() - k,
        {
            s.push(KeyStroke::UnitDown(units[k]));
            s.push(KeyStroke::UnitUp(units[k]));
            k = k + 1;
            assert(units@.take(k as int).drop_last() == units@.take(k - 1));
        }
        assert(units@.take(k as int) == units@);
        assert(chars@.take(i + 1).drop_last() == chars@.take(i as int));
        i = i + 1;
    }
    assert(chars@.take(i as int) == chars@);
    s
}

/// What carrying out a completion sends: the Backspace batch, the pause in
/// milliseconds, and the text batch.
pub struct CompletionPlan {
    pub backspaces: Vec<KeyStroke>,
    pub settle_ms: u64,
    pub text: Vec<KeyStroke>,
}

/// The plan of a completion task.
pub fn completion_plan(task: &CompleteTask) -> (p: CompletionPlan)
    requires
        task.buffer_len * 2 <= u64::MAX,
    ensures
        p.backspaces@ == backspace_strokes_spec(task.buffer_len as nat),
        p.settle_ms == settle_delay_spec(task.buffer_len as nat),
        p.text@ == text_strokes_spec(completion_text_spec(task.correct_word@, task.append_space)),
{
    let text = completion_text(task.correct_word.as_str(), task.append_space);
    CompletionPlan {
        backspaces: backspace_strokes(task.buffer_len),
        settle_ms: settle_delay_ms(task.buffer_len),
        text: text_strokes(text.as_str()),
    }
}

} // verus!

//! Keyboard classification and the decisions of the low-level keyboard hook:
//! which keys edit the word buffer, how a key reads, the toggle shortcut,
//! shortcut capture, and what the hook does with each key event.

use vstd::prelude::*;
use crate::config::MAGIC_EXTRA_INFO;
use crate::text::{
    str_chars, trim, trim_ws, chars_to_string, chars_equal, append_chars, is_ascii_seq, upper_ascii_seq,
    lemma_trim_ascii,
};
use crate::split::{split, split_by, eq_char, views, lemma_split_ascii, lemma_split_at_first, lemma_split_whole};
use crate::number::{decimal_text, decimal_chars};
use crate::text::{unicode_uppercase, to_uppercase};

verus! {

// ───────────────────────── virtual key codes ─────────────────────────

pub const VK_BACK: u32 = 0x08;
pub const VK_TAB: u32 = 0x09;
pub const VK_RETURN: u32 = 0x0D;
pub const VK_SHIFT: u32 = 0x10;
pub const VK_CONTROL: u32 = 0x11;
/// Alt.
pub const VK_MENU: u32 = 0x12;
pub const VK_CAPITAL: u32 = 0x14;
pub const VK_ESCAPE: u32 = 0x1B;
pub const VK_SPACE: u32 = 0x20;
/// Page Up.
pub const VK_PRIOR: u32 = 0x21;
/// Page Down.
pub const VK_NEXT: u32 = 0x22;
pub const VK_END: u32 = 0x23;
pub const VK_HOME: u32 = 0x24;
pub const VK_LEFT: u32 = 0x25;
pub const VK_UP: u32 = 0x26;
pub const VK_RIGHT: u32 = 0x27;
pub const VK_DOWN: u32 = 0x28;
/// Print Screen.
pub const VK_SNAPSHOT: u32 = 0x2C;
pub const VK_INSERT: u32 = 0x2D;
pub const VK_DELETE: u32 = 0x2E;
pub const VK_LWIN: u32 = 0x5B;
pub const VK_RWIN: u32 = 0x5C;
pub const VK_APPS: u32 = 0x5D;
/// Keypad `*`.
pub const VK_MULTIPLY: u32 = 0x6A;
/// Keypad `+`.
pub const VK_ADD: u32 = 0x6B;
/// Keypad `-`.
pub const VK_SUBTRACT: u32 = 0x6D;
/// Keypad `.`.
pub const VK_DECIMAL: u32 = 0x6E;
/// Keypad `/`.
pub const VK_DIVIDE: u32 = 0x6F;
/// `;:`
pub const VK_OEM_1: u32 = 0xBA;
/// `=+`
pub const VK_OEM_PLUS: u32 = 0xBB;
/// `,`
pub const VK_OEM_COMMA: u32 = 0xBC;
/// `-_`
pub const VK_OEM_MINUS: u32 = 0xBD;
/// `.`
pub const VK_OEM_PERIOD: u32 = 0xBE;
/// `/?`
pub const VK_OEM_2: u32 = 0xBF;
/// `` `~ ``
pub const VK_OEM_3: u32 = 0xC0;
/// `[{`
pub const VK_OEM_4: u32 = 0xDB;
/// `\|`
pub const VK_OEM_5: u32 = 0xDC;
/// `]}`
pub const VK_OEM_6: u32 = 0xDD;
/// `'"`
pub const VK_OEM_7: u32 = 0xDE;
pub const VK_OEM_8: u32 = 0xDF;
/// `<>` on non-US keyboards.
pub const VK_OEM_102: u32 = 0xE2;

/// Window messages the hook receives.
pub const WM_KEYDOWN: u32 = 0x0100;
pub const WM_KEYUP: u32 = 0x0101;
pub const WM_SYSKEYDOWN: u32 = 0x0104;

/// Flag of an extended key in a low-level keyboard event.
pub const KF_EXTENDED: u32 = 0x0100;

// ───────────────────────── key classes ─────────────────────────

pub open spec fn letter_key(vk: u32) -> bool {
    0x41 <= vk <= 0x5A
}

pub open spec fn digit_key(vk: u32) -> bool {
    0x30 <= vk <= 0x39
}

pub open spec fn punctuation_key(vk: u32) -> bool {
    vk == VK_OEM_PERIOD || vk == VK_OEM_COMMA || vk == VK_OEM_1 || vk == VK_OEM_2 || vk == VK_OEM_3
        || vk == VK_OEM_4 || vk == VK_OEM_5 || vk == VK_OEM_6 || vk == VK_OEM_7 || vk == VK_OEM_8
        || vk == VK_OEM_PLUS || vk == VK_OEM_MINUS || vk == VK_OEM_102
}

pub open spec fn buffer_clear_key(vk: u32) -> bool {
    vk == VK_SPACE || vk == VK_RETURN || vk == VK_TAB || punctuation_key(vk)
}

/// Modifier and system keys are always ignored; navigation keys only when
/// they come from the extended block (not from the numeric keypad).
pub open spec fn ignored_key(vk: u32, is_extended: bool) -> bool {
    ||| vk == VK_SHIFT || vk == VK_CONTROL || vk == VK_CAPITAL || vk == VK_LWIN || vk == VK_RWIN
        || vk == VK_APPS || vk == VK_ESCAPE || vk == VK_SNAPSHOT || vk == VK_INSERT
    ||| is_extended && (vk == VK_LEFT || vk == VK_RIGHT || vk == VK_UP || vk == VK_DOWN || vk == VK_HOME
        || vk == VK_END || vk == VK_PRIOR || vk == VK_NEXT || vk == VK_DELETE)
}

pub open spec fn modifier_key(vk: u32) -> bool {
    vk == VK_CONTROL || vk == VK_MENU || vk == VK_SHIFT || vk == VK_LWIN || vk == VK_RWIN
}

pub fn is_letter_key(vk_code: u32) -> (b: bool)
    ensures
        b == letter_key(vk_code),
{
    vk_code >= 0x41 && vk_code <= 0x5A
}

pub fn is_digit_key(vk_code: u32) -> (b: bool)
    ensures
        b == digit_key(vk_code),
{
    vk_code >= 0x30 && vk_code <= 0x39
}

pub fn is_punctuation_key(vk_code: u32) -> (b: bool)
    ensures
        b == punctuation_key(vk_code),
{
    vk_code == VK_OEM_PERIOD || vk_code == VK_OEM_COMMA || vk_code == VK_OEM_1 || vk_code == VK_OEM_2
        || vk_code == VK_OEM_3 || vk_code == VK_OEM_4 || vk_code == VK_OEM_5 || vk_code == VK_OEM_6
        || vk_code == VK_OEM_7 || vk_code == VK_OEM_8 || vk_code == VK_OEM_PLUS || vk_code
        == VK_OEM_MINUS || vk_code == VK_OEM_102
}

pub fn is_buffer_clear_key(vk_code: u32) -> (b: bool)
    ensures
        b == buffer_clear_key(vk_code),
{
    vk_code == VK_SPACE || vk_code == VK_RETURN || vk_code == VK_TAB || is_punctuation_key(vk_code)
}

pub fn is_ignored_key(vk_code: u32, is_extended: bool) -> (b: bool)
    ensures
        b == ignored_key(vk_code, is_extended),
{
    if vk_code == VK_SHIFT || vk_code == VK_CONTROL || vk_code == VK_CAPITAL || vk_code == VK_LWIN
        || vk_code == VK_RWIN || vk_code == VK_APPS || vk_code == VK_ESCAPE || vk_code == VK_SNAPSHOT
        || vk_code == VK_INSERT {
        return true;
    }
    if is_extended {
        if vk_code == VK_LEFT || vk_code == VK_RIGHT || vk_code == VK_UP || vk_code == VK_DOWN
            || vk_code == VK_HOME || vk_code == VK_END || vk_code == VK_PRIOR || vk_code == VK_NEXT
            || vk_code == VK_DELETE {
            return true;
        }
    }
    false
}

pub fn is_modifier_key(vk_code: u32) -> (b: bool)
    ensures
        b == modifier_key(vk_code),
{
    vk_code == VK_CONTROL || vk_code == VK_MENU || vk_code == VK_SHIFT || vk_code == VK_LWIN
        || vk_code == VK_RWIN
}

// ───────────────────────── characters of keys ─────────────────────────

/// The character with code `code` (below 128).
pub open spec fn ascii(code: int) -> char {
    (code as u8) as char
}

/// The character a key types on a US layout: letters (upper case with
/// Shift), digits (their shifted symbols with Shift), `-`/`_` and `'`/`"`.
pub open spec fn key_char(vk: u32, shift: bool) -> Option<char> {
    if letter_key(vk) {
        Some(ascii((if shift { 0x41int } else { 0x61int }) + (vk - 0x41)))
    } else if digit_key(vk) {
        let d = vk - 0x30;
        if shift {
            Some(
                if d == 1 {
                    '!'
                } else if d == 2 {
                    '@'
                } else if d == 3 {
                    '#'
                } else if d == 4 {
                    '$'
                } else if d == 5 {
                    '%'
                } else if d == 6 {
                    '^'
                } else if d == 7 {
                    '&'
                } else if d == 8 {
                    '*'
                } else if d == 9 {
                    '('
                } else {
                    ')'
                },
            )
        } else {
            Some(ascii(0x30 + d))
        }
    } else if vk == VK_OEM_MINUS {
        Some(if shift { '_' } else { '-' })
    } else if vk == VK_OEM_7 {
        Some(if shift { '"' } else { '\'' })
    } else {
        None
    }
}

pub fn vk_to_char(vk_code: u32, shift_down: bool) -> (r: Option<char>)
    ensures
        r == key_char(vk_code, shift_down),
{
    if is_letter_key(vk_code) {
        let base: u32 = if shift_down { 0x41 } else { 0x61 };
        Some(((base + (vk_code - 0x41)) as u8) as char)
    } else if is_digit_key(vk_code) {
        let digit = vk_code - 0x30;
        if shift_down {
            if digit == 1 {
                Some('!')
            } else if digit == 2 {
                Some('@')
            } else if digit == 3 {
                Some('#')
            } else if digit == 4 {
                Some('$')
            } else if digit == 5 {
                Some('%')
            } else if digit == 6 {
                Some('^')
            } else if digit == 7 {
                Some('&')
            } else if digit == 8 {
                Some('*')
            } else if digit == 9 {
                Some('(')
            } else {
                Some(')')
            }
        } else {
            Some(((0x30 + digit) as u8) as char)
        }
    } else if vk_code == VK_OEM_MINUS {
        if shift_down {
            Some('_')
        } else {
            Some('-')
        }
    } else if vk_code == VK_OEM_7 {
        if shift_down {
            Some('"')
        } else {
            Some('\'')
        }
    } else {
        None
    }
}


// ───────────────────────── key names ─────────────────────────

/// The readable name of a key: letters and digits as themselves, `F1` to
/// `F24`, named navigation and system keys, `Num0` to `Num9` and the keypad
/// operators, and the symbols of the OEM keys.
pub open spec fn readable_name(vk: u32) -> Option<Seq<char>> {
    if digit_key(vk) || letter_key(vk) {
        Some(seq![ascii(vk as int)])
    } else if 0x70 <= vk <= 0x87 {
        Some(seq!['F'] + decimal_text((vk - 0x70 + 1) as nat))
    } else if vk == VK_BACK {
        Some("Backspace"@)
    } else if vk == VK_TAB {
        Some("Tab"@)
    } else if vk == VK_RETURN {
        Some("Enter"@)
    } else if vk == VK_ESCAPE {
        Some("Escape"@)
    } else if vk == VK_SPACE {
        Some("Space"@)
    } else if vk == VK_PRIOR {
        Some("PageUp"@)
    } else if vk == VK_NEXT {
        Some("PageDown"@)
    } else if vk == VK_END {
        Some("End"@)
    } else if vk == VK_HOME {
        Some("Home"@)
    } else if vk == VK_LEFT {
        Some("Left"@)
    } else if vk == VK_UP {
        Some("Up"@)
    } else if vk == VK_RIGHT {
        Some("Right"@)
    } else if vk == VK_DOWN {
        Some("Down"@)
    } else if vk == VK_INSERT {
        Some("Insert"@)
    } else if vk == VK_DELETE {
        Some("Delete"@)
    } else if vk == VK_CAPITAL {
        Some("CapsLock"@)
    } else if vk == VK_SNAPSHOT {
        Some("PrintScreen"@)
    } else if vk == VK_APPS {
        Some("Apps"@)
    } else if 0x60 <= vk <= 0x69 {
        Some(seq!['N', 'u', 'm'] + decimal_text((vk - 0x60) as nat))
    } else if vk == VK_MULTIPLY {
        Some("Num*"@)
    } else if vk == VK_ADD {
        Some("Num+"@)
    } else if vk == VK_SUBTRACT {
        Some("Num-"@)
    } else if vk == VK_DECIMAL {
        Some("Num."@)
    } else if vk == VK_DIVIDE {
        Some("Num/"@)
    } else if vk == VK_OEM_1 {
        Some(";:"@)
    } else if vk == VK_OEM_PLUS {
        Some("="@)
    } else if vk == VK_OEM_COMMA {
        Some(","@)
    } else if vk == VK_OEM_MINUS {
        Some("-"@)
    } else if vk == VK_OEM_PERIOD {
        Some("."@)
    } else if vk == VK_OEM_2 {
        Some("/"@)
    } else if vk == VK_OEM_3 {
        Some("`"@)
    } else if vk == VK_OEM_4 {
        Some("["@)
    } else if vk == VK_OEM_5 {
        Some("\\"@)
    } else if vk == VK_OEM_6 {
        Some("]"@)
    } else if vk == VK_OEM_7 {
        Some("'"@)
    } else if vk == VK_OEM_102 {
        Some("<>"@)
    } else {
        None
    }
}

fn named(name: &str) -> (r: Option<String>)
    ensures
        r matches Some(s) && s@ == name@,
{
    Some(name.to_owned())
}

/// `prefix` followed by the decimal text of `n`.
fn numbered(prefix: &str, n: u64) -> (r: Option<String>)
    ensures
        r matches Some(s) && s@ == prefix@ + decimal_text(n as nat),
{
    let mut v = str_chars(prefix);
    append_chars(&mut v, &decimal_chars(n));
    Some(chars_to_string(&v))
}

/// The readable name of a key, as `readable_name` gives it.
pub fn vk_code_to_readable(vk_code: u32) -> (r: Option<String>)
    ensures
        match r {
            Some(s) => readable_name(vk_code) == Some(s@),
            None => readable_name(vk_code) is None,
        },
{
    if is_digit_key(vk_code) || is_letter_key(vk_code) {
        let mut v: Vec<char> = Vec::new();
        v.push((vk_code as u8) as char);
        return Some(chars_to_string(&v));
    }
    if vk_code >= 0x70 && vk_code <= 0x87 {
        let r = numbered("F", (vk_code - 0x70 + 1) as u64);
        proof {
            reveal_strlit("F");
        }
        return r;
    }
    if vk_code >= 0x60 && vk_code <= 0x69 {
        let r = numbered("Num", (vk_code - 0x60) as u64);
        proof {
            reveal_strlit("Num");
        }
        return r;
    }
    if vk_code == VK_BACK {
        named("Backspace")
    } else if vk_code == VK_TAB {
        named("Tab")
    } else if vk_code == VK_RETURN {
        named("Enter")
    } else if vk_code == VK_ESCAPE {
        named("Escape")
    } else if vk_code == VK_SPACE {
        named("Space")
    } else if vk_code == VK_PRIOR {
        named("PageUp")
    } else if vk_code == VK_NEXT {
        named("PageDown")
    } else if vk_code == VK_END {
        named("End")
    } else if vk_code == VK_HOME {
        named("Home")
    } else if vk_code == VK_LEFT {
        named("Left")
    } else if vk_code == VK_UP {
        named("Up")
    } else if vk_code == VK_RIGHT {
        named("Right")
    } else if vk_code == VK_DOWN {
        named("Down")
    } else if vk_code == VK_INSERT {
        named("Insert")
    } else if vk_code == VK_DELETE {
        named("Delete")
    } else if vk_code == VK_CAPITAL {
        named("CapsLock")
    } else if vk_code == VK_SNAPSHOT {
        named("PrintScreen")
    } else if vk_code == VK_APPS {
        named("Apps")
    } else if vk_code == VK_MULTIPLY {
        named("Num*")
    } else if vk_code == VK_ADD {
        named("Num+")
    } else if vk_code == VK_SUBTRACT {
        named("Num-")
    } else if vk_code == VK_DECIMAL {
        named("Num.")
    } else if vk_code == VK_DIVIDE {
        named("Num/")
    } else if vk_code == VK_OEM_1 {
        named(";:")
    } else if vk_code == VK_OEM_PLUS {
        named("=")
    } else if vk_code == VK_OEM_COMMA {
        named(",")
    } else if vk_code == VK_OEM_MINUS {
        named("-")
    } else if vk_code == VK_OEM_PERIOD {
        named(".")
    } else if vk_code == VK_OEM_2 {
        named("/")
    } else if vk_code == VK_OEM_3 {
        named("`")
    } else if vk_code == VK_OEM_4 {
        named("[")
    } else if vk_code == VK_OEM_5 {
        named("\\")
    } else if vk_code == VK_OEM_6 {
        named("]")
    } else if vk_code == VK_OEM_7 {
        named("'")
    } else if vk_code == VK_OEM_102 {
        named("<>")
    } else {
        None
    }
}

/// The modifier names held down, each followed by `+`, in the order Ctrl,
/// Alt, Shift, Win.
pub open spec fn modifier_prefix(ctrl: bool, alt: bool, shift: bool, win: bool) -> Seq<char> {
    (if ctrl { "Ctrl+"@ } else { Seq::<char>::empty() }) + (if alt { "Alt+"@ } else { Seq::<char>::empty() }) + (
    if shift { "Shift+"@ } else { Seq::<char>::empty() }) + (if win { "Win+"@ } else { Seq::<char>::empty() })
}

/// A captured shortcut as text, such as `Ctrl+Shift+F1`: the modifiers held
/// down and the key's name, joined with `+`; none for a key without a name.
pub open spec fn combo_text(vk: u32, ctrl: bool, alt: bool, shift: bool, win: bool) -> Option<Seq<char>> {
    match readable_name(vk) {
        Some(name) => Some(modifier_prefix(ctrl, alt, shift, win) + name),
        None => None,
    }
}

/// Builds the text of a captured shortcut from the key and the modifier
/// keys held down.
pub fn format_captured_key(vk_code: u32, ctrl: bool, alt: bool, shift: bool, win: bool) -> (r: Option<String>)
    ensures
        match r {
            Some(s) => combo_text(vk_code, ctrl, alt, shift, win) == Some(s@),
            None => combo_text(vk_code, ctrl, alt, shift, win) is None,
        },
{
    let name = match vk_code_to_readable(vk_code) {
        Some(n) => n,
        None => return None,
    };
    let mut v: Vec<char> = Vec::new();
    let ghost e = Seq::<char>::empty();
    if ctrl {
        append_chars(&mut v, &str_chars("Ctrl+"));
    }
    assert(v@ == e + (if ctrl { "Ctrl+"@ } else { e }));
    if alt {
        append_chars(&mut v, &str_chars("Alt+"));
    }
    assert(v@ == (if ctrl { "Ctrl+"@ } else { e }) + (if alt { "Alt+"@ } else { e }));
    if shift {
        append_chars(&mut v, &str_chars("Shift+"));
    }
    if win {
        append_chars(&mut v, &str_chars("Win+"));
    }
    assert(v@ == modifier_prefix(ctrl, alt, shift, win));
    append_chars(&mut v, &str_chars(name.as_str()));
    Some(chars_to_string(&v))
}

// ───────────────────────── the toggle shortcut ─────────────────────────

/// A keyboard shortcut: the modifiers it needs and its key.
#[derive(Clone, Copy, Debug, PartialEq, Eq, Structural)]
pub struct Hotkey {
    pub ctrl: bool,
    pub alt: bool,
    pub shift: bool,
    pub vk: u32,
}

/// One `+`-separated part of a shortcut, trimmed and upper-cased.
pub open spec fn shortcut_token(part: Seq<char>) -> Seq<char> {
    unicode_uppercase(trim_ws(part))
}

/// The token is one byte of UTF-8: a single ASCII character.
pub open spec fn single_byte(t: Seq<char>) -> bool {
    t.len() == 1 && (t[0] as u32) < 0x80
}

/// Reads the upper-cased parts of a shortcut from left to right: `CTRL`,
/// `ALT` and `SHIFT` set their modifier; a single character, `TAB`,
/// `SPACE`, `ENTER`/`RETURN` or `ESCAPE`/`ESC` sets the key (the last one
/// wins); anything else is skipped. Starts from no modifiers and key 0.
pub open spec fn token_fields(tokens: Seq<Seq<char>>) -> (bool, bool, bool, u32)
    decreases tokens.len(),
{
    if tokens.len() == 0 {
        (false, false, false, 0)
    } else {
        let f = token_fields(tokens.drop_last());
        let t = tokens.last();
        if t == "CTRL"@ {
            (true, f.1, f.2, f.3)
        } else if t == "ALT"@ {
            (f.0, true, f.2, f.3)
        } else if t == "SHIFT"@ {
            (f.0, f.1, true, f.3)
        } else if single_byte(t) {
            (f.0, f.1, f.2, t[0] as u32)
        } else if t == "TAB"@ {
            (f.0, f.1, f.2, VK_TAB)
        } else if t == "SPACE"@ {
            (f.0, f.1, f.2, VK_SPACE)
        } else if t == "ENTER"@ || t == "RETURN"@ {
            (f.0, f.1, f.2, VK_RETURN)
        } else if t == "ESCAPE"@ || t == "ESC"@ {
            (f.0, f.1, f.2, VK_ESCAPE)
        } else {
            f
        }
    }
}

/// The shortcut that fields name: none without a key.
pub open spec fn hotkey_of(f: (bool, bool, bool, u32)) -> Option<Hotkey> {
    if f.3 != 0 {
        Some(Hotkey { ctrl: f.0, alt: f.1, shift: f.2, vk: f.3 })
    } else {
        None
    }
}

/// The `+`-separated parts of a shortcut text, each trimmed and
/// upper-cased.
pub open spec fn shortcut_tokens(s: Seq<char>) -> Seq<Seq<char>> {
    split_by(s, eq_char('+')).map_values(|p: Seq<char>| shortcut_token(p))
}

/// The shortcut a text such as `Ctrl+T` names; none where no part names a key.
pub open spec fn shortcut_spec(s: Seq<char>) -> Option<Hotkey> {
    hotkey_of(token_fields(shortcut_tokens(s)))
}

/// A part of an ASCII shortcut text, trimmed and upper-cased as ASCII.
pub open spec fn ascii_token(part: Seq<char>) -> Seq<char> {
    upper_ascii_seq(trim_ws(part))
}

/// The shortcut an ASCII text names, read as `shortcut_spec` reads it.
pub open spec fn ascii_shortcut_spec(s: Seq<char>) -> Option<Hotkey> {
    hotkey_of(token_fields(split_by(s, eq_char('+')).map_values(|p: Seq<char>| ascii_token(p))))
}

/// Whether `t` holds exactly the characters of `word`.
fn token_is(t: &Vec<char>, word: &str) -> (b: bool)
    ensures
        b == (t@ == word@),
{
    chars_equal(t, &str_chars(word))
}

/// Parses a shortcut as `shortcut_spec` says (for ASCII text, as
/// `ascii_shortcut_spec` says).
pub fn parse_shortcut(shortcut: &str) -> (r: Option<Hotkey>)
    ensures
        r == shortcut_spec(shortcut@),
        is_ascii_seq(shortcut@) ==> r == ascii_shortcut_spec(shortcut@),
{
    let chars = str_chars(shortcut);
    let parts = split(&chars, '+', false);
    let ghost ps = views(parts@);
    proof {
        if is_ascii_seq(shortcut@) {
            lemma_split_ascii(shortcut@, eq_char('+'));
        }
    }
    let ghost mut tokens = Seq::<Seq<char>>::empty();
    let mut ctrl = false;
    let mut alt = false;
    let mut shift = false;
    let mut vk: u32 = 0;
    let mut i: usize = 0;
    while i < parts.len()
        invariant
            i <= parts@.len(),
            ps == views(parts@),
            ps == split_by(shortcut@, eq_char('+')),
            is_ascii_seq(shortcut@) ==> forall|k: int| 0 <= k < ps.len() ==> is_ascii_seq(#[trigger] ps[k]),
            tokens == ps.take(i as int).map_values(|p: Seq<char>| shortcut_token(p)),
            is_ascii_seq(shortcut@) ==> tokens == ps.take(i as int).map_values(|p: Seq<char>| ascii_token(p)),
            token_fields(tokens) == (ctrl, alt, shift, vk),
        decreases parts@.len() - i,
    {
        let trimmed = trim(&parts[i]);
        let t = to_uppercase(&trimmed);
        proof {
            assert(ps[i as int] == parts@[i as int]@);
            if is_ascii_seq(shortcut@) {
                lemma_trim_ascii(ps[i as int]);
            }
            assert(ps.take(i + 1).map_values(|p: Seq<char>| shortcut_token(p)) == tokens.push(t@));
            if is_ascii_seq(shortcut@) {
                assert(ps.take(i + 1).map_values(|p: Seq<char>| ascii_token(p)) == tokens.push(t@));
            }
            tokens = tokens.push(t@);
            assert(tokens.drop_last() == ps.take(i as int).map_values(|p: Seq<char>| shortcut_token(p)));
        }
        if token_is(&t, "CTRL") {
            ctrl = true;
        } else if token_is(&t, "ALT") {
            alt = true;
        } else if token_is(&t, "SHIFT") {
            shift = true;
        } else if t.len() == 1 && (t[0] as u32) < 0x80 {
            vk = t[0] as u32;
        } else if token_is(&t, "TAB") {
            vk = VK_TAB;
        } else if token_is(&t, "SPACE") {
            vk = VK_SPACE;
        } else if token_is(&t, "ENTER") || token_is(&t, "RETURN") {
            vk = VK_RETURN;
        } else if token_is(&t, "ESCAPE") || token_is(&t, "ESC") {
            vk = VK_ESCAPE;
        }
        i = i + 1;
    }
    assert(ps.take(i as int) == ps);
    if vk != 0 {
        Some(Hotkey { ctrl, alt, shift, vk })
    } else {
        None
    }
}

// ───────────────────────── hook state ─────────────────────────

/// What the keyboard hook keeps between events.
pub struct HookState {
    /// The candidate overlay is shown: digit keys pick candidates.
    pub osd_visible: bool,
    /// The next key combination is being recorded.
    pub capture_mode: bool,
    /// The last recorded combination, until it is collected.
    pub captured_key: Option<String>,
    /// A recorded combination waits to be collected.
    pub key_captured: bool,
    /// The shortcut that toggles the tool.
    pub hotkey: Hotkey,
}

impl HookState {
    /// Overlay hidden, nothing recorded, toggle shortcut Ctrl+T.
    pub fn new() -> (s: Self)
        ensures
            !s.osd_visible,
            !s.capture_mode,
            s.captured_key is None,
            !s.key_captured,
            s.hotkey == (Hotkey { ctrl: true, alt: false, shift: false, vk: 0x54 }),
    {
        HookState {
            osd_visible: false,
            capture_mode: false,
            captured_key: None,
            key_captured: false,
            hotkey: Hotkey { ctrl: true, alt: false, shift: false, vk: 0x54 },
        }
    }
}

/// Sets the toggle shortcut to the one `shortcut` names; a text that names
/// no key leaves it as it was.
pub fn update_hotkey(state: &mut HookState, shortcut: &str)
    ensures
        final(state).hotkey == (match shortcut_spec(shortcut@) {
            Some(h) => h,
            None => old(state).hotkey,
        }),
        is_ascii_seq(shortcut@) ==> final(state).hotkey == (match ascii_shortcut_spec(shortcut@) {
            Some(h) => h,
            None => old(state).hotkey,
        }),
        final(state).osd_visible == old(state).osd_visible,
        final(state).capture_mode == old(state).capture_mode,
        final(state).captured_key == old(state).captured_key,
        final(state).key_captured == old(state).key_captured,
{
    if let Some(h) = parse_shortcut(shortcut) {
        state.hotkey = h;
    }
}

/// Records whether the candidate overlay is shown: while it is, the digit
/// keys 1 to 9 pick candidates.
pub fn set_osd_visible(state: &mut HookState, visible: bool)
    ensures
        final(state).osd_visible == visible,
        final(state).capture_mode == old(state).capture_mode,
        final(state).captured_key == old(state).captured_key,
        final(state).key_captured == old(state).key_captured,
        final(state).hotkey == old(state).hotkey,
{
    state.osd_visible = visible;
}

/// Starts recording the next key combination, dropping any earlier one.
pub fn start_key_capture(state: &mut HookState)
    ensures
        final(state).capture_mode,
        final(state).captured_key is None,
        !final(state).key_captured,
        final(state).osd_visible == old(state).osd_visible,
        final(state).hotkey == old(state).hotkey,
{
    state.captured_key = None;
    state.key_captured = false;
    state.capture_mode = true;
}

/// Stops recording.
pub fn cancel_key_capture(state: &mut HookState)
    ensures
        !final(state).capture_mode,
        final(state).captured_key == old(state).captured_key,
        final(state).key_captured == old(state).key_captured,
        final(state).osd_visible == old(state).osd_visible,
        final(state).hotkey == old(state).hotkey,
{
    state.capture_mode = false;
}

/// What collecting a recorded combination gives: the combination, if one
/// was recorded and not collected yet.
pub open spec fn polled(s: HookState) -> Option<String> {
    if s.key_captured {
        s.captured_key
    } else {
        None
    }
}

/// The state after collecting: nothing left to collect.
pub open spec fn after_poll(s: HookState) -> HookState {
    if s.key_captured {
        HookState { key_captured: false, captured_key: None, ..s }
    } else {
        s
    }
}

/// Collects a recorded combination: once only, and only after one was
/// recorded.
pub fn poll_captured_key(state: &mut HookState) -> (r: Option<String>)
    ensures
        r == polled(*old(state)),
        *final(state) == after_poll(*old(state)),
{
    if state.key_captured {
        state.key_captured = false;
        state.captured_key.take()
    } else {
        None
    }
}

/// Whether a key combination is being recorded.
pub fn is_capturing(state: &HookState) -> (b: bool)
    ensures
        b == state.capture_mode,
{
    state.capture_mode
}

// ───────────────────────── hook events ─────────────────────────

/// A key press passed on to the main thread.
#[derive(Debug, Clone, Copy, PartialEq, Eq, Structural)]
pub struct KeyEvent {
    pub vk_code: u32,
    pub is_key_down: bool,
    pub ctrl_down: bool,
    pub shift_down: bool,
    pub is_extended: bool,
}

/// What the hook tells the main thread.
#[derive(Debug, Clone, Copy, PartialEq, Eq, Structural)]
pub enum HookCommand {
    Key(KeyEvent),
    ToggleMode,
    /// A digit key picked a candidate (0-based).
    SelectN(usize),
}

/// One low-level keyboard event with the state of the keyboard around it.
#[derive(Debug, Clone, Copy)]
pub struct HookInput {
    /// The hook code; below zero the event is not to be processed.
    pub n_code: i32,
    /// The window message (key down, key up, ...).
    pub message: u32,
    pub vk_code: u32,
    /// The event's flags.
    pub flags: u32,
    /// The extra information of the event (the simulated-input marker).
    pub extra_info: usize,
    pub ctrl_down: bool,
    pub shift_down: bool,
    pub alt_down: bool,
    /// Either Windows key is down.
    pub win_down: bool,
    /// A Chinese input method is open in the foreground window.
    pub ime_open: bool,
}

/// What the hook does with an event.
#[derive(Debug, Clone, Copy, PartialEq, Eq, Structural)]
pub enum HookVerdict {
    /// Pass the event on to the next hook.
    PassOn,
    /// Swallow the event.
    Swallow,
}

#[derive(Debug, Clone, Copy, PartialEq, Eq, Structural)]
pub struct HookOutcome {
    pub verdict: HookVerdict,
    /// The command to send to the main thread, if any.
    pub command: Option<HookCommand>,
}

pub open spec fn key_down_message(message: u32) -> bool {
    message == WM_KEYDOWN || message == WM_SYSKEYDOWN
}

/// The event is not the hook's to process: a negative hook code, or input
/// that the tool simulated itself.
pub open spec fn skipped(i: HookInput) -> bool {
    i.n_code < 0 || i.extra_info == MAGIC_EXTRA_INFO
}

/// A candidate digit 1 to 9, pressed or released while the overlay is shown,
/// without Ctrl or Alt.
pub open spec fn picks_candidate(s: HookState, i: HookInput) -> bool {
    !skipped(i) && s.osd_visible && 0x31 <= i.vk_code <= 0x39 && !i.ctrl_down && !i.alt_down
}

/// The event falls to the shortcut recorder.
pub open spec fn recorded(s: HookState, i: HookInput) -> bool {
    !skipped(i) && !picks_candidate(s, i) && s.capture_mode
}

/// The toggle shortcut was pressed, with exactly its modifiers.
pub open spec fn toggles(s: HookState, i: HookInput) -> bool {
    &&& !skipped(i) && !picks_candidate(s, i) && !recorded(s, i)
    &&& key_down_message(i.message)
    &&& i.ctrl_down == s.hotkey.ctrl && i.alt_down == s.hotkey.alt && i.shift_down == s.hotkey.shift
    &&& i.vk_code == s.hotkey.vk
}

/// Tab, pressed or released while the overlay is shown (and not the
/// toggle): the tool takes it over, so it never reaches the application.
pub open spec fn takes_tab(s: HookState, i: HookInput) -> bool {
    &&& !skipped(i) && !picks_candidate(s, i) && !recorded(s, i) && !toggles(s, i)
    &&& s.osd_visible
    &&& i.vk_code == VK_TAB
}

/// A key press that goes to the main thread: not skipped, picked, recorded,
/// the toggle or a Tab taken over, and not a letter typed into an open
/// Chinese input method.
pub open spec fn forwarded(s: HookState, i: HookInput) -> bool {
    &&& !skipped(i) && !picks_candidate(s, i) && !recorded(s, i) && !toggles(s, i) && !takes_tab(s, i)
    &&& key_down_message(i.message)
    &&& !(letter_key(i.vk_code) && i.ime_open)
}

/// The key event the hook forwards for `i`.
pub open spec fn forwarded_event(i: HookInput) -> KeyEvent {
    KeyEvent {
        vk_code: i.vk_code,
        is_key_down: true,
        ctrl_down: i.ctrl_down,
        shift_down: i.shift_down,
        is_extended: (i.flags & KF_EXTENDED) != 0,
    }
}

/// The recorder takes this event: a key press that is not a modifier and
/// has a name.
pub open spec fn completes_recording(s: HookState, i: HookInput) -> bool {
    recorded(s, i) && key_down_message(i.message) && !modifier_key(i.vk_code) && combo_text(
        i.vk_code,
        i.ctrl_down,
        i.alt_down,
        i.shift_down,
        i.win_down,
    ) is Some
}

/// What the hook answers to `i` in state `s`.
pub open spec fn hook_outcome(s: HookState, i: HookInput) -> HookOutcome {
    if skipped(i) {
        HookOutcome { verdict: HookVerdict::PassOn, command: None }
    } else if picks_candidate(s, i) {
        HookOutcome {
            verdict: HookVerdict::Swallow,
            command: if key_down_message(i.message) {
                Some(HookCommand::SelectN((i.vk_code - 0x31) as usize))
            } else {
                None
            },
        }
    } else if recorded(s, i) {
        HookOutcome { verdict: HookVerdict::Swallow, command: None }
    } else if toggles(s, i) {
        HookOutcome { verdict: HookVerdict::Swallow, command: Some(HookCommand::ToggleMode) }
    } else if takes_tab(s, i) {
        HookOutcome {
            verdict: HookVerdict::Swallow,
            command: if key_down_message(i.message) {
                Some(HookCommand::Key(forwarded_event(i)))
            } else {
                None
            },
        }
    } else if forwarded(s, i) {
        HookOutcome { verdict: HookVerdict::PassOn, command: Some(HookCommand::Key(forwarded_event(i))) }
    } else {
        HookOutcome { verdict: HookVerdict::PassOn, command: None }
    }
}

/// How an event changes the hook state `s` into `t`: an event that
/// completes a recording stores the combination's text, ends the recording
/// and marks it for collection; every other event changes nothing.
pub open spec fn event_transition(s: HookState, i: HookInput, t: HookState) -> bool {
    &&& t.osd_visible == s.osd_visible
    &&& t.hotkey == s.hotkey
    &&& completes_recording(s, i) ==> {
        &&& !t.capture_mode
        &&& t.key_captured
        &&& t.captured_key matches Some(k) && combo_text(i.vk_code, i.ctrl_down, i.alt_down, i.shift_down, i.win_down)
            == Some(k@)
    }
    &&& !completes_recording(s, i) ==> t == s
}

/// Decides what the low-level keyboard hook does with one event, and
/// records a captured shortcut.
pub fn decide_hook_event(state: &mut HookState, input: &HookInput) -> (out: HookOutcome)
    ensures
        out == hook_outcome(*old(state), *input),
        event_transition(*old(state), *input, *final(state)),
{
    let pass = HookOutcome { verdict: HookVerdict::PassOn, command: None };
    if input.n_code < 0 || input.extra_info == MAGIC_EXTRA_INFO {
        return pass;
    }
    let key_down = input.message == WM_KEYDOWN || input.message == WM_SYSKEYDOWN;
    let vk = input.vk_code;
    if state.osd_visible && vk >= 0x31 && vk <= 0x39 && !input.ctrl_down && !input.alt_down {
        let command = if key_down {
            Some(HookCommand::SelectN((vk - 0x31) as usize))
        } else {
            None
        };
        return HookOutcome { verdict: HookVerdict::Swallow, command };
    }
    if state.capture_mode {
        if key_down && !is_modifier_key(vk) {
            if let Some(combo) = format_captured_key(
                vk,
                input.ctrl_down,
                input.alt_down,
                input.shift_down,
                input.win_down,
            ) {
                state.captured_key = Some(combo);
                state.key_captured = true;
                state.capture_mode = false;
            }
        }
        return HookOutcome { verdict: HookVerdict::Swallow, command: None };
    }
    let hk = state.hotkey;
    if key_down && input.ctrl_down == hk.ctrl && input.alt_down == hk.alt && input.shift_down == hk.shift
        && vk == hk.vk {
        return HookOutcome { verdict: HookVerdict::Swallow, command: Some(HookCommand::ToggleMode) };
    }
    let event = KeyEvent {
        vk_code: vk,
        is_key_down: true,
        ctrl_down: input.ctrl_down,
        shift_down: input.shift_down,
        is_extended: (input.flags & KF_EXTENDED) != 0,
    };
    if state.osd_visible && vk == VK_TAB {
        let command = if key_down {
            Some(HookCommand::Key(event))
        } else {
            None
        };
        return HookOutcome { verdict: HookVerdict::Swallow, command };
    }
    if key_down && is_letter_key(vk) && input.ime_open {
        return pass;
    }
    if !key_down {
        return pass;
    }
    HookOutcome { verdict: HookVerdict::PassOn, command: Some(HookCommand::Key(event)) }
}

/// While the candidate box is shown, pressing digit `n` (1 to 9) without
/// Ctrl or Alt picks candidate `n` (index `n - 1`) and the digit never
/// reaches the application; its release is swallowed too. Digit 0 is no
/// candidate key.
pub proof fn law_digits_pick_candidates(s: HookState, i: HookInput)
    requires
        s.osd_visible,
        i.n_code >= 0,
        i.extra_info != MAGIC_EXTRA_INFO,
        !i.ctrl_down && !i.alt_down,
    ensures
        0x31 <= i.vk_code <= 0x39 && i.message == WM_KEYDOWN ==> hook_outcome(s, i) == (HookOutcome {
            verdict: HookVerdict::Swallow,
            command: Some(HookCommand::SelectN((i.vk_code - 0x31) as usize)),
        }),
        0x31 <= i.vk_code <= 0x39 ==> hook_outcome(s, i).verdict == HookVerdict::Swallow,
        i.vk_code == 0x30 ==> !(hook_outcome(s, i).command matches Some(HookCommand::SelectN(_))),
{
}

/// While the candidate box is shown, Tab belongs to the tool: unless it is
/// the toggle shortcut or a shortcut is being recorded, pressing it is
/// swallowed and sent to the main thread as a key, and releasing it is
/// swallowed.
pub proof fn law_tab_taken_over(s: HookState, i: HookInput)
    requires
        s.osd_visible,
        !s.capture_mode,
        i.n_code >= 0,
        i.extra_info != MAGIC_EXTRA_INFO,
        i.vk_code == VK_TAB,
        !(i.ctrl_down == s.hotkey.ctrl && i.alt_down == s.hotkey.alt && i.shift_down == s.hotkey.shift && s.hotkey.vk
            == VK_TAB),
    ensures
        hook_outcome(s, i).verdict == HookVerdict::Swallow,
        i.message == WM_KEYDOWN ==> hook_outcome(s, i).command == Some(HookCommand::Key(KeyEvent {
            vk_code: VK_TAB,
            is_key_down: true,
            ctrl_down: i.ctrl_down,
            shift_down: i.shift_down,
            is_extended: (i.flags & KF_EXTENDED) != 0,
        })),
{
}

/// Pressing the toggle shortcut with exactly its modifiers toggles the mode
/// and is swallowed (unless a shortcut is being recorded, or the shortcut is
/// a digit that picks a candidate while the box is shown).
pub proof fn law_toggle_on_press(s: HookState, i: HookInput)
    requires
        !s.capture_mode,
        i.n_code >= 0,
        i.extra_info != MAGIC_EXTRA_INFO,
        i.message == WM_KEYDOWN || i.message == WM_SYSKEYDOWN,
        i.ctrl_down == s.hotkey.ctrl && i.alt_down == s.hotkey.alt && i.shift_down == s.hotkey.shift,
        i.vk_code == s.hotkey.vk,
        !(s.osd_visible && 0x31 <= i.vk_code <= 0x39 && !i.ctrl_down && !i.alt_down),
    ensures
        hook_outcome(s, i) == (HookOutcome { verdict: HookVerdict::Swallow, command: Some(HookCommand::ToggleMode) }),
{
}

/// Releasing a key never sends a command: the toggle shortcut, a candidate
/// digit or Tab act once, on the press, so one press of the toggle shortcut
/// toggles the mode exactly once.
pub proof fn law_key_up_sends_nothing(s: HookState, i: HookInput)
    requires
        i.message != WM_KEYDOWN && i.message != WM_SYSKEYDOWN,
    ensures
        hook_outcome(s, i).command is None,
{
}

/// Input the tool simulates itself always passes through untouched; while a
/// shortcut is being recorded, every other key is swallowed and nothing
/// reaches the main thread.
pub proof fn law_hook_passes_and_records(s: HookState, i: HookInput)
    ensures
        i.extra_info == MAGIC_EXTRA_INFO ==> hook_outcome(s, i) == (HookOutcome {
            verdict: HookVerdict::PassOn,
            command: None,
        }) && !completes_recording(s, i),
        recorded(s, i) ==> hook_outcome(s, i) == (HookOutcome { verdict: HookVerdict::Swallow, command: None }),
{
}

/// A recorded shortcut is collected exactly once: after the event that
/// completes a recording, collecting gives the combination's text, and
/// collecting again gives nothing.
pub proof fn law_capture_collected_once(s: HookState, i: HookInput, t: HookState)
    requires
        event_transition(s, i, t),
        completes_recording(s, i),
    ensures
        polled(t) matches Some(k) && combo_text(i.vk_code, i.ctrl_down, i.alt_down, i.shift_down, i.win_down)
            == Some(k@),
        polled(after_poll(t)) is None,
        !after_poll(t).capture_mode,
{
}

/// The modifier parts a recorded shortcut names before its key.
pub open spec fn modifier_parts(ctrl: bool, alt: bool, shift: bool) -> Seq<Seq<char>> {
    (if ctrl { seq!["Ctrl"@] } else { Seq::<Seq<char>>::empty() }) + (if alt { seq!["Alt"@] } else { Seq::<Seq<char>>::empty() }) + (
    if shift { seq!["Shift"@] } else { Seq::<Seq<char>>::empty() })
}

proof fn lemma_split_recording(ctrl: bool, alt: bool, shift: bool, name: Seq<char>)
    requires
        !name.contains('+'),
        is_ascii_seq(name),
    ensures
        split_by(modifier_prefix(ctrl, alt, shift, false) + name, eq_char('+')) == modifier_parts(ctrl, alt, shift).push(name),
        is_ascii_seq(modifier_prefix(ctrl, alt, shift, false) + name),
{
    reveal_strlit("Ctrl+");
    reveal_strlit("Alt+");
    reveal_strlit("Shift+");
    reveal_strlit("Win+");
    reveal_strlit("Ctrl");
    reveal_strlit("Alt");
    reveal_strlit("Shift");
    let e = Seq::<char>::empty();
    let ee = Seq::<Seq<char>>::empty();
    assert(!"Ctrl"@.contains('+'));
    assert(!"Alt"@.contains('+'));
    assert(!"Shift"@.contains('+'));
    lemma_split_whole(name, '+');
    let s3 = if shift { "Shift"@ + seq!['+'] + name } else { name };
    if shift {
        lemma_split_at_first("Shift"@, '+', name);
    }
    let p3 = (if shift { seq!["Shift"@] } else { ee }).push(name);
    assert(split_by(s3, eq_char('+')) == p3);
    let s2 = if alt { "Alt"@ + seq!['+'] + s3 } else { s3 };
    if alt {
        lemma_split_at_first("Alt"@, '+', s3);
    }
    let p2 = (if alt { seq!["Alt"@] } else { ee }) + p3;
    assert(split_by(s2, eq_char('+')) == p2);
    let s1 = if ctrl { "Ctrl"@ + seq!['+'] + s2 } else { s2 };
    if ctrl {
        lemma_split_at_first("Ctrl"@, '+', s2);
    }
    let p1 = (if ctrl { seq!["Ctrl"@] } else { ee }) + p2;
    assert(split_by(s1, eq_char('+')) == p1);
    assert(modifier_prefix(ctrl, alt, shift, false) + name =~= s1);
    assert(modifier_parts(ctrl, alt, shift).push(name) =~= p1);
    assert forall|i: int| 0 <= i < s1.len() implies (#[trigger] s1[i] as u32) < 0x80 by {
        if ctrl && i < 5 {
        } else {
            let i2 = if ctrl { i - 5 } else { i };
            assert(s1[i] == s2[i2]);
            if alt && i2 < 4 {
            } else {
                let i3 = if alt { i2 - 4 } else { i2 };
                assert(s2[i2] == s3[i3]);
                if shift && i3 < 6 {
                } else {
                    let i4 = if shift { i3 - 6 } else { i3 };
                    assert(s3[i3] == name[i4]);
                }
            }
        }
    }
}

proof fn lemma_tokens_recording(ctrl: bool, alt: bool, shift: bool, name: Seq<char>, vk: u32)
    requires
        vk != 0,
        token_fields(seq![ascii_token(name)]) == (false, false, false, vk),
    ensures
        token_fields(modifier_parts(ctrl, alt, shift).push(name).map_values(
            |p: Seq<char>| ascii_token(p),
        )) == (ctrl, alt, shift, vk),
{
    reveal_strlit("Ctrl");
    reveal_strlit("Alt");
    reveal_strlit("Shift");
    reveal_strlit("CTRL");
    reveal_strlit("ALT");
    reveal_strlit("SHIFT");
    assert(trim_ws("Ctrl"@) == "Ctrl"@);
    assert(trim_ws("Alt"@) == "Alt"@);
    assert(trim_ws("Shift"@) == "Shift"@);
    assert(ascii_token("Ctrl"@) =~= "CTRL"@);
    assert(ascii_token("Alt"@) =~= "ALT"@);
    assert(ascii_token("Shift"@) =~= "SHIFT"@);
    let tok = ascii_token(name);
    let tokens = modifier_parts(ctrl, alt, shift).push(name).map_values(|p: Seq<char>| ascii_token(p));
    let ee = Seq::<Seq<char>>::empty();
    let t1 = if ctrl { seq!["CTRL"@] } else { ee };
    let t2 = t1 + if alt { seq!["ALT"@] } else { ee };
    let t3 = t2 + if shift { seq!["SHIFT"@] } else { ee };
    assert(tokens =~= t3.push(tok));
    assert(token_fields(ee) == (false, false, false, 0u32));
    assert(token_fields(t1) == (ctrl, false, false, 0u32)) by {
        if ctrl {
            assert(t1.drop_last() =~= ee);
            assert(t1.last() == "CTRL"@);
        }
    }
    assert(token_fields(t2) == (ctrl, alt, false, 0u32)) by {
        if alt {
            assert(t2.drop_last() =~= t1);
        } else {
            assert(t2 =~= t1);
        }
    }
    assert(token_fields(t3) == (ctrl, alt, shift, 0u32)) by {
        if shift {
            assert(t3.drop_last() =~= t2);
        } else {
            assert(t3 =~= t2);
        }
    }
    assert(t3.push(tok).drop_last() =~= t3);
    assert(seq![tok].drop_last() =~= ee);
    assert(seq![tok].last() == tok);
    assert(t3.push(tok).last() == tok);
}

/// The single token of a key's name reads as that key.
proof fn lemma_name_token(vk: u32)
    requires
        letter_key(vk) || digit_key(vk) || vk == VK_RETURN || vk == VK_ESCAPE || vk == VK_SPACE || vk == VK_TAB,
    ensures
        readable_name(vk) matches Some(name) && !name.contains('+') && is_ascii_seq(name) && token_fields(
            seq![ascii_token(name)],
        ) == (false, false, false, vk),
{
    reveal_strlit("Tab");
    reveal_strlit("Enter");
    reveal_strlit("Escape");
    reveal_strlit("Space");
    reveal_strlit("TAB");
    reveal_strlit("ENTER");
    reveal_strlit("ESCAPE");
    reveal_strlit("SPACE");
    reveal_strlit("CTRL");
    reveal_strlit("ALT");
    reveal_strlit("SHIFT");
    reveal_strlit("RETURN");
    reveal_strlit("ESC");
    let name = readable_name(vk)->0;
    let ee = Seq::<Seq<char>>::empty();
    assert(seq![ascii_token(name)].drop_last() =~= ee);
    assert(token_fields(ee) == (false, false, false, 0u32));
    if letter_key(vk) || digit_key(vk) {
        assert(name == seq![ascii(vk as int)]);
        assert(trim_ws(name) == name);
        assert(ascii_token(name) =~= name);
        assert(single_byte(name));
        assert(!name.contains('+'));
        assert(is_ascii_seq(name));
    } else if vk == VK_TAB {
        assert(name == "Tab"@);
        assert(trim_ws("Tab"@) == "Tab"@);
        assert(ascii_token("Tab"@) =~= "TAB"@);
        assert(!"Tab"@.contains('+'));
        assert(is_ascii_seq("Tab"@));
        assert(seq![ascii_token("Tab"@)].last() == "TAB"@);
        assert(token_fields(seq!["TAB"@]) == (false, false, false, VK_TAB));
    } else if vk == VK_RETURN {
        assert(name == "Enter"@);
        assert(trim_ws("Enter"@) == "Enter"@);
        assert(ascii_token("Enter"@) =~= "ENTER"@);
        assert(!"Enter"@.contains('+'));
        assert(is_ascii_seq("Enter"@));
        assert(seq![ascii_token("Enter"@)].last() == "ENTER"@);
        assert(token_fields(seq!["ENTER"@]) == (false, false, false, VK_RETURN));
    } else if vk == VK_ESCAPE {
        assert(name == "Escape"@);
        assert(trim_ws("Escape"@) == "Escape"@);
        assert(ascii_token("Escape"@) =~= "ESCAPE"@);
        assert(!"Escape"@.contains('+'));
        assert(is_ascii_seq("Escape"@));
        assert(seq![ascii_token("Escape"@)].last() == "ESCAPE"@);
        assert(token_fields(seq!["ESCAPE"@]) == (false, false, false, VK_ESCAPE));
    } else {
        assert(name == "Space"@);
        assert(trim_ws("Space"@) == "Space"@);
        assert(ascii_token("Space"@) =~= "SPACE"@);
        assert(!"Space"@.contains('+'));
        assert(is_ascii_seq("Space"@));
        assert(seq![ascii_token("Space"@)].last() == "SPACE"@);
        assert("SPACE"@[1] != "SHIFT"@[1]);
        assert("SPACE"@ != "SHIFT"@);
        assert(seq!["SPACE"@].drop_last() =~= ee);
        assert(token_fields(seq!["SPACE"@]) == (false, false, false, VK_SPACE));
    }
}

/// A recorded shortcut reads back as itself: the text that recording a
/// letter, digit, Enter, Escape, Space or Tab key with modifiers produces
/// (the Windows key not held) is ASCII, and reading it gives the same
/// modifiers and key, so applying a recorded shortcut as the toggle selects
/// exactly the recorded combination.
pub proof fn law_recorded_shortcut_reads_back(vk: u32, ctrl: bool, alt: bool, shift: bool)
    requires
        letter_key(vk) || digit_key(vk) || vk == VK_RETURN || vk == VK_ESCAPE || vk == VK_SPACE || vk == VK_TAB,
    ensures
        combo_text(vk, ctrl, alt, shift, false) matches Some(t) && is_ascii_seq(t) && ascii_shortcut_spec(t) == Some(
            Hotkey { ctrl, alt, shift, vk },
        ),
{
    lemma_name_token(vk);
    let name = readable_name(vk)->0;
    lemma_split_recording(ctrl, alt, shift, name);
    lemma_tokens_recording(ctrl, alt, shift, name, vk);
}
} // verus!

//! Skins of the candidate overlay: the built-in themes, the choice of a
//! theme from the configuration, and `#RRGGBB` colours as Windows colour
//! values.

#![allow(non_snake_case)]

use vstd::prelude::*;
use crate::config::{AppConfig, is_blank, blank};
use crate::text::{
    str_chars, trim, trim_ws, trim_start_char, trim_start_matches, lower_ascii_seq, lowercase_ascii_chars,
    chars_equal, utf8_len, utf8_len_at_least, append_chars, chars_to_string,
};
use crate::number::{parse_hex_u32, parse_hex_u32_spec};

verus! {

/// A skin of the candidate overlay.
#[derive(Debug, Clone)]
pub struct OverlayTheme {
    /// Skin name.
    pub name: String,
    /// Background colour, `#RRGGBB`.
    pub background: String,
    /// Border colour, `#RRGGBB`.
    pub border: String,
    /// Main text colour, `#RRGGBB`.
    pub textPrimary: String,
    /// Secondary text colour, `#RRGGBB`.
    pub textSecondary: String,
    /// Colour of the numbers and accents, `#RRGGBB`.
    pub accent: String,
    /// Background of the selected candidate, `#RRGGBB`.
    pub selectedBackground: String,
    /// Separator colour, `#RRGGBB`.
    pub separator: String,
    /// Font name.
    pub fontName: String,
    /// Font height.
    pub fontHeight: i32,
    /// Corner radius of the window.
    pub cornerRadius: i32,
}

/// The text of a skin, field by field.
pub struct ThemeView {
    pub name: Seq<char>,
    pub background: Seq<char>,
    pub border: Seq<char>,
    pub text_primary: Seq<char>,
    pub text_secondary: Seq<char>,
    pub accent: Seq<char>,
    pub selected_background: Seq<char>,
    pub separator: Seq<char>,
    pub font_name: Seq<char>,
    pub font_height: i32,
    pub corner_radius: i32,
}

impl View for OverlayTheme {
    type V = ThemeView;

    open spec fn view(&self) -> ThemeView {
        ThemeView {
            name: self.name@,
            background: self.background@,
            border: self.border@,
            text_primary: self.textPrimary@,
            text_secondary: self.textSecondary@,
            accent: self.accent@,
            selected_background: self.selectedBackground@,
            separator: self.separator@,
            font_name: self.fontName@,
            font_height: self.fontHeight,
            corner_radius: self.cornerRadius,
        }
    }
}

/// The built-in `memphis` skin: warm grey with sky-blue numbers.
pub open spec fn memphis_theme() -> ThemeView {
    ThemeView {
        name: "memphis"@,
        background: "#F8F9FA"@,
        border: "#E8ECF0"@,
        text_primary: "#2C3E50"@,
        text_secondary: "#7F8C8D"@,
        accent: "#4D96FF"@,
        selected_background: "#F0D4E2"@,
        separator: "#E8ECF0"@,
        font_name: "Segoe UI"@,
        font_height: 20,
        corner_radius: 12,
    }
}

/// The built-in `light` skin (the font and corners of `memphis`).
pub open spec fn light_theme() -> ThemeView {
    ThemeView {
        name: "light"@,
        background: "#FFFFFF"@,
        border: "#D7DEE8"@,
        text_primary: "#1F2937"@,
        text_secondary: "#6B7280"@,
        accent: "#2563EB"@,
        selected_background: "#DBEAFE"@,
        separator: "#E5E7EB"@,
        ..memphis_theme()
    }
}

/// The built-in `dark` skin (the font and corners of `memphis`).
pub open spec fn dark_theme() -> ThemeView {
    ThemeView {
        name: "dark"@,
        background: "#20242B"@,
        border: "#3A414C"@,
        text_primary: "#F3F4F6"@,
        text_secondary: "#AAB2C0"@,
        accent: "#7DD3FC"@,
        selected_background: "#334155"@,
        separator: "#475569"@,
        ..memphis_theme()
    }
}

impl Default for OverlayTheme {
    /// The `memphis` skin.
    fn default() -> (t: Self)
        ensures
            t@ == memphis_theme(),
    {
        OverlayTheme {
            name: "memphis".to_owned(),
            background: "#F8F9FA".to_owned(),
            border: "#E8ECF0".to_owned(),
            textPrimary: "#2C3E50".to_owned(),
            textSecondary: "#7F8C8D".to_owned(),
            accent: "#4D96FF".to_owned(),
            selectedBackground: "#F0D4E2".to_owned(),
            separator: "#E8ECF0".to_owned(),
            fontName: "Segoe UI".to_owned(),
            fontHeight: 20,
            cornerRadius: 12,
        }
    }
}

/// The skin that a configuration names: trimmed and lower-cased (ASCII).
pub open spec fn skin_key(cfg_skin: Seq<char>) -> Seq<char> {
    lower_ascii_seq(trim_ws(cfg_skin))
}

/// The skin a configuration selects, given the custom skin as it was read
/// from its file (none where it could not be read).
pub open spec fn configured_theme(cfg_skin: Seq<char>, custom: Option<ThemeView>) -> ThemeView {
    let key = skin_key(cfg_skin);
    if key == "light"@ {
        light_theme()
    } else if key == "dark"@ {
        dark_theme()
    } else if key == "custom"@ {
        match custom {
            Some(t) => t,
            None => memphis_theme(),
        }
    } else {
        memphis_theme()
    }
}

impl OverlayTheme {
    fn light() -> (t: Self)
        ensures
            t@ == light_theme(),
    {
        OverlayTheme {
            name: "light".to_owned(),
            background: "#FFFFFF".to_owned(),
            border: "#D7DEE8".to_owned(),
            textPrimary: "#1F2937".to_owned(),
            textSecondary: "#6B7280".to_owned(),
            accent: "#2563EB".to_owned(),
            selectedBackground: "#DBEAFE".to_owned(),
            separator: "#E5E7EB".to_owned(),
            fontName: "Segoe UI".to_owned(),
            fontHeight: 20,
            cornerRadius: 12,
        }
    }

    fn dark() -> (t: Self)
        ensures
            t@ == dark_theme(),
    {
        OverlayTheme {
            name: "dark".to_owned(),
            background: "#20242B".to_owned(),
            border: "#3A414C".to_owned(),
            textPrimary: "#F3F4F6".to_owned(),
            textSecondary: "#AAB2C0".to_owned(),
            accent: "#7DD3FC".to_owned(),
            selectedBackground: "#334155".to_owned(),
            separator: "#475569".to_owned(),
            fontName: "Segoe UI".to_owned(),
            fontHeight: 20,
            cornerRadius: 12,
        }
    }

    /// The configuration selects the custom skin.
    pub fn uses_custom_skin(cfg: &AppConfig) -> (b: bool)
        ensures
            b == (skin_key(cfg.overlay_skin_name@) == "custom"@),
    {
        let key = lowercase_ascii_chars(&trim(&str_chars(cfg.overlay_skin_name.as_str())));
        chars_equal(&key, &str_chars("custom"))
    }

    /// The custom skin's file is worth reading: its path is not blank.
    pub fn has_custom_skin_path(path: &str) -> (b: bool)
        ensures
            b == !is_blank(path@),
    {
        !blank(&path.to_owned())
    }

    /// The skin the configuration selects: `light`, `dark`, `custom` (the
    /// skin read from `custom_skin_path`, passed as `custom`, or the default
    /// where it could not be read), and the default `memphis` otherwise.
    pub fn from_config(cfg: &AppConfig, custom: Option<OverlayTheme>) -> (t: Self)
        ensures
            t@ == configured_theme(
                cfg.overlay_skin_name@,
                match custom {
                    Some(c) => Some(c@),
                    None => None,
                },
            ),
    {
        let key = lowercase_ascii_chars(&trim(&str_chars(cfg.overlay_skin_name.as_str())));
        if chars_equal(&key, &str_chars("light")) {
            Self::light()
        } else if chars_equal(&key, &str_chars("dark")) {
            Self::dark()
        } else if chars_equal(&key, &str_chars("custom")) {
            match custom {
                Some(c) => c,
                None => Self::default(),
            }
        } else {
            Self::default()
        }
    }
}

/// The Windows colour value (`0x00BBGGRR`) of a `#RRGGBB` text: the text is
/// trimmed and its leading `#` removed; anything but six bytes gives the
/// fallback, and six bytes that are not hexadecimal give the fallback's own
/// value read as `0xRRGGBB`.
pub open spec fn color_value(value: Seq<char>, fallback: u32) -> u32 {
    let hex = trim_start_char(trim_ws(value), '#');
    if utf8_len(hex) != 6 {
        fallback
    } else {
        let rgb: u32 = match parse_hex_u32_spec(hex) {
            Some(v) => v,
            None => fallback,
        };
        ((rgb & 0xFF) << 16u32) | (((rgb >> 8u32) & 0xFF) << 8u32) | ((rgb >> 16u32) & 0xFF)
    }
}

/// Reads a `#RRGGBB` colour as `color_value` says.
pub fn color_ref(value: &str, fallback: u32) -> (c: u32)
    ensures
        c == color_value(value@, fallback),
{
    let hex = trim_start_matches(&trim(&str_chars(value)), '#');
    if !(utf8_len_at_least(&hex, 6) && !utf8_len_at_least(&hex, 7)) {
        return fallback;
    }
    let rgb: u32 = match parse_hex_u32(&hex) {
        Some(v) => v,
        None => fallback,
    };
    let red = (rgb >> 16u32) & 0xFF;
    let green = (rgb >> 8u32) & 0xFF;
    let blue = rgb & 0xFF;
    (blue << 16u32) | (green << 8u32) | red
}


// ───────────────────────── laying out the candidates ─────────────────────────

/// Space before the first candidate, in pixels.
pub const PADDING_H: i32 = 12;

/// Width of the separator between two candidates, in pixels.
pub const SEPARATOR_WIDTH: i32 = 24;

/// The largest text width, in pixels, that a layout is asked to place.
pub const MAX_TEXT_WIDTH: i32 = 100000;

/// Where one candidate is drawn, given the widths of its number and word.
#[derive(Debug, Clone, Copy, PartialEq, Eq, Structural)]
pub struct ItemBox {
    /// Where the separator before it is drawn (none for the first).
    pub separator_x: Option<i32>,
    /// Where its number is drawn.
    pub number_x: i32,
    /// Where its word is drawn.
    pub word_x: i32,
    /// Left edge of its selection highlight.
    pub highlight_left: i32,
    /// Right edge of its selection highlight.
    pub highlight_right: i32,
}

/// Width a candidate takes: its number, a gap of 4, its word and a margin of 8.
pub open spec fn item_width(nw: int, ww: int) -> int {
    nw + 4 + ww + 8
}

/// The pen position before candidate `i` (before its separator).
pub open spec fn pen_before(nw: Seq<i32>, ww: Seq<i32>, i: nat) -> int
    decreases i,
{
    if i == 0 {
        PADDING_H as int
    } else {
        let k = (i - 1) as nat;
        pen_before(nw, ww, k) + (if k > 0 { SEPARATOR_WIDTH as int } else { 0 }) + item_width(nw[k as int] as int, ww[k as int] as int) + 2
    }
}

/// Where candidate `i` goes: after the separator (for all but the first),
/// its number, then its word two pixels after the number, highlighted from
/// two pixels before it to two pixels after its width.
pub open spec fn item_box(nw: Seq<i32>, ww: Seq<i32>, i: nat) -> ItemBox {
    let pen = pen_before(nw, ww, i);
    let x = pen + if i > 0 { SEPARATOR_WIDTH as int } else { 0 };
    ItemBox {
        separator_x: if i > 0 { Some((pen + 5) as i32) } else { None },
        number_x: x as i32,
        word_x: (x + nw[i as int] + 2) as i32,
        highlight_left: (x - 2) as i32,
        highlight_right: (x + item_width(nw[i as int] as int, ww[i as int] as int) + 2) as i32,
    }
}

proof fn lemma_pen_bound(nw: Seq<i32>, ww: Seq<i32>, i: nat)
    requires
        i <= nw.len(),
        nw.len() == ww.len(),
        forall|k: int| 0 <= k < nw.len() ==> 0 <= #[trigger] nw[k] <= MAX_TEXT_WIDTH,
        forall|k: int| 0 <= k < ww.len() ==> 0 <= #[trigger] ww[k] <= MAX_TEXT_WIDTH,
    ensures
        PADDING_H <= pen_before(nw, ww, i) <= PADDING_H + i * (2 * MAX_TEXT_WIDTH + 40),
    decreases i,
{
    if i > 0 {
        lemma_pen_bound(nw, ww, (i - 1) as nat);
        let k = (i - 1) as int;
        assert(0 <= nw[k] <= MAX_TEXT_WIDTH && 0 <= ww[k] <= MAX_TEXT_WIDTH);
        assert(PADDING_H + (i - 1) * (2 * MAX_TEXT_WIDTH + 40) + (2 * MAX_TEXT_WIDTH + 40) == PADDING_H + i * (2
            * MAX_TEXT_WIDTH + 40)) by (nonlinear_arith);
    }
}

/// Lays out the candidates from the measured widths of their numbers and
/// words: each box as `item_box` says.
pub fn item_layout(num_widths: &Vec<i32>, word_widths: &Vec<i32>) -> (r: Vec<ItemBox>)
    requires
        num_widths@.len() == word_widths@.len(),
        num_widths@.len() <= 1000,
        forall|k: int| 0 <= k < num_widths@.len() ==> 0 <= #[trigger] num_widths@[k] <= MAX_TEXT_WIDTH,
        forall|k: int| 0 <= k < word_widths@.len() ==> 0 <= #[trigger] word_widths@[k] <= MAX_TEXT_WIDTH,
    ensures
        r@.len() == num_widths@.len(),
        forall|k: int| 0 <= k < r@.len() ==> #[trigger] r@[k] == item_box(num_widths@, word_widths@, k as nat),
{
    let ghost nw = num_widths@;
    let ghost ww = word_widths@;
    let n = num_widths.len();
    let mut r: Vec<ItemBox> = Vec::new();
    let mut x: i32 = PADDING_H;
    let mut i: usize = 0;
    while i < n
        invariant
            n == nw.len(),
            nw == num_widths@,
            ww == word_widths@,
            nw.len() == ww.len(),
            n <= 1000,
            forall|k: int| 0 <= k < nw.len() ==> 0 <= #[trigger] nw[k] <= MAX_TEXT_WIDTH,
        forall|k: int| 0 <= k < ww.len() ==> 0 <= #[trigger] ww[k] <= MAX_TEXT_WIDTH,
            i <= n,
            x == pen_before(nw, ww, i as nat),
            r@.len() == i,
            forall|k: int| 0 <= k < i ==> #[trigger] r@[k] == item_box(nw, ww, k as nat),
        decreases n - i,
    {
        proof {
            lemma_pen_bound(nw, ww, i as nat);
            assert(i * (2 * MAX_TEXT_WIDTH + 40) <= 1000 * (2 * MAX_TEXT_WIDTH + 40)) by (nonlinear_arith)
                requires
                    i <= 1000;
        }
        let nwi = num_widths[i];
        let wwi = word_widths[i];
        let separator_x = if i > 0 {
            Some(x + 5)
        } else {
            None
        };
        let start = if i > 0 {
            x + SEPARATOR_WIDTH
        } else {
            x
        };
        let total = nwi + 4 + wwi + 8;
        let b = ItemBox {
            separator_x,
            number_x: start,
            word_x: start + nwi + 2,
            highlight_left: start - 2,
            highlight_right: start + total + 2,
        };
        r.push(b);
        x = start + total + 2;
        i = i + 1;
    }
    r
}

/// The word a candidate shows: marked with `~` when it came from the fuzzy
/// fallback.
pub fn word_label(word: &str, fuzzy: bool) -> (s: String)
    ensures
        s@ == (if fuzzy { seq!['~'] + word@ } else { word@ }),
{
    let mut v: Vec<char> = Vec::new();
    if fuzzy {
        v.push('~');
    }
    append_chars(&mut v, &str_chars(word));
    chars_to_string(&v)
}
} // verus!

//! Runtime constants and the application configuration.

use vstd::prelude::*;
use crate::text::{str_chars, trim};

verus! {

/// Marker carried by simulated input; the keyboard hook lets such events through.
pub const MAGIC_EXTRA_INFO: usize = 0xEA52;

/// Size of the prediction overlay window.
pub const OVERLAY_WIDTH: i32 = 400;
pub const OVERLAY_HEIGHT: i32 = 28;

pub const OVERLAY_FONT_NAME: &'static str = "Segoe UI";

/// Delay between simulated key presses, in milliseconds.
pub const SIMULATE_KEY_DELAY_MS: u64 = 5;

/// Offset used where no text caret can be located.
pub const CARET_FALLBACK_OFFSET_X: i32 = 10;
pub const CARET_FALLBACK_OFFSET_Y: i32 = 20;

/// Tray tooltips.
pub const TRAY_TOOLTIP_ACTIVE: &'static str = "easy2type: 开启中";
pub const TRAY_TOOLTIP_INVISIBLE: &'static str = "easy2type: 已隐藏";

/// Largest edit distance of a fuzzy match.
pub const MAX_FUZZY_DISTANCE: usize = 2;

/// Shortest prefix, in bytes, that triggers fuzzy matching.
pub const FUZZY_MIN_PREFIX_LEN: usize = 3;

/// Most candidates a fuzzy search returns.
pub const MAX_FUZZY_CANDIDATES: usize = 5;

/// Default number of candidates in the overlay.
pub const CANDIDATE_LIMIT: usize = 4;

/// Modifier key that selects candidates.
pub const MODIFIER_KEY: &'static str = "Ctrl";

/// Resource id of the embedded icon.
pub const IDI_ICON_ID: u16 = 1;

/// Name of the built-in dictionary.
pub const DEFAULT_DICTIONARY_NAME: &'static str = "通用高频词库";

/// Path of the built-in dictionary.
pub const DEFAULT_DICTIONARY_PATH: &'static str = "assets/words.txt";

/// Default overlay skin.
pub const DEFAULT_OVERLAY_SKIN_NAME: &'static str = "memphis";

/// Application configuration; `config.json` overrides it.
#[derive(Debug, Clone)]
pub struct AppConfig {
    /// Shortcut that toggles the tool, such as `Ctrl+T`.
    pub toggle_shortcut: String,
    /// Shortcut that completes a word, such as `Tab`.
    pub complete_shortcut: String,
    /// Number of candidates, from 4 to 9.
    pub candidate_limit: usize,
    /// Modifier key that selects candidates.
    pub modifier_key: String,
    /// Ignore text that contains digits.
    pub filter_digits: bool,
    /// Ignore web addresses and paths.
    pub filter_urls: bool,
    /// Name of the dictionary in use.
    pub dictionary_name: String,
    /// Path of the dictionary file (txt / tsv / csv).
    pub dictionary_path: String,
    /// Overlay skin: memphis / light / dark / custom.
    pub overlay_skin_name: String,
    /// Path of a custom skin JSON file.
    pub custom_skin_path: String,
}

impl Default for AppConfig {
    fn default() -> (cfg: Self)
        ensures
            cfg.toggle_shortcut@ == "Ctrl+T"@,
            cfg.complete_shortcut@ == "Tab"@,
            cfg.candidate_limit == CANDIDATE_LIMIT,
            cfg.modifier_key@ == MODIFIER_KEY@,
            !cfg.filter_digits,
            !cfg.filter_urls,
            cfg.dictionary_name@ == DEFAULT_DICTIONARY_NAME@,
            cfg.dictionary_path@ == DEFAULT_DICTIONARY_PATH@,
            cfg.overlay_skin_name@ == DEFAULT_OVERLAY_SKIN_NAME@,
            cfg.custom_skin_path@ == Seq::<char>::empty(),
    {
        AppConfig {
            toggle_shortcut: "Ctrl+T".to_owned(),
            complete_shortcut: "Tab".to_owned(),
            candidate_limit: CANDIDATE_LIMIT,
            modifier_key: MODIFIER_KEY.to_owned(),
            filter_digits: false,
            filter_urls: false,
            dictionary_name: DEFAULT_DICTIONARY_NAME.to_owned(),
            dictionary_path: DEFAULT_DICTIONARY_PATH.to_owned(),
            overlay_skin_name: DEFAULT_OVERLAY_SKIN_NAME.to_owned(),
            custom_skin_path: String::new(),
        }
    }
}

/// `n` brought into `lo..=hi`.
pub open spec fn clamp_spec(n: int, lo: int, hi: int) -> int {
    if n < lo {
        lo
    } else if n > hi {
        hi
    } else {
        n
    }
}

/// `s` is empty once white space is trimmed.
pub open spec fn is_blank(s: Seq<char>) -> bool {
    crate::text::trim_ws(s).len() == 0
}

/// Whether `s` holds only white space.
pub fn blank(s: &String) -> (b: bool)
    ensures
        b == is_blank(s@),
{
    trim(&str_chars(s.as_str())).len() == 0
}

impl AppConfig {
    /// Brings a configuration read from a file within bounds: the candidate
    /// limit into 4..=9, and a blank dictionary path, dictionary name or skin
    /// name back to its default.
    pub fn sanitize(&mut self)
        ensures
            final(self).candidate_limit == clamp_spec(old(self).candidate_limit as int, 4, 9),
            final(self).dictionary_path@ == (if is_blank(old(self).dictionary_path@) {
                DEFAULT_DICTIONARY_PATH@
            } else {
                old(self).dictionary_path@
            }),
            final(self).dictionary_name@ == (if is_blank(old(self).dictionary_name@) {
                DEFAULT_DICTIONARY_NAME@
            } else {
                old(self).dictionary_name@
            }),
            final(self).overlay_skin_name@ == (if is_blank(old(self).overlay_skin_name@) {
                DEFAULT_OVERLAY_SKIN_NAME@
            } else {
                old(self).overlay_skin_name@
            }),
            final(self).toggle_shortcut == old(self).toggle_shortcut,
            final(self).complete_shortcut == old(self).complete_shortcut,
            final(self).modifier_key == old(self).modifier_key,
            final(self).filter_digits == old(self).filter_digits,
            final(self).filter_urls == old(self).filter_urls,
            final(self).custom_skin_path == old(self).custom_skin_path,
    {
        if self.candidate_limit < 4 {
            self.candidate_limit = 4;
        } else if self.candidate_limit > 9 {
            self.candidate_limit = 9;
        }
        if blank(&self.dictionary_path) {
            self.dictionary_path = DEFAULT_DICTIONARY_PATH.to_owned();
        }
        if blank(&self.dictionary_name) {
            self.dictionary_name = DEFAULT_DICTIONARY_NAME.to_owned();
        }
        if blank(&self.overlay_skin_name) {
            self.overlay_skin_name = DEFAULT_OVERLAY_SKIN_NAME.to_owned();
        }
    }
}

} // verus!

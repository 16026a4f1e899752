//! The tray icon's decisions: what a click or a menu command asks for, and
//! the tooltip that shows the mode.

use vstd::prelude::*;
use crate::state::AppMode;
use crate::simulate::{encode_utf16, utf16_units};
use crate::text::str_chars;

verus! {

/// Message id of tray notifications (`WM_USER + 1`).
pub const WM_APP_TRAY: u32 = 0x0401;

/// Mouse notifications from the tray icon.
pub const WM_LBUTTONUP: u32 = 0x0202;
pub const WM_RBUTTONUP: u32 = 0x0205;

/// Commands of the tray menu.
pub const IDM_TOGGLE: usize = 1001;
pub const IDM_SETTINGS: usize = 1002;
pub const IDM_ABOUT: usize = 1003;
pub const IDM_EXIT: usize = 1004;

/// What the tray asks of the application.
#[derive(Debug, Clone, Copy, PartialEq, Eq, Structural)]
pub enum TrayAction {
    /// Switch between active and invisible.
    ToggleMode,
    /// Open the settings panel.
    ShowSettings,
    /// Tell what the program is.
    About,
    /// Quit.
    Exit,
    /// Pop up the tray menu.
    ShowMenu,
}

pub open spec fn menu_action_spec(cmd_id: usize) -> Option<TrayAction> {
    if cmd_id == IDM_TOGGLE {
        Some(TrayAction::ToggleMode)
    } else if cmd_id == IDM_SETTINGS {
        Some(TrayAction::ShowSettings)
    } else if cmd_id == IDM_ABOUT {
        Some(TrayAction::About)
    } else if cmd_id == IDM_EXIT {
        Some(TrayAction::Exit)
    } else {
        None
    }
}

/// The action of a tray menu command; none for an unknown command.
pub fn menu_action(cmd_id: usize) -> (a: Option<TrayAction>)
    ensures
        a == menu_action_spec(cmd_id),
{
    if cmd_id == IDM_TOGGLE {
        Some(TrayAction::ToggleMode)
    } else if cmd_id == IDM_SETTINGS {
        Some(TrayAction::ShowSettings)
    } else if cmd_id == IDM_ABOUT {
        Some(TrayAction::About)
    } else if cmd_id == IDM_EXIT {
        Some(TrayAction::Exit)
    } else {
        None
    }
}

/// The action of a mouse notification from the icon: a left click toggles
/// the mode, a right click opens the menu, anything else is not handled.
pub fn click_action(event: u32) -> (a: Option<TrayAction>)
    ensures
        a == (if event == WM_LBUTTONUP {
            Some(TrayAction::ToggleMode)
        } else if event == WM_RBUTTONUP {
            Some(TrayAction::ShowMenu)
        } else {
            None
        }),
{
    if event == WM_LBUTTONUP {
        Some(TrayAction::ToggleMode)
    } else if event == WM_RBUTTONUP {
        Some(TrayAction::ShowMenu)
    } else {
        None
    }
}

/// The tooltip for a mode.
pub open spec fn tooltip_spec(mode: AppMode) -> Seq<char> {
    if mode == AppMode::Active {
        "easy2type: 开启"@
    } else {
        "easy2type: 隐形"@
    }
}

pub fn tooltip_text(mode: AppMode) -> (s: &'static str)
    ensures
        s@ == tooltip_spec(mode),
{
    match mode {
        AppMode::Active => "easy2type: 开启",
        AppMode::Invisible => "easy2type: 隐形",
    }
}

/// The UTF-16 units of `s`.
pub open spec fn utf16_of(s: Seq<char>) -> Seq<u16>
    decreases s.len(),
{
    if s.len() == 0 {
        Seq::<u16>::empty()
    } else {
        utf16_of(s.drop_last()) + utf16_units(s.last())
    }
}

/// A fixed 128-unit tooltip buffer: the text's UTF-16 units, cut to 127,
/// then zeros.
pub open spec fn tooltip_buffer_spec(text: Seq<char>) -> Seq<u16> {
    let u = utf16_of(text);
    let n = if u.len() < 127 { u.len() as int } else { 127 };
    Seq::new(128, |i: int| if i < n { u[i] } else { 0u16 })
}

/// The tooltip buffer of `text`, as `tooltip_buffer_spec` says.
pub fn tooltip_buffer(text: &str) -> (b: Vec<u16>)
    ensures
        b@ == tooltip_buffer_spec(text@),
{
    let chars = str_chars(text);
    let mut units: Vec<u16> = Vec::new();
    let mut i: usize = 0;
    while i < chars.len()
        invariant
            i <= chars@.len(),
            chars@ == text@,
            units@ == utf16_of(chars@.take(i as int)),
        decreases chars@.len() - i,
    {
        let u = encode_utf16(chars[i]);
        let mut k: usize = 0;
        let ghost base = units@;
        while k < u.len()
            invariant
                k <= u@.len(),
                units@ == base + u@.take(k as int),
            decreases u@.len() - k,
        {
            units.push(u[k]);
            k = k + 1;
            assert(u@.take(k as int) == u@.take(k - 1).push(u@[k - 1]));
        }
        assert(u@.take(k as int) == u@);
        assert(chars@.take(i + 1).drop_last() == chars@.take(i as int));
        i = i + 1;
    }
    assert(chars@.take(i as int) == chars@);
    let n: usize = if units.len() < 127 { units.len() } else { 127 };
    let mut b: Vec<u16> = Vec::new();
    let mut j: usize = 0;
    while j < 128
        invariant
            j <= 128,
            n <= units@.len(),
            n <= 127,
            units@ == utf16_of(text@),
            n == (if units@.len() < 127 { units@.len() as int } else { 127 }),
            b@.len() == j,
            forall|x: int| 0 <= x < j ==> b@[x] == (if x < n { units@[x] } else { 0u16 }),
        decreases 128 - j,
    {
        if j < n {
            b.push(units[j]);
        } else {
            b.push(0);
        }
        j = j + 1;
    }
    assert(b@ =~= tooltip_buffer_spec(text@));
    b
}

} // verus!

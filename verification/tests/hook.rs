use easy2type::config::MAGIC_EXTRA_INFO;
use easy2type::hook::{
    cancel_key_capture, decide_hook_event, format_captured_key, is_buffer_clear_key, is_capturing, is_digit_key,
    is_ignored_key, is_letter_key, is_modifier_key, is_punctuation_key, parse_shortcut, poll_captured_key,
    set_osd_visible, start_key_capture, update_hotkey, vk_code_to_readable, vk_to_char, HookCommand, HookInput,
    HookOutcome, HookState, HookVerdict, Hotkey, KeyEvent, VK_BACK, VK_CONTROL, VK_DELETE, VK_ESCAPE, VK_LEFT,
    VK_MULTIPLY, VK_OEM_1, VK_OEM_5, VK_OEM_7, VK_OEM_MINUS, VK_OEM_PERIOD, VK_RETURN, VK_SHIFT, VK_SPACE, VK_TAB,
    WM_KEYDOWN, WM_KEYUP, WM_SYSKEYDOWN,
};

fn input(vk: u32, message: u32) -> HookInput {
    HookInput {
        n_code: 0,
        message,
        vk_code: vk,
        flags: 0,
        extra_info: 0,
        ctrl_down: false,
        shift_down: false,
        alt_down: false,
        win_down: false,
        ime_open: false,
    }
}

const PASS: HookOutcome = HookOutcome { verdict: HookVerdict::PassOn, command: None };

#[test]
fn key_classes() {
    assert!(is_letter_key('A' as u32) && is_letter_key('Z' as u32) && !is_letter_key('a' as u32));
    assert!(is_digit_key('0' as u32) && is_digit_key('9' as u32) && !is_digit_key('A' as u32));
    assert!(is_punctuation_key(VK_OEM_PERIOD) && is_punctuation_key(VK_OEM_7) && !is_punctuation_key(VK_SPACE));
    assert!(is_buffer_clear_key(VK_SPACE) && is_buffer_clear_key(VK_RETURN) && is_buffer_clear_key(VK_TAB));
    assert!(is_buffer_clear_key(VK_OEM_1) && !is_buffer_clear_key('A' as u32));
    assert!(is_ignored_key(VK_SHIFT, false) && is_ignored_key(VK_ESCAPE, false));
    assert!(is_ignored_key(VK_LEFT, true) && !is_ignored_key(VK_LEFT, false));
    assert!(is_ignored_key(VK_DELETE, true) && !is_ignored_key(VK_BACK, true));
    assert!(is_modifier_key(VK_CONTROL) && is_modifier_key(VK_SHIFT) && !is_modifier_key('T' as u32));
}

#[test]
fn characters_of_keys() {
    assert_eq!(vk_to_char('A' as u32, false), Some('a'));
    assert_eq!(vk_to_char('Q' as u32, true), Some('Q'));
    assert_eq!(vk_to_char('7' as u32, false), Some('7'));
    assert_eq!(vk_to_char('1' as u32, true), Some('!'));
    assert_eq!(vk_to_char('0' as u32, true), Some(')'));
    assert_eq!(vk_to_char(VK_OEM_MINUS, false), Some('-'));
    assert_eq!(vk_to_char(VK_OEM_MINUS, true), Some('_'));
    assert_eq!(vk_to_char(VK_OEM_7, false), Some('\''));
    assert_eq!(vk_to_char(VK_OEM_7, true), Some('"'));
    assert_eq!(vk_to_char(VK_SPACE, false), None);
}

#[test]
fn readable_key_names() {
    assert_eq!(vk_code_to_readable('K' as u32), Some("K".to_string()));
    assert_eq!(vk_code_to_readable('5' as u32), Some("5".to_string()));
    assert_eq!(vk_code_to_readable(0x70), Some("F1".to_string()));
    assert_eq!(vk_code_to_readable(0x7B), Some("F12".to_string()));
    assert_eq!(vk_code_to_readable(0x87), Some("F24".to_string()));
    assert_eq!(vk_code_to_readable(0x63), Some("Num3".to_string()));
    assert_eq!(vk_code_to_readable(VK_MULTIPLY), Some("Num*".to_string()));
    assert_eq!(vk_code_to_readable(VK_BACK), Some("Backspace".to_string()));
    assert_eq!(vk_code_to_readable(VK_OEM_5), Some("\\".to_string()));
    assert_eq!(vk_code_to_readable(VK_OEM_1), Some(";:".to_string()));
    assert_eq!(vk_code_to_readable(VK_SHIFT), None);
    assert_eq!(vk_code_to_readable(0xFF), None);
}

#[test]
fn captured_key_text() {
    assert_eq!(format_captured_key('T' as u32, true, false, false, false), Some("Ctrl+T".to_string()));
    assert_eq!(format_captured_key(0x70, true, true, true, true), Some("Ctrl+Alt+Shift+Win+F1".to_string()));
    assert_eq!(format_captured_key(VK_SPACE, false, false, false, false), Some("Space".to_string()));
    assert_eq!(format_captured_key(VK_CONTROL, true, false, false, false), None);
}

#[test]
fn shortcut_parsing() {
    assert_eq!(parse_shortcut("Ctrl+T"), Some(Hotkey { ctrl: true, alt: false, shift: false, vk: 'T' as u32 }));
    assert_eq!(
        parse_shortcut(" alt + shift + k "),
        Some(Hotkey { ctrl: false, alt: true, shift: true, vk: 'K' as u32 })
    );
    assert_eq!(parse_shortcut("Ctrl+Space"), Some(Hotkey { ctrl: true, alt: false, shift: false, vk: VK_SPACE }));
    assert_eq!(parse_shortcut("Shift+Esc"), Some(Hotkey { ctrl: false, alt: false, shift: true, vk: VK_ESCAPE }));
    assert_eq!(parse_shortcut("Return"), Some(Hotkey { ctrl: false, alt: false, shift: false, vk: VK_RETURN }));
    assert_eq!(parse_shortcut("Tab"), Some(Hotkey { ctrl: false, alt: false, shift: false, vk: VK_TAB }));
    assert_eq!(parse_shortcut("Ctrl+A+B"), Some(Hotkey { ctrl: true, alt: false, shift: false, vk: 'B' as u32 }));
    assert_eq!(parse_shortcut("Ctrl+F1"), None);
    assert_eq!(parse_shortcut("Ctrl+é"), None);
    assert_eq!(parse_shortcut(""), None);
}

#[test]
fn recorded_shortcut_applies_as_toggle() {
    let mut state = HookState::new();
    let combo = format_captured_key('K' as u32, true, false, true, false).unwrap();
    update_hotkey(&mut state, &combo);
    assert_eq!(state.hotkey, Hotkey { ctrl: true, alt: false, shift: true, vk: 'K' as u32 });
    update_hotkey(&mut state, "Ctrl+F5");
    assert_eq!(state.hotkey, Hotkey { ctrl: true, alt: false, shift: true, vk: 'K' as u32 });
}

#[test]
fn hook_passes_simulated_input_and_key_ups() {
    let mut state = HookState::new();
    let mut simulated = input('A' as u32, WM_KEYDOWN);
    simulated.extra_info = MAGIC_EXTRA_INFO;
    assert_eq!(decide_hook_event(&mut state, &simulated), PASS);
    let mut negative = input('A' as u32, WM_KEYDOWN);
    negative.n_code = -1;
    assert_eq!(decide_hook_event(&mut state, &negative), PASS);
    assert_eq!(decide_hook_event(&mut state, &input('A' as u32, WM_KEYUP)), PASS);
}

#[test]
fn hook_forwards_key_presses() {
    let mut state = HookState::new();
    let mut e = input('A' as u32, WM_SYSKEYDOWN);
    e.shift_down = true;
    e.flags = 0x0100;
    assert_eq!(
        decide_hook_event(&mut state, &e),
        HookOutcome {
            verdict: HookVerdict::PassOn,
            command: Some(HookCommand::Key(KeyEvent {
                vk_code: 'A' as u32,
                is_key_down: true,
                ctrl_down: false,
                shift_down: true,
                is_extended: true,
            })),
        }
    );
    let mut ime = input('A' as u32, WM_KEYDOWN);
    ime.ime_open = true;
    assert_eq!(decide_hook_event(&mut state, &ime), PASS);
}

#[test]
fn hook_toggle_shortcut_needs_exact_modifiers() {
    let mut state = HookState::new();
    let mut e = input('T' as u32, WM_KEYDOWN);
    e.ctrl_down = true;
    assert_eq!(
        decide_hook_event(&mut state, &e),
        HookOutcome { verdict: HookVerdict::Swallow, command: Some(HookCommand::ToggleMode) }
    );
    e.shift_down = true;
    assert_eq!(decide_hook_event(&mut state, &e).command.map(|c| c == HookCommand::ToggleMode), Some(false));
}

#[test]
fn hook_digits_pick_candidates_while_overlay_shows() {
    let mut state = HookState::new();
    set_osd_visible(&mut state, true);
    assert_eq!(
        decide_hook_event(&mut state, &input('3' as u32, WM_KEYDOWN)),
        HookOutcome { verdict: HookVerdict::Swallow, command: Some(HookCommand::SelectN(2)) }
    );
    assert_eq!(
        decide_hook_event(&mut state, &input('3' as u32, WM_KEYUP)),
        HookOutcome { verdict: HookVerdict::Swallow, command: None }
    );
    // Zero is not a candidate key and goes through as typing.
    assert_eq!(decide_hook_event(&mut state, &input('0' as u32, WM_KEYDOWN)).verdict, HookVerdict::PassOn);
    let mut with_ctrl = input('3' as u32, WM_KEYDOWN);
    with_ctrl.ctrl_down = true;
    assert_eq!(decide_hook_event(&mut state, &with_ctrl).verdict, HookVerdict::PassOn);
    set_osd_visible(&mut state, false);
    assert_eq!(decide_hook_event(&mut state, &input('3' as u32, WM_KEYDOWN)).verdict, HookVerdict::PassOn);
}

#[test]
fn shortcut_capture_is_collected_once() {
    let mut state = HookState::new();
    start_key_capture(&mut state);
    assert!(is_capturing(&state));
    let mut ctrl = input(VK_CONTROL, WM_KEYDOWN);
    ctrl.ctrl_down = true;
    assert_eq!(
        decide_hook_event(&mut state, &ctrl),
        HookOutcome { verdict: HookVerdict::Swallow, command: None }
    );
    assert!(is_capturing(&state));
    assert_eq!(poll_captured_key(&mut state), None);
    let mut key = input(0x71, WM_KEYDOWN);
    key.ctrl_down = true;
    assert_eq!(
        decide_hook_event(&mut state, &key),
        HookOutcome { verdict: HookVerdict::Swallow, command: None }
    );
    assert!(!is_capturing(&state));
    assert_eq!(poll_captured_key(&mut state), Some("Ctrl+F2".to_string()));
    assert_eq!(poll_captured_key(&mut state), None);
}

#[test]
fn shortcut_capture_can_be_cancelled() {
    let mut state = HookState::new();
    start_key_capture(&mut state);
    cancel_key_capture(&mut state);
    assert!(!is_capturing(&state));
    let outcome = decide_hook_event(&mut state, &input('A' as u32, WM_KEYDOWN));
    assert_eq!(outcome.verdict, HookVerdict::PassOn);
    assert_eq!(poll_captured_key(&mut state), None);
}

#[test]
fn hook_takes_over_tab_while_overlay_shows() {
    let mut state = HookState::new();
    let tab_event = KeyEvent { vk_code: VK_TAB, is_key_down: true, ctrl_down: false, shift_down: false, is_extended: false };
    assert_eq!(
        decide_hook_event(&mut state, &input(VK_TAB, WM_KEYDOWN)),
        HookOutcome { verdict: HookVerdict::PassOn, command: Some(HookCommand::Key(tab_event)) }
    );
    set_osd_visible(&mut state, true);
    assert_eq!(
        decide_hook_event(&mut state, &input(VK_TAB, WM_KEYDOWN)),
        HookOutcome { verdict: HookVerdict::Swallow, command: Some(HookCommand::Key(tab_event)) }
    );
    assert_eq!(
        decide_hook_event(&mut state, &input(VK_TAB, WM_KEYUP)),
        HookOutcome { verdict: HookVerdict::Swallow, command: None }
    );
}

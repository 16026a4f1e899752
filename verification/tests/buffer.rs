use easy2type::buffer::{process_key_event, is_url_or_path_pattern, BufferAction};
use easy2type::config::AppConfig;
use easy2type::hook::{KeyEvent, VK_BACK, VK_OEM_PERIOD, VK_SPACE, VK_SHIFT, VK_LEFT, VK_TAB, VK_OEM_MINUS, VK_OEM_7};
use easy2type::state::AppState;

fn make_event(vk: u32, shift: bool, ext: bool) -> KeyEvent {
    KeyEvent {
        vk_code: vk,
        is_key_down: true,
        ctrl_down: false,
        shift_down: shift,
        is_extended: ext,
    }
}

#[test]
fn test_letter_typing_builds_buffer() {
    let mut state = AppState::new(AppConfig::default());
    process_key_event(&make_event('E' as u32, false, false), &mut state);
    assert_eq!(state.get_buffer(), "e");
    process_key_event(&make_event('N' as u32, false, false), &mut state);
    assert_eq!(state.get_buffer(), "en");
    process_key_event(&make_event('V' as u32, false, false), &mut state);
    assert_eq!(state.get_buffer(), "env");
}

#[test]
fn test_backspace_pops_buffer() {
    let mut state = AppState::new(AppConfig::default());
    process_key_event(&make_event('E' as u32, false, false), &mut state);
    process_key_event(&make_event('N' as u32, false, false), &mut state);
    process_key_event(&make_event('V' as u32, false, false), &mut state);

    let action = process_key_event(&make_event(VK_BACK, false, false), &mut state);
    assert_eq!(state.get_buffer(), "en");
    assert_eq!(action, BufferAction::UpdatePrediction);
}

#[test]
fn test_space_clears_buffer() {
    let mut state = AppState::new(AppConfig::default());
    process_key_event(&make_event('H' as u32, false, false), &mut state);
    process_key_event(&make_event('I' as u32, false, false), &mut state);

    let action = process_key_event(&make_event(VK_SPACE, false, false), &mut state);
    assert_eq!(state.get_buffer(), "");
    assert_eq!(action, BufferAction::ClearPrediction);
}

#[test]
fn test_empty_backspace_noop() {
    let mut state = AppState::new(AppConfig::default());
    let action = process_key_event(&make_event(VK_BACK, false, false), &mut state);
    assert_eq!(state.get_buffer(), "");
    assert_eq!(action, BufferAction::NoOp);
}

#[test]
fn test_last_char_backspace_clears() {
    let mut state = AppState::new(AppConfig::default());
    process_key_event(&make_event('X' as u32, false, false), &mut state);
    let action = process_key_event(&make_event(VK_BACK, false, false), &mut state);
    assert_eq!(state.get_buffer(), "");
    assert_eq!(action, BufferAction::ClearPrediction);
}

#[test]
fn test_period_clears_buffer() {
    let mut state = AppState::new(AppConfig::default());
    process_key_event(&make_event('A' as u32, false, false), &mut state);
    let action = process_key_event(&make_event(VK_OEM_PERIOD, false, false), &mut state);
    assert_eq!(state.get_buffer(), "");
    assert_eq!(action, BufferAction::ClearPrediction);
}

#[test]
fn shift_types_upper_case_and_punctuation_ends_the_word() {
    let mut state = AppState::new(AppConfig::default());
    assert_eq!(process_key_event(&make_event('D' as u32, true, false), &mut state), BufferAction::UpdatePrediction);
    assert_eq!(state.get_buffer(), "D");
    // The quote and minus keys are punctuation: they end the word.
    assert_eq!(process_key_event(&make_event(VK_OEM_7, false, false), &mut state), BufferAction::ClearPrediction);
    assert_eq!(state.get_buffer(), "");
    assert_eq!(process_key_event(&make_event(VK_OEM_MINUS, false, false), &mut state), BufferAction::NoOp);
    assert_eq!(state.get_buffer(), "");
}

#[test]
fn ignored_and_tab_keys_leave_the_buffer() {
    let mut state = AppState::new(AppConfig::default());
    process_key_event(&make_event('A' as u32, false, false), &mut state);
    assert_eq!(process_key_event(&make_event(VK_SHIFT, false, false), &mut state), BufferAction::NoOp);
    assert_eq!(process_key_event(&make_event(VK_LEFT, false, true), &mut state), BufferAction::NoOp);
    assert_eq!(process_key_event(&make_event(VK_TAB, false, false), &mut state), BufferAction::NoOp);
    assert_eq!(state.get_buffer(), "a");
}

#[test]
fn digits_are_not_typed_into_the_word() {
    let mut state = AppState::new(AppConfig::default());
    process_key_event(&make_event('A' as u32, false, false), &mut state);
    assert_eq!(process_key_event(&make_event('5' as u32, false, false), &mut state), BufferAction::NoOp);
    assert_eq!(state.get_buffer(), "a");
}

#[test]
fn digit_filter_holds_back_words_with_digits() {
    let mut config = AppConfig::default();
    config.filter_digits = true;
    let mut state = AppState::new(config);
    state.buffer = "ab1".to_string();
    let action = process_key_event(&make_event('C' as u32, false, false), &mut state);
    assert_eq!(action, BufferAction::ClearPrediction);
    assert_eq!(state.get_buffer(), "ab1");
}

#[test]
fn url_filter_holds_back_addresses() {
    let mut config = AppConfig::default();
    config.filter_urls = true;
    let mut state = AppState::new(config);
    state.buffer = "www".to_string();
    assert_eq!(process_key_event(&make_event('E' as u32, false, false), &mut state), BufferAction::ClearPrediction);
    assert_eq!(state.get_buffer(), "www");
    state.buffer = "wor".to_string();
    assert_eq!(process_key_event(&make_event('D' as u32, false, false), &mut state), BufferAction::UpdatePrediction);
    assert_eq!(state.get_buffer(), "word");
}

#[test]
fn url_and_path_patterns() {
    assert!(is_url_or_path_pattern("", '/'));
    assert!(is_url_or_path_pattern("abc", ':'));
    assert!(is_url_or_path_pattern("xhttpx", 'a'));
    assert!(is_url_or_path_pattern("wwwa", 'b'));
    assert!(is_url_or_path_pattern("a\\b", 'c'));
    assert!(is_url_or_path_pattern("a/b", 'c'));
    assert!(!is_url_or_path_pattern("hello", 'a'));
    assert!(!is_url_or_path_pattern("c", 'd'));
}

#[test]
fn backspace_after_typing_restores_the_word() {
    let mut state = AppState::new(AppConfig::default());
    state.buffer = "wor".to_string();
    process_key_event(&make_event('D' as u32, false, false), &mut state);
    let action = process_key_event(&make_event(VK_BACK, false, false), &mut state);
    assert_eq!(state.get_buffer(), "wor");
    assert_eq!(action, BufferAction::UpdatePrediction);
}

#[test]
fn digit_filter_withdraws_prediction_on_a_digit() {
    let mut config = AppConfig::default();
    config.filter_digits = true;
    let mut state = AppState::new(config);
    process_key_event(&make_event('A' as u32, false, false), &mut state);
    assert_eq!(process_key_event(&make_event('7' as u32, false, false), &mut state), BufferAction::ClearPrediction);
    assert_eq!(state.get_buffer(), "a");
    let mut empty = AppState::new(state.config.clone());
    assert_eq!(process_key_event(&make_event('0' as u32, false, false), &mut empty), BufferAction::ClearPrediction);
    assert_eq!(empty.get_buffer(), "");
}

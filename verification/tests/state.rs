use easy2type::config::AppConfig;
use easy2type::state::{AppMode, AppState};

#[test]
fn keeps_recent_four_context_words() {
    let mut state = AppState::new(AppConfig::default());
    for word in ["one", "two", "three", "four", "five"] {
        state.commit_word(word);
    }
    assert_eq!(state.get_context(), ["two", "three", "four", "five"]);
}

#[test]
fn clears_sentence_context() {
    let mut state = AppState::new(AppConfig::default());
    state.commit_word("hello");
    state.clear_context();
    assert!(state.get_context().is_empty());
}

#[test]
fn committed_words_are_trimmed_lowered_and_checked() {
    let mut state = AppState::new(AppConfig::default());
    state.commit_word("  Hello ");
    state.commit_word("don't");
    state.commit_word("well-known");
    state.commit_word("abc1");
    state.commit_word("   ");
    state.commit_word("naïve");
    assert_eq!(state.get_context(), ["hello", "don't", "well-known"]);
}

#[test]
fn mode_toggles_and_round_trips() {
    assert_eq!(AppMode::Active.toggle(), AppMode::Invisible);
    assert_eq!(AppMode::Invisible.toggle(), AppMode::Active);
    assert_eq!(AppMode::Active.toggle().toggle(), AppMode::Active);
    assert_eq!(AppMode::from_u8(0), AppMode::Active);
    assert_eq!(AppMode::from_u8(1), AppMode::Invisible);
    assert_eq!(AppMode::from_u8(7), AppMode::Invisible);
    assert_eq!(AppMode::from_u8(AppMode::Invisible.to_u8()), AppMode::Invisible);
    assert_eq!(AppMode::from_u8(AppMode::Active.to_u8()), AppMode::Active);
    assert!(AppMode::Active.is_active());
    assert!(!AppMode::Invisible.is_active());
}

#[test]
fn state_mode_and_buffer_operations() {
    let mut state = AppState::new(AppConfig::default());
    assert_eq!(state.get_mode(), AppMode::Active);
    assert_eq!(state.toggle_mode(), AppMode::Invisible);
    assert_eq!(state.get_mode(), AppMode::Invisible);
    state.set_mode(AppMode::Active);
    assert!(state.get_mode().is_active());

    state.push_to_buffer('a');
    state.push_to_buffer('b');
    assert_eq!(state.get_buffer(), "ab");
    state.pop_from_buffer();
    assert_eq!(state.get_buffer(), "a");
    state.pop_from_buffer();
    state.pop_from_buffer();
    assert_eq!(state.get_buffer(), "");
    state.push_to_buffer('z');
    state.clear_buffer();
    assert_eq!(state.get_buffer(), "");
}

use easy2type::candidates::{candidates, Candidate, CandidateList};
use easy2type::config::AppConfig;
use easy2type::control::{accept_candidate, handle_event, utf8_length, Effect, LoopEvent, NEXT_PREDICTION_DELAY_MS};
use easy2type::dictionary::Trie;
use easy2type::hook::{HookCommand, KeyEvent, VK_BACK, VK_SPACE, VK_TAB};
use easy2type::next_word::NextWordModel;
use easy2type::predictor::Predictor;
use easy2type::state::{AppMode, AppState};

fn key(vk: u32, ctrl: bool, shift: bool) -> LoopEvent {
    LoopEvent::Hook(HookCommand::Key(KeyEvent {
        vk_code: vk,
        is_key_down: true,
        ctrl_down: ctrl,
        shift_down: shift,
        is_extended: false,
    }))
}

fn shown(words: &[&str]) -> CandidateList {
    let mut list = CandidateList::new();
    list.show(words.iter().map(|w| Candidate { word: w.to_string(), fuzzy: false }).collect());
    list
}

fn kinds(effects: &[Effect]) -> Vec<String> {
    effects
        .iter()
        .map(|e| match e {
            Effect::UpdateTooltip => "tooltip".to_string(),
            Effect::HideOverlay => "hide".to_string(),
            Effect::ShowPrediction => "show".to_string(),
            Effect::Complete(t) => format!("complete {} {} {}", t.buffer_len, t.correct_word, t.append_space),
            Effect::StartKeyCapture => "capture".to_string(),
            Effect::SchedulePrediction(ms) => format!("schedule {}", ms),
            Effect::CancelPrediction => "cancel".to_string(),
        })
        .collect()
}

fn engine() -> (Predictor, NextWordModel) {
    let mut trie = Trie::new();
    trie.insert("does", 50);
    trie.insert("doing", 80);
    trie.insert("dog", 30);
    trie.insert("environment", 100);
    (Predictor::new(trie), NextWordModel::from_str("what\tdoes\t100\nwhat\tis\t90\n"))
}

#[test]
fn candidates_mix_context_dictionary_and_fuzzy() {
    let (p, m) = engine();
    let ctx: Vec<String> = vec!["what".into()];
    let c = candidates(&p, &m, &ctx, "", 4);
    assert_eq!(c.iter().map(|c| (c.word.as_str(), c.fuzzy)).collect::<Vec<_>>(), vec![("does", false), ("is", false)]);
    let c = candidates(&p, &m, &ctx, "do", 4);
    assert_eq!(
        c.iter().map(|c| (c.word.as_str(), c.fuzzy)).collect::<Vec<_>>(),
        vec![("does", false), ("doing", false), ("dog", false)]
    );
    let c = candidates(&p, &m, &ctx, "do", 2);
    assert_eq!(c.iter().map(|c| c.word.as_str()).collect::<Vec<_>>(), vec!["does", "doing"]);
    let c = candidates(&p, &m, &[], "enviroment", 4);
    assert_eq!(c.iter().map(|c| (c.word.as_str(), c.fuzzy)).collect::<Vec<_>>(), vec![("environment", true)]);
    assert!(candidates(&p, &m, &[], "zz", 4).is_empty());
    assert!(candidates(&p, &m, &[], "", 4).is_empty());
}

#[test]
fn candidate_list_selection() {
    let mut list = shown(&["alpha", "beta"]);
    assert!(list.visible);
    assert_eq!(list.selected_word(), Some("alpha".to_string()));
    assert!(list.set_selected(1));
    assert_eq!(list.selected_info(), Some(("beta".to_string(), 1)));
    assert!(!list.set_selected(2));
    assert_eq!(list.selected, 1);
    assert!(list.dismiss());
    assert!(list.candidates.is_empty());
    assert!(!list.dismiss());
    list.show(Vec::new());
    assert!(!list.visible);
}

#[test]
fn accepting_a_candidate_completes_and_remembers_it() {
    let mut app = AppState::new(AppConfig::default());
    app.buffer = "wh".to_string();
    let mut list = shown(&["what", "when"]);
    let task = accept_candidate(&mut app, &mut list, Some(1)).unwrap();
    assert_eq!(task.buffer_len, 2);
    assert_eq!(task.correct_word, "when");
    assert!(task.append_space);
    assert_eq!(app.get_buffer(), "");
    assert_eq!(app.get_context(), ["when"]);
    assert!(!list.visible);
    assert!(accept_candidate(&mut app, &mut list, None).is_none());
}

#[test]
fn loop_toggles_and_records() {
    let mut app = AppState::new(AppConfig::default());
    app.commit_word("hello");
    app.buffer = "wor".to_string();
    let mut list = shown(&["word"]);
    let effects = handle_event(&mut app, &mut list, LoopEvent::Hook(HookCommand::ToggleMode));
    assert_eq!(kinds(&effects), ["tooltip", "cancel", "hide"]);
    assert_eq!(app.get_mode(), AppMode::Invisible);
    assert_eq!(app.get_buffer(), "");
    assert!(app.get_context().is_empty());
    assert!(!list.visible);
    assert!(handle_event(&mut app, &mut list, key('A' as u32, false, false)).is_empty());
    assert_eq!(app.get_buffer(), "");
    let effects = handle_event(&mut app, &mut list, key('T' as u32, true, true));
    assert_eq!(kinds(&effects), ["capture"]);
    let effects = handle_event(&mut app, &mut list, LoopEvent::Hook(HookCommand::ToggleMode));
    assert_eq!(kinds(&effects), ["tooltip"]);
    assert!(app.get_mode().is_active());
}

#[test]
fn loop_typing_and_completion() {
    let mut app = AppState::new(AppConfig::default());
    let mut list = CandidateList::new();
    assert_eq!(kinds(&handle_event(&mut app, &mut list, key('D' as u32, false, false))), ["cancel", "show"]);
    assert_eq!(kinds(&handle_event(&mut app, &mut list, key('O' as u32, false, false))), ["cancel", "show"]);
    assert_eq!(app.get_buffer(), "do");
    list.show(vec![
        Candidate { word: "does".to_string(), fuzzy: false },
        Candidate { word: "dog".to_string(), fuzzy: false },
    ]);
    let effects = handle_event(&mut app, &mut list, key(VK_TAB, false, false));
    assert_eq!(
        kinds(&effects),
        ["complete 2 does true".to_string(), "hide".to_string(), format!("schedule {}", NEXT_PREDICTION_DELAY_MS)]
    );
    assert_eq!(app.get_context(), ["does"]);
    assert_eq!(kinds(&handle_event(&mut app, &mut list, LoopEvent::PredictionDue)), ["show"]);
    list.show(vec![Candidate { word: "the".to_string(), fuzzy: false }, Candidate { word: "it".to_string(), fuzzy: false }]);
    let effects = handle_event(&mut app, &mut list, key('2' as u32, true, false));
    assert_eq!(kinds(&effects)[0], "complete 0 it true");
    assert_eq!(app.get_context(), ["does", "it"]);
    assert!(handle_event(&mut app, &mut list, key('0' as u32, true, false)).is_empty());
    assert!(handle_event(&mut app, &mut list, LoopEvent::Hook(HookCommand::SelectN(0))).is_empty());
    handle_event(&mut app, &mut list, key('X' as u32, false, false));
    assert_eq!(kinds(&handle_event(&mut app, &mut list, key(VK_SPACE, false, false))), ["cancel", "hide"]);
    assert_eq!(kinds(&handle_event(&mut app, &mut list, key(VK_BACK, false, false))), Vec::<String>::new());
}

#[test]
fn byte_length_of_the_buffer() {
    assert_eq!(utf8_length(&['a', 'b']), 2);
    assert_eq!(utf8_length(&['é', '中', '😀']), 9);
    assert_eq!(utf8_length(&[]), 0);
}

//! The main loop's decisions: what each hook command and each due
//! prediction does to the application state and the overlay's list, and
//! what the loop must then carry out.

use vstd::prelude::*;
use crate::buffer::{process_key_event, key_effect, BufferAction};
use crate::candidates::CandidateList;
use crate::hook::{HookCommand, KeyEvent, VK_TAB, digit_key};
use crate::simulate::{complete_word_with_space, CompleteTask};
use crate::state::{AppMode, AppState, context_after};
use crate::next_word::string_views;
use crate::text::{str_chars, utf8_len};

verus! {

/// Milliseconds between accepting a candidate and predicting the next word,
/// so that the simulated typing lands first.
pub const NEXT_PREDICTION_DELAY_MS: u64 = 80;

/// What the main loop receives.
#[derive(Debug, Clone, Copy)]
pub enum LoopEvent {
    /// A command from the keyboard hook.
    Hook(HookCommand),
    /// A scheduled prediction is due.
    PredictionDue,
}

/// What the main loop must carry out after a decision.
#[derive(Debug, Clone)]
pub enum Effect {
    /// Refresh the tray tooltip to the current mode.
    UpdateTooltip,
    /// Take the overlay off screen; digit keys no longer pick candidates.
    HideOverlay,
    /// Compute the candidates for the current word and show them.
    ShowPrediction,
    /// Carry out a completion by simulated typing.
    Complete(CompleteTask),
    /// Start recording a shortcut.
    StartKeyCapture,
    /// Predict again after the given number of milliseconds.
    SchedulePrediction(u64),
    /// Drop a scheduled prediction.
    CancelPrediction,
}

/// `n` as a `usize`, saturating.
pub open spec fn saturate(n: nat) -> usize {
    if n <= usize::MAX {
        n as usize
    } else {
        usize::MAX
    }
}

/// Bytes of `s` in UTF-8, saturating at `usize::MAX`.
pub fn utf8_length(s: &[char]) -> (n: usize)
    ensures
        n == saturate(crate::text::utf8_len(s@)),
{
    let mut acc: usize = 0;
    let mut i: usize = 0;
    while i < s.len()
        invariant
            i <= s@.len(),
            acc == saturate(utf8_len(s@.take(i as int))),
        decreases s@.len() - i,
    {
        let c: u32 = s[i] as u32;
        let w: usize = if c < 0x80 {
            1
        } else if c < 0x800 {
            2
        } else if c < 0x10000 {
            3
        } else {
            4
        };
        assert(s@.take(i + 1).drop_last() == s@.take(i as int));
        acc = if acc > usize::MAX - w {
            usize::MAX
        } else {
            acc + w
        };
        i = i + 1;
    }
    assert(s@.take(i as int) == s@);
    acc
}

/// The candidate a selection picks: the given index if a candidate stands
/// there, or the current selection when no index is given.
pub open spec fn picked(shown: CandidateList, index: Option<usize>) -> Option<usize> {
    match index {
        Some(i) => if i < shown.candidates@.len() {
            Some(i)
        } else {
            None
        },
        None => if shown.selected < shown.candidates@.len() {
            Some(shown.selected)
        } else {
            None
        },
    }
}

/// The prediction is withdrawn: no prediction, the overlay off screen.
pub open spec fn withdrawn(old_app: AppState, new_app: AppState, old_shown: CandidateList, new_shown: CandidateList) -> bool {
    &&& new_app.prediction is None
    &&& !new_shown.visible
    &&& new_shown.selected == old_shown.selected
    &&& old_shown.visible ==> new_shown.candidates@.len() == 0
    &&& !old_shown.visible ==> new_shown.candidates == old_shown.candidates
}

/// Accepting candidate `k`: it replaces the typed word (with a space after
/// it), joins the context, the buffer empties and the prediction is
/// withdrawn.
pub open spec fn accepted(
    old_app: AppState,
    new_app: AppState,
    old_shown: CandidateList,
    new_shown: CandidateList,
    k: usize,
    task: CompleteTask,
) -> bool {
    let word = old_shown.candidates@[k as int].word@;
    &&& task.buffer_len == saturate(utf8_len(old_app.buffer@))
    &&& task.correct_word@ == word
    &&& task.append_space
    &&& string_views(new_app.context@) == context_after(string_views(old_app.context@), word)
    &&& new_app.buffer@ == Seq::<char>::empty()
    &&& new_app.mode == old_app.mode
    &&& new_app.config == old_app.config
    &&& new_app.prediction is None
    &&& !new_shown.visible
    &&& new_shown.selected == k
    &&& old_shown.visible ==> new_shown.candidates@.len() == 0
    &&& !old_shown.visible ==> new_shown.candidates == old_shown.candidates
}

/// Withdraws the prediction.
fn withdraw(app: &mut AppState, shown: &mut CandidateList)
    ensures
        withdrawn(*old(app), *final(app), *old(shown), *final(shown)),
        final(app).mode == old(app).mode,
        final(app).buffer == old(app).buffer,
        final(app).context == old(app).context,
        final(app).config == old(app).config,
{
    app.prediction = None;
    shown.dismiss();
}

/// Accepts a candidate: candidate `index`, or the selected one when no
/// index is given. Returns the completion to carry out, or none where there
/// is no such candidate (and then nothing changes).
pub fn accept_candidate(app: &mut AppState, shown: &mut CandidateList, index: Option<usize>) -> (task: Option<
    CompleteTask,
>)
    ensures
        match picked(*old(shown), index) {
            Some(k) => task matches Some(t) && accepted(*old(app), *final(app), *old(shown), *final(shown), k, t),
            None => task is None && *final(app) == *old(app) && *final(shown) == *old(shown),
        },
{
    if let Some(i) = index {
        if !shown.set_selected(i) {
            return None;
        }
    }
    let (word, _) = match shown.selected_info() {
        Some(info) => info,
        None => return None,
    };
    let len = utf8_length(&str_chars(app.buffer.as_str()));
    let task = complete_word_with_space(len, word.as_str());
    app.commit_word(word.as_str());
    app.clear_buffer();
    withdraw(app, shown);
    Some(task)
}

/// The key combination that starts recording a shortcut: Ctrl+Shift+T.
pub open spec fn starts_recording(e: KeyEvent) -> bool {
    e.ctrl_down && e.shift_down && e.vk_code == 0x54
}

/// The candidate a Ctrl+digit combination picks: digits 1 to 9 pick the
/// first to the ninth.
pub open spec fn ctrl_digit_pick(e: KeyEvent) -> Option<usize> {
    if e.ctrl_down && digit_key(e.vk_code) && 0x31 <= e.vk_code <= 0x39 {
        Some((e.vk_code - 0x31) as usize)
    } else {
        None
    }
}

/// The effects of accepting a candidate: carry out the completion, hide the
/// overlay, and predict the next word shortly.
pub open spec fn acceptance_effects(t: CompleteTask) -> Seq<Effect> {
    seq![Effect::Complete(t), Effect::HideOverlay, Effect::SchedulePrediction(NEXT_PREDICTION_DELAY_MS)]
}

/// The main loop's answer to one event.
pub fn handle_event(app: &mut AppState, shown: &mut CandidateList, event: LoopEvent) -> (effects: Vec<Effect>)
    ensures
        event matches LoopEvent::PredictionDue ==> effects@ == seq![Effect::ShowPrediction] && *final(app) == *old(
            app,
        ) && *final(shown) == *old(shown),
        event matches LoopEvent::Hook(HookCommand::ToggleMode) ==> {
            let m = old(app).mode.toggled();
            &&& final(app).mode == m
            &&& m == AppMode::Active ==> effects@ == seq![Effect::UpdateTooltip] && *final(app) == (AppState {
                mode: m,
                ..*old(app)
            }) && *final(shown) == *old(shown)
            &&& m == AppMode::Invisible ==> {
                &&& effects@ == seq![Effect::UpdateTooltip, Effect::CancelPrediction, Effect::HideOverlay]
                &&& final(app).buffer@ == Seq::<char>::empty()
                &&& final(app).context@.len() == 0
                &&& final(app).config == old(app).config
                &&& withdrawn(*old(app), *final(app), *old(shown), *final(shown))
            }
        },
        event matches LoopEvent::Hook(HookCommand::SelectN(n)) ==> match picked(*old(shown), Some(n)) {
            Some(k) => effects@.len() == 3 && (effects@[0] matches Effect::Complete(t) && effects@ == acceptance_effects(
                t,
            ) && accepted(*old(app), *final(app), *old(shown), *final(shown), k, t)),
            None => effects@.len() == 0 && *final(app) == *old(app) && *final(shown) == *old(shown),
        },
        event matches LoopEvent::Hook(HookCommand::Key(e)) ==> {
            &&& starts_recording(e) ==> effects@ == seq![Effect::StartKeyCapture] && *final(app) == *old(app)
                && *final(shown) == *old(shown)
            &&& !starts_recording(e) && old(app).mode != AppMode::Active ==> effects@.len() == 0 && *final(app)
                == *old(app) && *final(shown) == *old(shown)
            &&& !starts_recording(e) && old(app).mode == AppMode::Active && (e.ctrl_down && digit_key(e.vk_code)
                || e.vk_code == VK_TAB) ==> {
                let pick = if e.ctrl_down && digit_key(e.vk_code) {
                    match ctrl_digit_pick(e) {
                        Some(i) => picked(*old(shown), Some(i)),
                        None => None,
                    }
                } else {
                    picked(*old(shown), None)
                };
                match pick {
                    Some(k) => effects@.len() == 3 && (effects@[0] matches Effect::Complete(t) && effects@
                        == acceptance_effects(t) && accepted(*old(app), *final(app), *old(shown), *final(shown), k, t)),
                    None => effects@.len() == 0 && *final(app) == *old(app) && *final(shown) == *old(shown),
                }
            }
            &&& !starts_recording(e) && old(app).mode == AppMode::Active && !(e.ctrl_down && digit_key(e.vk_code))
                && e.vk_code != VK_TAB ==> {
                let (b, action) = key_effect(
                    old(app).buffer@,
                    old(app).config.filter_digits,
                    old(app).config.filter_urls,
                    e,
                );
                &&& final(app).buffer@ == b
                &&& final(app).mode == old(app).mode
                &&& final(app).context == old(app).context
                &&& final(app).config == old(app).config
                &&& action == BufferAction::UpdatePrediction ==> effects@ == seq![
                    Effect::CancelPrediction,
                    Effect::ShowPrediction,
                ] && final(app).prediction == old(app).prediction && *final(shown) == *old(shown)
                &&& action == BufferAction::ClearPrediction ==> effects@ == seq![
                    Effect::CancelPrediction,
                    Effect::HideOverlay,
                ] && withdrawn(*old(app), *final(app), *old(shown), *final(shown))
                &&& action == BufferAction::NoOp ==> effects@.len() == 0 && final(app).prediction == old(
                    app,
                ).prediction && *final(shown) == *old(shown)
            }
        },
{
    let mut effects: Vec<Effect> = Vec::new();
    match event {
        LoopEvent::PredictionDue => {
            effects.push(Effect::ShowPrediction);
        },
        LoopEvent::Hook(HookCommand::ToggleMode) => {
            let m = app.toggle_mode();
            effects.push(Effect::UpdateTooltip);
            if !m.is_active() {
                effects.push(Effect::CancelPrediction);
                app.clear_buffer();
                app.clear_context();
                withdraw(app, shown);
                effects.push(Effect::HideOverlay);
            }
        },
        LoopEvent::Hook(HookCommand::SelectN(n)) => {
            if let Some(t) = accept_candidate(app, shown, Some(n)) {
                effects.push(Effect::Complete(t));
                effects.push(Effect::HideOverlay);
                effects.push(Effect::SchedulePrediction(NEXT_PREDICTION_DELAY_MS));
            }
        },
        LoopEvent::Hook(HookCommand::Key(e)) => {
            if e.ctrl_down && e.shift_down && e.vk_code == 0x54 {
                effects.push(Effect::StartKeyCapture);
                return effects;
            }
            if !app.get_mode().is_active() {
                return effects;
            }
            let ctrl_digit = e.ctrl_down && e.vk_code >= 0x30 && e.vk_code <= 0x39;
            if ctrl_digit || e.vk_code == VK_TAB {
                let index = if ctrl_digit {
                    if e.vk_code >= 0x31 {
                        Some((e.vk_code - 0x31) as usize)
                    } else {
                        return effects;
                    }
                } else {
                    None
                };
                if let Some(t) = accept_candidate(app, shown, index) {
                    effects.push(Effect::Complete(t));
                    effects.push(Effect::HideOverlay);
                    effects.push(Effect::SchedulePrediction(NEXT_PREDICTION_DELAY_MS));
                }
                return effects;
            }
            let action = process_key_event(&e, app);
            match action {
                BufferAction::UpdatePrediction => {
                    effects.push(Effect::CancelPrediction);
                    effects.push(Effect::ShowPrediction);
                },
                BufferAction::ClearPrediction => {
                    effects.push(Effect::CancelPrediction);
                    withdraw(app, shown);
                    effects.push(Effect::HideOverlay);
                },
                BufferAction::NoOp => {},
            }
        },
    }
    effects
}

} // verus!

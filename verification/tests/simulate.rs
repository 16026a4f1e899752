use easy2type::simulate::{
    backspace_strokes, complete_word, complete_word_with_space, completion_plan, completion_text, encode_utf16,
    settle_delay_ms, text_strokes, KeyStroke,
};

#[test]
fn appends_space_for_continuous_prediction() {
    assert_eq!(completion_text("does", true), "does ");
    assert_eq!(completion_text("does", false), "does");
}

#[test]
fn completion_text_trims_before_the_space() {
    assert_eq!(completion_text("fox  ", true), "fox ");
    assert_eq!(completion_text("fox  ", false), "fox  ");
}

#[test]
fn settle_delay_has_a_floor() {
    assert_eq!(settle_delay_ms(0), 10);
    assert_eq!(settle_delay_ms(3), 10);
    assert_eq!(settle_delay_ms(5), 10);
    assert_eq!(settle_delay_ms(6), 12);
    assert_eq!(settle_delay_ms(40), 80);
}

#[test]
fn utf16_units_of_characters() {
    assert_eq!(encode_utf16('a'), vec![0x61]);
    assert_eq!(encode_utf16('é'), vec![0xE9]);
    assert_eq!(encode_utf16('😀'), vec![0xD83D, 0xDE00]);
    let mut buf = [0u16; 2];
    assert_eq!(encode_utf16('𝄞'), '𝄞'.encode_utf16(&mut buf).to_vec());
}

#[test]
fn strokes_of_a_completion() {
    assert_eq!(
        backspace_strokes(2),
        vec![KeyStroke::BackspaceDown, KeyStroke::BackspaceUp, KeyStroke::BackspaceDown, KeyStroke::BackspaceUp]
    );
    assert_eq!(
        text_strokes("ab"),
        vec![KeyStroke::UnitDown(0x61), KeyStroke::UnitUp(0x61), KeyStroke::UnitDown(0x62), KeyStroke::UnitUp(0x62)]
    );
    let task = complete_word_with_space(3, "does");
    assert_eq!(task.buffer_len, 3);
    assert_eq!(task.correct_word, "does");
    assert!(task.append_space);
    let plan = completion_plan(&task);
    assert_eq!(plan.backspaces.len(), 6);
    assert_eq!(plan.settle_ms, 10);
    assert_eq!(plan.text, text_strokes("does "));
    let plain = complete_word(2, "go");
    assert!(!plain.append_space);
    assert_eq!(completion_plan(&plain).text, text_strokes("go"));
}

use easy2type::next_word::NextWordModel;

#[test]
fn longest_context_has_priority() {
    let model = NextWordModel::from_str("the\tworld\t1000\nwhat does the\tfox\t10\nwhat\tis\t100\n");
    let context: Vec<String> = vec!["what".into(), "does".into(), "the".into()];
    let suggestions = model.suggest(&context, "", 3);
    assert_eq!(suggestions[0].0, "fox");
    assert_eq!(suggestions[1].0, "world");
}

#[test]
fn prefix_filters_contextual_suggestions() {
    let model = NextWordModel::from_str("what\tdoes\t100\nwhat\tis\t90\n");
    let suggestions = model.suggest(&["what".into()], "do", 3);
    assert_eq!(suggestions, vec![("does".into(), 1_000_100)]);
}

#[test]
fn builtin_model_completes_fox_phrase() {
    let model = NextWordModel::load_builtin();
    assert_eq!(model.suggest(&["what".into()], "", 1)[0].0, "does");
    assert_eq!(model.suggest(&["what".into(), "does".into()], "", 1)[0].0, "the");
    assert_eq!(model.suggest(&["what".into(), "does".into(), "the".into()], "", 1)[0].0, "fox");
}

#[test]
fn scores_ties_and_limits() {
    let model = NextWordModel::from_str("a\tzed\t5\na\tbee\t5\na\tcat\t7\nb a\tzed\t1\n");
    let context: Vec<String> = vec!["b".into(), "a".into()];
    let all = model.suggest(&context, "", 10);
    assert_eq!(
        all,
        vec![("zed".to_string(), 2_000_001), ("cat".to_string(), 1_000_007), ("bee".to_string(), 1_000_005)]
    );
    assert_eq!(model.suggest(&context, "", 2).len(), 2);
    assert!(model.suggest(&context, "", 0).is_empty());
    assert!(model.suggest(&[], "", 5).is_empty());
    let only_a: Vec<String> = vec!["a".into()];
    assert_eq!(
        model.suggest(&only_a, "", 5),
        vec![("cat".to_string(), 1_000_007), ("bee".to_string(), 1_000_005), ("zed".to_string(), 1_000_005)]
    );
}

#[test]
fn context_and_words_are_normalized() {
    let model = NextWordModel::from_str("# comment\n  What  Does \t The \t 3\nthank\tyou!\nzero\tword\t0\n");
    let context: Vec<String> = vec!["WHAT".into(), " does ".into()];
    assert_eq!(model.suggest(&context, "", 5), vec![("the".to_string(), 2_000_003)]);
    let thanks: Vec<String> = vec!["Thank".into()];
    assert_eq!(model.suggest(&thanks, "Y", 5), vec![("you".to_string(), 1_000_001)]);
    let zero: Vec<String> = vec!["zero".into()];
    assert!(model.suggest(&zero, "", 5).is_empty());
}

#[test]
fn at_most_four_context_words_count() {
    let model = NextWordModel::from_str("a b c d e\tlong\t1\nb c d e\tfour\t1\n");
    let context: Vec<String> = vec!["a".into(), "b".into(), "c".into(), "d".into(), "e".into()];
    assert_eq!(model.suggest(&context, "", 5), vec![("four".to_string(), 4_000_001)]);
}

#[test]
fn huge_weights_saturate() {
    let model = NextWordModel::from_str("x\tbig\t4294967295\nw x\tsmall\t1\n");
    let context: Vec<String> = vec!["w".into(), "x".into()];
    assert_eq!(
        model.suggest(&context, "", 5),
        vec![("big".to_string(), u32::MAX), ("small".to_string(), 2_000_001)]
    );
}

#![allow(non_snake_case)]

use easy2type::dictionary::{is_supported_dictionary_path, load_dictionary_from_str, parse_dictionary_line, Trie};

#[test]
fn testTrieInsertAndSearch() {
    let mut trie = Trie::new();
    trie.insert("env", 10);
    trie.insert("environment", 100);
    trie.insert("envelope", 50);
    trie.insert("enter", 30);

    let results = trie.search("env");
    assert_eq!(results.len(), 3);
    assert_eq!(results[0].0, "environment");
    assert_eq!(results[1].0, "envelope");
    assert_eq!(trie.best_match("env"), Some("environment".to_string()));
}

#[test]
fn testNoMatch() {
    let trie = Trie::new();
    assert!(trie.search("xyz").is_empty());
    assert_eq!(trie.best_match("xyz"), None);
}

#[test]
fn testExactMatch() {
    let mut trie = Trie::new();
    trie.insert("the", 100);
    let results = trie.search("the");
    assert_eq!(results.len(), 1);
    assert_eq!(results[0].0, "the");
}

#[test]
fn testParseDictionaryLineFormats() {
    assert_eq!(parse_dictionary_line("hello"), Some(("hello".to_string(), 1)));
    assert_eq!(parse_dictionary_line("hello\t42"), Some(("hello".to_string(), 42)));
    assert_eq!(parse_dictionary_line("\"hello\",42"), Some(("hello".to_string(), 42)));
    assert_eq!(parse_dictionary_line("# comment"), None);
    assert_eq!(parse_dictionary_line("word,0"), None);
}

#[test]
fn testSupportedDictionaryPath() {
    assert!(is_supported_dictionary_path("a.txt"));
    assert!(is_supported_dictionary_path("a.tsv"));
    assert!(is_supported_dictionary_path("a.csv"));
    assert!(!is_supported_dictionary_path("a.json"));
}

#[test]
fn testLoadDictionaryFromStr() {
    let trie = load_dictionary_from_str("alpha,5\nbeta\t10\nbad1,100\n");
    assert_eq!(trie.word_count(), 2);
    assert_eq!(trie.best_match("b"), Some("beta".to_string()));
}

#[test]
fn testFuzzyExactMatch() {
    let mut trie = Trie::new();
    trie.insert("environment", 100);
    trie.insert("envelope", 50);
    let results = trie.fuzzy_search("environment", 2);
    assert!(results.iter().any(|(word, _)| word == "environment"));
}

#[test]
fn testFuzzyOneEdit() {
    let mut trie = Trie::new();
    trie.insert("environment", 100);
    trie.insert("entertain", 50);
    let results = trie.fuzzy_search("enviroment", 1);
    assert!(results.iter().any(|(word, _)| word == "environment"));
}

#[test]
fn testFuzzyTwoEdits() {
    let mut trie = Trie::new();
    trie.insert("environment", 100);
    let results = trie.fuzzy_search("enviromant", 2);
    assert!(results.iter().any(|(word, _)| word == "environment"));
}

#[test]
fn testFuzzyTooFar() {
    let mut trie = Trie::new();
    trie.insert("environment", 100);
    assert!(trie.fuzzy_search("xyz", 2).is_empty());
}

#[test]
fn testFuzzyEmptyQuery() {
    let mut trie = Trie::new();
    trie.insert("test", 100);
    assert!(trie.fuzzy_search("", 2).is_empty());
}

#[test]
fn testFuzzyWeightSorting() {
    let mut trie = Trie::new();
    trie.insert("cat", 10);
    trie.insert("car", 100);
    trie.insert("cab", 50);
    let results = trie.fuzzy_search("ca", 2);
    assert_eq!(results[0].0, "car");
    assert_eq!(results[1].0, "cab");
    assert_eq!(results[2].0, "cat");
}

#[test]
fn testFuzzyTypoExtraChar() {
    let mut trie = Trie::new();
    trie.insert("the", 100);
    let results = trie.fuzzy_search("thhe", 1);
    assert!(results.iter().any(|(word, _)| word == "the"));
}

#[test]
fn testFuzzyTypoWrongChar() {
    let mut trie = Trie::new();
    trie.insert("the", 100);
    let results = trie.fuzzy_search("tha", 1);
    assert!(results.iter().any(|(word, _)| word == "the"));
}

#[test]
fn repeated_word_keeps_highest_weight_in_any_order() {
    let mut a = Trie::new();
    a.insert("word", 5);
    a.insert("word", 50);
    let mut b = Trie::new();
    b.insert("word", 50);
    b.insert("word", 5);
    assert_eq!(a.search("word"), vec![("word".to_string(), 50)]);
    assert_eq!(b.search("word"), vec![("word".to_string(), 50)]);
    assert_eq!(a.word_count(), 1);
}

#[test]
fn inserted_word_is_found_under_every_prefix() {
    let mut trie = Trie::new();
    trie.insert("apple", 3);
    trie.insert("apply", 9);
    for prefix in ["", "a", "ap", "app", "appl", "apple"] {
        assert!(trie.search(prefix).iter().any(|(w, weight)| w == "apple" && *weight >= 3));
    }
    assert!(trie.search("apples").is_empty());
    assert_eq!(trie.best_match("app"), Some("apply".to_string()));
}

#[test]
fn fuzzy_distances_are_reported() {
    let mut trie = Trie::new();
    trie.insert("the", 100);
    trie.insert("then", 10);
    let results = trie.fuzzy_search_with_distance("teh", 1);
    assert_eq!(results, vec![("the".to_string(), 100, 1)]);
    let results = trie.fuzzy_search_with_distance("teh", 2);
    assert_eq!(results, vec![("the".to_string(), 100, 1), ("then".to_string(), 10, 2)]);
}

#[test]
fn dictionary_lines_in_detail() {
    assert_eq!(parse_dictionary_line("  Hello  "), Some(("hello".to_string(), 1)));
    assert_eq!(parse_dictionary_line("don't\t7"), Some(("don't".to_string(), 7)));
    assert_eq!(parse_dictionary_line("x,\"12\""), Some(("x".to_string(), 12)));
    assert_eq!(parse_dictionary_line("word,abc"), Some(("word".to_string(), 1)));
    assert_eq!(parse_dictionary_line("two words,3"), None);
    assert_eq!(parse_dictionary_line(""), None);
    assert_eq!(parse_dictionary_line("   "), None);
    assert_eq!(parse_dictionary_line("ÉCOLE,3"), None);
    let trie = load_dictionary_from_str("# header\n\nzeta,4\r\nZeta,9\n");
    assert_eq!(trie.word_count(), 1);
    assert_eq!(trie.search("z"), vec![("zeta".to_string(), 9)]);
}

#[test]
fn supported_paths_ignore_case_and_need_an_extension() {
    assert!(is_supported_dictionary_path("dir/Words.TXT"));
    assert!(!is_supported_dictionary_path("words"));
    assert!(!is_supported_dictionary_path("words.txt.bak"));
}

#[test]
fn entries_are_lower_case_words() {
    assert_eq!(parse_dictionary_line("  Don't-Stop \t 3"), Some(("don't-stop".to_string(), 3)));
    assert_eq!(parse_dictionary_line("ABC,7"), Some(("abc".to_string(), 7)));
    assert_eq!(parse_dictionary_line("abc1,7"), None);
    assert_eq!(parse_dictionary_line("\"\",7"), None);
}

#[test]
fn words_never_hold_upper_case_letters() {
    assert_eq!(parse_dictionary_line("ÉCOLE"), None);
    assert_eq!(parse_dictionary_line("Hello-World"), Some(("hello-world".to_string(), 1)));
}

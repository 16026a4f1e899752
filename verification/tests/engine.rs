use easy2type::config::AppConfig;
use easy2type::dictionary::{load_dictionary_from_str, Trie};
use easy2type::overlay::{color_ref, OverlayTheme};
use easy2type::predictor::Predictor;

fn predictor() -> Predictor {
    let mut trie = Trie::new();
    trie.insert("environment", 100);
    trie.insert("envelope", 50);
    trie.insert("the", 300);
    trie.insert("then", 20);
    Predictor::new(trie)
}

#[test]
fn predictor_prefix_matches() {
    let p = predictor();
    assert_eq!(p.predict("env"), Some("environment".to_string()));
    assert_eq!(p.predict("ENV"), Some("environment".to_string()));
    assert_eq!(p.predict(""), None);
    assert_eq!(p.predict("xyz"), None);
    assert_eq!(p.predict_all("Th"), vec!["the".to_string(), "then".to_string()]);
    assert!(p.predict_all("").is_empty());
}

#[test]
fn predictor_falls_back_to_fuzzy_matches() {
    let p = predictor();
    assert_eq!(p.predict_best("env"), Some(("environment".to_string(), false)));
    assert_eq!(p.predict_best("enviroment"), Some(("environment".to_string(), true)));
    assert_eq!(p.predict_best("thx"), Some(("the".to_string(), true)));
    assert_eq!(p.predict_best("xz"), None);
    assert_eq!(p.predict_best("qqqqqqq"), None);
    assert_eq!(p.predict_best(""), None);
}

#[test]
fn predictor_fuzzy_needs_three_bytes() {
    let p = predictor();
    assert!(p.predict_fuzzy("th", 2).is_empty());
    assert_eq!(p.predict_fuzzy("THE", 1), vec![("the".to_string(), 300), ("then".to_string(), 20)]);
    // Two characters, but three bytes in UTF-8.
    assert_eq!(p.predict_fuzzy("té", 2), vec![("the".to_string(), 300)]);
}

#[test]
fn default_configuration() {
    let cfg = AppConfig::default();
    assert_eq!(cfg.toggle_shortcut, "Ctrl+T");
    assert_eq!(cfg.complete_shortcut, "Tab");
    assert_eq!(cfg.candidate_limit, 4);
    assert_eq!(cfg.modifier_key, "Ctrl");
    assert!(!cfg.filter_digits && !cfg.filter_urls);
    assert_eq!(cfg.dictionary_name, "通用高频词库");
    assert_eq!(cfg.dictionary_path, "assets/words.txt");
    assert_eq!(cfg.overlay_skin_name, "memphis");
    assert_eq!(cfg.custom_skin_path, "");
}

#[test]
fn loaded_configuration_is_brought_within_bounds() {
    let mut cfg = AppConfig::default();
    cfg.candidate_limit = 20;
    cfg.dictionary_path = "  ".to_string();
    cfg.dictionary_name = "".to_string();
    cfg.overlay_skin_name = "dark".to_string();
    cfg.sanitize();
    assert_eq!(cfg.candidate_limit, 9);
    assert_eq!(cfg.dictionary_path, "assets/words.txt");
    assert_eq!(cfg.dictionary_name, "通用高频词库");
    assert_eq!(cfg.overlay_skin_name, "dark");
    cfg.candidate_limit = 0;
    cfg.sanitize();
    assert_eq!(cfg.candidate_limit, 4);
    cfg.candidate_limit = 6;
    cfg.sanitize();
    assert_eq!(cfg.candidate_limit, 6);
}

#[test]
fn themes_from_configuration() {
    let mut cfg = AppConfig::default();
    let memphis = OverlayTheme::from_config(&cfg, None);
    assert_eq!(memphis.name, "memphis");
    assert_eq!(memphis.background, "#F8F9FA");
    assert_eq!(memphis.fontHeight, 20);
    cfg.overlay_skin_name = "  Light ".to_string();
    let light = OverlayTheme::from_config(&cfg, None);
    assert_eq!(light.name, "light");
    assert_eq!(light.accent, "#2563EB");
    assert_eq!(light.fontName, "Segoe UI");
    assert_eq!(light.cornerRadius, 12);
    cfg.overlay_skin_name = "DARK".to_string();
    assert_eq!(OverlayTheme::from_config(&cfg, None).background, "#20242B");
    cfg.overlay_skin_name = "custom".to_string();
    assert!(OverlayTheme::uses_custom_skin(&cfg));
    assert_eq!(OverlayTheme::from_config(&cfg, None).name, "memphis");
    let mut mine = OverlayTheme::default();
    mine.name = "midnight".to_string();
    assert_eq!(OverlayTheme::from_config(&cfg, Some(mine)).name, "midnight");
    cfg.overlay_skin_name = "neon".to_string();
    assert!(!OverlayTheme::uses_custom_skin(&cfg));
    assert_eq!(OverlayTheme::from_config(&cfg, None).name, "memphis");
    assert!(!OverlayTheme::has_custom_skin_path("   "));
    assert!(OverlayTheme::has_custom_skin_path("skin.json"));
}

#[test]
fn colours_are_read_as_bgr() {
    assert_eq!(color_ref("#4D96FF", 0), 0x00FF964D);
    assert_eq!(color_ref("  F8F9FA ", 0), 0x00FAF9F8);
    assert_eq!(color_ref("##112233", 0), 0x00332211);
    assert_eq!(color_ref("#12345", 0x00ABCDEF), 0x00ABCDEF);
    assert_eq!(color_ref("#1234567", 0x00ABCDEF), 0x00ABCDEF);
    // Six bytes that are not hexadecimal: the fallback read as RRGGBB.
    assert_eq!(color_ref("#GGGGGG", 0x00112233), 0x00332211);
    assert_eq!(color_ref("+12345", 0), 0x00452301);
}

#[test]
fn dictionary_text_feeds_the_predictor() {
    let trie = load_dictionary_from_str("hello,100\nhelp\t50\n");
    let p = Predictor::new(trie);
    assert_eq!(p.predict("he"), Some("hello".to_string()));
    assert_eq!(p.predict_all("hel"), vec!["hello".to_string(), "help".to_string()]);
}

#[test]
fn equal_weights_predict_the_alphabetically_first_word() {
    let mut trie = Trie::new();
    trie.insert("envoy", 5);
    trie.insert("envy", 5);
    trie.insert("enviable", 5);
    assert_eq!(trie.best_match("env"), Some("enviable".to_string()));
    let p = Predictor::new(trie);
    assert_eq!(p.predict("ENV"), Some("enviable".to_string()));
    assert_eq!(p.predict("ENV"), p.predict("env"));
    assert_eq!(p.predict_best("envi"), Some(("enviable".to_string(), false)));
}

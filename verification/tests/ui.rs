use easy2type::overlay::{item_layout, word_label, ItemBox};
use easy2type::caret::{caret_from_rect, caret_point_from_native, centered_origin, CaretPos, ScreenRect};
use easy2type::config::AppConfig;
use easy2type::logger::clock_text;
use easy2type::number::decimal_chars;
use easy2type::settings::{
    candidate_limit_from_setting, check_dictionary_file, check_dictionary_text, import_dictionary, check_skin_file, is_skin_file_path,
    ImportError, IMPORTED_DICTIONARY_NAME,
};
use easy2type::state::AppMode;
use easy2type::tray::{click_action, menu_action, tooltip_buffer, tooltip_text, TrayAction, WM_LBUTTONUP, WM_RBUTTONUP};

fn rect(left: i32, top: i32, right: i32, bottom: i32) -> ScreenRect {
    ScreenRect { left, top, right, bottom }
}

#[test]
fn caret_below_the_line() {
    assert_eq!(caret_from_rect(rect(40, 60, 42, 80), false), Some(CaretPos { x: 40, y: 80, is_fallback: false }));
    assert_eq!(caret_from_rect(rect(10, 20, 10, 38), true), Some(CaretPos { x: 10, y: 38, is_fallback: true }));
    assert_eq!(caret_from_rect(rect(10, 20, 9, 38), false), None);
    assert_eq!(caret_from_rect(rect(10, 20, 12, 20), false), None);
}

#[test]
fn native_caret_point() {
    assert_eq!(caret_point_from_native(rect(0, 0, 0, 0)), None);
    assert_eq!(caret_point_from_native(rect(5, 10, 6, 30)), Some((5, 30)));
    assert_eq!(caret_point_from_native(rect(5, 10, 6, 10)), Some((5, 11)));
}

#[test]
fn window_centred_in_work_area() {
    assert_eq!(centered_origin(rect(0, 0, 1920, 1040), 800, 600), (560, 220));
    assert_eq!(centered_origin(rect(100, 50, 500, 450), 800, 600), (100, 50));
    assert_eq!(centered_origin(rect(-1920, 0, 0, 1080), 801, 601), (-1361, 239));
}

#[test]
fn tray_actions() {
    assert_eq!(click_action(WM_LBUTTONUP), Some(TrayAction::ToggleMode));
    assert_eq!(click_action(WM_RBUTTONUP), Some(TrayAction::ShowMenu));
    assert_eq!(click_action(0x0200), None);
    assert_eq!(menu_action(1001), Some(TrayAction::ToggleMode));
    assert_eq!(menu_action(1002), Some(TrayAction::ShowSettings));
    assert_eq!(menu_action(1003), Some(TrayAction::About));
    assert_eq!(menu_action(1004), Some(TrayAction::Exit));
    assert_eq!(menu_action(7), None);
}

#[test]
fn tray_tooltips() {
    assert_eq!(tooltip_text(AppMode::Active), "easy2type: 开启");
    assert_eq!(tooltip_text(AppMode::Invisible), "easy2type: 隐形");
    let b = tooltip_buffer("ab");
    assert_eq!(b.len(), 128);
    assert_eq!(&b[..3], &[0x61, 0x62, 0]);
    let long: String = std::iter::repeat('x').take(200).collect();
    let b = tooltip_buffer(&long);
    assert_eq!(b.len(), 128);
    assert_eq!(b[126], 0x78);
    assert_eq!(b[127], 0);
}

#[test]
fn log_time_stamps() {
    assert_eq!(clock_text(0, 0), "00:00:00.000");
    assert_eq!(clock_text(3600 * 25 + 61, 7), "01:01:01.007");
    assert_eq!(clock_text(86399, 999), "23:59:59.999");
}

#[test]
fn decimal_text() {
    assert_eq!(decimal_chars(0), vec!['0']);
    assert_eq!(decimal_chars(24), vec!['2', '4']);
    assert_eq!(decimal_chars(1_000_100).into_iter().collect::<String>(), "1000100");
}

#[test]
fn settings_rules() {
    assert_eq!(candidate_limit_from_setting(2), 4);
    assert_eq!(candidate_limit_from_setting(7), 7);
    assert_eq!(candidate_limit_from_setting(12), 9);
    assert!(is_skin_file_path("C:/skins/Midnight.JSON"));
    assert!(!is_skin_file_path("skin.json.txt"));
    assert_eq!(check_dictionary_file("words.txt", true), Ok(()));
    assert_eq!(check_dictionary_file("words.txt", false), Err(ImportError::WrongDictionaryType));
    assert_eq!(check_dictionary_file("words.doc", true), Err(ImportError::WrongDictionaryType));
    assert_eq!(check_dictionary_text("hello,3\n"), Ok(()));
    assert_eq!(check_dictionary_text("# nothing\n123\n"), Err(ImportError::EmptyDictionary));
    assert_eq!(check_skin_file("a.json", true), Ok(()));
    assert_eq!(check_skin_file("a.json", false), Err(ImportError::WrongSkinType));
    assert_eq!(ImportError::SaveFailed.message(), "导入失败：无法保存配置文件。");
    let mut cfg = AppConfig::default();
    cfg.use_imported_dictionary("d:/mine.csv");
    assert_eq!(cfg.dictionary_name, IMPORTED_DICTIONARY_NAME);
    assert_eq!(cfg.dictionary_path, "d:/mine.csv");
    cfg.use_custom_skin("d:/skin.json");
    assert_eq!(cfg.overlay_skin_name, "custom");
    assert_eq!(cfg.custom_skin_path, "d:/skin.json");
}

#[test]
fn importing_a_dictionary_switches_only_on_success() {
    let mut cfg = AppConfig::default();
    let before_path = cfg.dictionary_path.clone();
    assert_eq!(import_dictionary(&mut cfg, "words.doc", true, Some("hello")), Err(ImportError::WrongDictionaryType));
    assert_eq!(import_dictionary(&mut cfg, "words.txt", false, Some("hello")), Err(ImportError::WrongDictionaryType));
    assert_eq!(import_dictionary(&mut cfg, "words.txt", true, None), Err(ImportError::UnreadableDictionary));
    assert_eq!(import_dictionary(&mut cfg, "words.txt", true, Some("# none\n123\n")), Err(ImportError::EmptyDictionary));
    assert_eq!(cfg.dictionary_path, before_path);
    assert_eq!(import_dictionary(&mut cfg, "words.csv", true, Some("hello,5\n")), Ok(()));
    assert_eq!(cfg.dictionary_path, "words.csv");
    assert_eq!(cfg.dictionary_name, IMPORTED_DICTIONARY_NAME);
}

#[test]
fn candidates_are_laid_out_left_to_right() {
    let boxes = item_layout(&vec![8, 9], &vec![40, 30]);
    assert_eq!(
        boxes[0],
        ItemBox { separator_x: None, number_x: 12, word_x: 22, highlight_left: 10, highlight_right: 74 }
    );
    // 12 + (8 + 4 + 40 + 8) + 2 = 74; the separator sits at 79 and the item starts at 98.
    assert_eq!(
        boxes[1],
        ItemBox { separator_x: Some(79), number_x: 98, word_x: 109, highlight_left: 96, highlight_right: 151 }
    );
    assert_eq!(word_label("environment", true), "~environment");
    assert_eq!(word_label("hello", false), "hello");
}

#[test]
fn full_paths_from_the_file_dialog_are_accepted_by_extension() {
    assert_eq!(check_dictionary_file("C:\\Users\\me\\Words.TXT", true), Ok(()));
    assert_eq!(check_dictionary_file("C:\\Users\\me\\notes.doc", true), Err(ImportError::WrongDictionaryType));
    let mut cfg = AppConfig::default();
    assert_eq!(import_dictionary(&mut cfg, "D:\\dicts\\mine.tsv", true, Some("hello\t9\n")), Ok(()));
    assert_eq!(cfg.dictionary_path, "D:\\dicts\\mine.tsv");
}

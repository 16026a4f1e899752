//! Rules of the settings panel: the candidate limit, importing a dictionary
//! or a skin, and what the panel reports.

use vstd::prelude::*;
use crate::config::AppConfig;
use crate::dictionary::{load_dictionary_from_str, dictionary_words, is_supported_dictionary_path, is_dictionary_extension, follows_a_dot, simple_name, file_extension, plain_last_part, last_part};
use crate::split::lines;
use crate::text::{str_chars, lower_ascii_seq, lowercase_ascii_chars, chars_equal, copy_range};

verus! {

/// Name the configuration gives an imported dictionary.
pub const IMPORTED_DICTIONARY_NAME: &'static str = "自定义导入词库";

/// The candidate limit a setting asks for, brought into 4..=9.
pub fn candidate_limit_from_setting(limit: i32) -> (n: usize)
    ensures
        n == (if limit < 4 {
            4
        } else if limit > 9 {
            9
        } else {
            limit as int
        }),
{
    if limit < 4 {
        4
    } else if limit > 9 {
        9
    } else {
        limit as usize
    }
}

/// `s` ends with `t`.
pub open spec fn ends_with(s: Seq<char>, t: Seq<char>) -> bool {
    t.len() <= s.len() && s.subrange(s.len() - t.len(), s.len() as int) == t
}

/// A skin file is a `.json` file (the extension in any case).
pub fn is_skin_file_path(path: &str) -> (b: bool)
    ensures
        b == ends_with(lower_ascii_seq(path@), ".json"@),
{
    let lower = lowercase_ascii_chars(&str_chars(path));
    let ext = str_chars(".json");
    if ext.len() > lower.len() {
        return false;
    }
    let tail = copy_range(&lower, lower.len() - ext.len(), lower.len());
    chars_equal(&tail, &ext)
}

/// Why an import failed.
#[derive(Debug, Clone, Copy, PartialEq, Eq, Structural)]
pub enum ImportError {
    /// Not a `.txt`, `.tsv` or `.csv` file.
    WrongDictionaryType,
    /// The dictionary file could not be read.
    UnreadableDictionary,
    /// The dictionary holds no usable English word.
    EmptyDictionary,
    /// Not a `.json` file.
    WrongSkinType,
    /// The skin JSON or one of its values is invalid.
    InvalidSkin,
    /// The configuration could not be saved.
    SaveFailed,
}

/// The status line shown for an import error.
pub open spec fn import_message_spec(e: ImportError) -> Seq<char> {
    match e {
        ImportError::WrongDictionaryType => "导入失败：请选择 .txt、.tsv 或 .csv 词库文件。"@,
        ImportError::UnreadableDictionary => "导入失败：无法读取该词库文件。"@,
        ImportError::EmptyDictionary => "导入失败：文件中没有可用的英文词条。"@,
        ImportError::WrongSkinType => "导入失败：请选择 .json 皮肤文件。"@,
        ImportError::InvalidSkin => "导入失败：皮肤 JSON 格式或字段值无效。"@,
        ImportError::SaveFailed => "导入失败：无法保存配置文件。"@,
    }
}

impl ImportError {
    /// The status line the panel shows.
    pub fn message(self) -> (s: &'static str)
        ensures
            s@ == import_message_spec(self),
    {
        match self {
            ImportError::WrongDictionaryType => "导入失败：请选择 .txt、.tsv 或 .csv 词库文件。",
            ImportError::UnreadableDictionary => "导入失败：无法读取该词库文件。",
            ImportError::EmptyDictionary => "导入失败：文件中没有可用的英文词条。",
            ImportError::WrongSkinType => "导入失败：请选择 .json 皮肤文件。",
            ImportError::InvalidSkin => "导入失败：皮肤 JSON 格式或字段值无效。",
            ImportError::SaveFailed => "导入失败：无法保存配置文件。",
        }
    }
}

/// Status line after a dictionary was imported.
pub const DICTIONARY_IMPORTED: &'static str = "词库导入成功，重启软件后生效。";

/// Status line after a skin was imported.
pub const SKIN_IMPORTED: &'static str = "皮肤导入成功，重启软件后生效。";

/// A chosen dictionary file is accepted only if it is a file with a
/// dictionary extension.
pub fn check_dictionary_file(path: &str, is_file: bool) -> (r: Result<(), ImportError>)
    ensures
        !is_file ==> r == Err::<(), ImportError>(ImportError::WrongDictionaryType),
        r is Ok ==> is_file && exists|e: Seq<char>| #[trigger] is_dictionary_extension(e) && follows_a_dot(path@, e),
        is_file && simple_name(path@) ==> (r is Ok <==> (file_extension(path@) matches Some(e)
            && is_dictionary_extension(e))),
        plain_last_part(path@) ==> (file_extension(last_part(path@)) matches Some(e) ==> (r is Ok <==> is_file
            && is_dictionary_extension(e))),
        r matches Err(e) ==> e == ImportError::WrongDictionaryType,
{
    if !is_file || !is_supported_dictionary_path(path) {
        return Err(ImportError::WrongDictionaryType);
    }
    Ok(())
}

/// A dictionary's text is accepted if at least one of its lines gives a word.
pub fn check_dictionary_text(raw: &str) -> (r: Result<(), ImportError>)
    ensures
        r is Ok <==> dictionary_words(lines(raw@)).len() > 0,
        r matches Err(e) ==> e == ImportError::EmptyDictionary,
{
    let trie = load_dictionary_from_str(raw);
    if trie.word_count() == 0 {
        return Err(ImportError::EmptyDictionary);
    }
    Ok(())
}

/// A chosen skin file is accepted only if it is a `.json` file.
pub fn check_skin_file(path: &str, is_file: bool) -> (r: Result<(), ImportError>)
    ensures
        r is Ok <==> is_file && ends_with(lower_ascii_seq(path@), ".json"@),
        r matches Err(e) ==> e == ImportError::WrongSkinType,
{
    if !is_file || !is_skin_file_path(path) {
        return Err(ImportError::WrongSkinType);
    }
    Ok(())
}

/// Imports a dictionary: the chosen file must be a dictionary file, its text
/// (none where it could not be read) must hold at least one word, and then
/// the configuration switches to it. On an error the configuration stays as
/// it was.
pub fn import_dictionary(cfg: &mut AppConfig, path: &str, is_file: bool, raw: Option<&str>) -> (r: Result<
    (),
    ImportError,
>)
    ensures
        !is_file ==> r == Err::<(), ImportError>(ImportError::WrongDictionaryType),
        r != Err::<(), ImportError>(ImportError::WrongDictionaryType) ==> is_file && exists|e: Seq<char>|
            #[trigger] is_dictionary_extension(e) && follows_a_dot(path@, e),
        is_file && simple_name(path@) ==> (r == Err::<(), ImportError>(ImportError::WrongDictionaryType) <==> !(
        file_extension(path@) matches Some(e) && is_dictionary_extension(e))),
        plain_last_part(path@) ==> (file_extension(last_part(path@)) matches Some(e) ==> (r == Err::<(), ImportError>(
            ImportError::WrongDictionaryType,
        ) <==> !(is_file && is_dictionary_extension(e)))),
        r != Err::<(), ImportError>(ImportError::WrongDictionaryType) ==> match raw {
            None => r == Err::<(), ImportError>(ImportError::UnreadableDictionary),
            Some(t) => if dictionary_words(lines(t@)).len() > 0 {
                r is Ok
            } else {
                r == Err::<(), ImportError>(ImportError::EmptyDictionary)
            },
        },
        r is Ok ==> {
            &&& final(cfg).dictionary_name@ == IMPORTED_DICTIONARY_NAME@
            &&& final(cfg).dictionary_path@ == path@
            &&& *final(cfg) == (AppConfig {
                dictionary_name: final(cfg).dictionary_name,
                dictionary_path: final(cfg).dictionary_path,
                ..*old(cfg)
            })
        },
        r is Err ==> *final(cfg) == *old(cfg),
{
    match check_dictionary_file(path, is_file) {
        Err(e) => return Err(e),
        Ok(()) => {},
    }
    let text = match raw {
        None => return Err(ImportError::UnreadableDictionary),
        Some(t) => t,
    };
    match check_dictionary_text(text) {
        Err(e) => return Err(e),
        Ok(()) => {},
    }
    cfg.use_imported_dictionary(path);
    Ok(())
}

impl AppConfig {
    /// Switches to an imported dictionary file.
    pub fn use_imported_dictionary(&mut self, path: &str)
        ensures
            final(self).dictionary_name@ == IMPORTED_DICTIONARY_NAME@,
            final(self).dictionary_path@ == path@,
            final(self).toggle_shortcut == old(self).toggle_shortcut,
            final(self).complete_shortcut == old(self).complete_shortcut,
            final(self).candidate_limit == old(self).candidate_limit,
            final(self).modifier_key == old(self).modifier_key,
            final(self).filter_digits == old(self).filter_digits,
            final(self).filter_urls == old(self).filter_urls,
            final(self).overlay_skin_name == old(self).overlay_skin_name,
            final(self).custom_skin_path == old(self).custom_skin_path,
    {
        self.dictionary_name = IMPORTED_DICTIONARY_NAME.to_owned();
        self.dictionary_path = path.to_owned();
    }

    /// Switches to an imported custom skin file.
    pub fn use_custom_skin(&mut self, path: &str)
        ensures
            final(self).overlay_skin_name@ == "custom"@,
            final(self).custom_skin_path@ == path@,
            final(self).toggle_shortcut == old(self).toggle_shortcut,
            final(self).complete_shortcut == old(self).complete_shortcut,
            final(self).candidate_limit == old(self).candidate_limit,
            final(self).modifier_key == old(self).modifier_key,
            final(self).filter_digits == old(self).filter_digits,
            final(self).filter_urls == old(self).filter_urls,
            final(self).dictionary_name == old(self).dictionary_name,
            final(self).dictionary_path == old(self).dictionary_path,
    {
        self.overlay_skin_name = "custom".to_owned();
        self.custom_skin_path = path.to_owned();
    }
}

} // verus!

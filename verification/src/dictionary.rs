//! Dictionary files: parsing `word`, `word<TAB>weight` and `word,weight`
//! lines into a weighted trie.

use vstd::prelude::*;
use crate::text::{
    str_chars, chars_to_string, trim, trim_matches, trim_ws, trim_matches_char,
    is_word_char, is_word_character, lower_ascii_seq, is_upper_ascii, lowercase_ascii_chars, chars_equal,
    lowercased, to_lowercase, is_ascii_seq, lemma_trim_ascii, lemma_trim_matches_ascii,
};
use crate::split::{split, split_by, split_lines, lines, eq_char, views, lemma_split_by_nonempty, lemma_split_ascii};
use crate::number::{parse_u32, parse_u32_spec};
use crate::trie::{merged_weight, inserted, law_insert_order_irrelevant};
pub use crate::trie::Trie;

verus! {

/// A field with surrounding white space and quotes removed.
pub open spec fn field_core(f: Seq<char>) -> Seq<char> {
    trim_matches_char(trim_ws(f), '"')
}

/// The fields of a dictionary line: split at tabs when it has one, else at
/// commas.
pub open spec fn line_fields(t: Seq<char>) -> Seq<Seq<char>> {
    if t.contains('\t') {
        split_by(t, eq_char('\t'))
    } else {
        split_by(t, eq_char(','))
    }
}

pub open spec fn all_word_chars(w: Seq<char>) -> bool {
    forall|i: int| 0 <= i < w.len() ==> is_word_char(#[trigger] w[i])
}

/// The weight a line gives: its second field as a number, else 1.
pub open spec fn weight_from_field(f: Option<Seq<char>>) -> u32 {
    match f {
        Some(s) => match parse_u32_spec(field_core(s)) {
            Some(v) => v,
            None => 1,
        },
        None => 1,
    }
}

/// The entry for an already lower-cased word and the line's second field: a
/// non-empty word of letters, `'` and `-`, with a non-zero weight.
pub open spec fn entry_spec(word: Seq<char>, weight_field: Option<Seq<char>>) -> Option<(Seq<char>, u32)> {
    let weight = weight_from_field(weight_field);
    if word.len() == 0 || !all_word_chars(word) || weight == 0 {
        None
    } else {
        Some((word, weight))
    }
}

/// The entry one dictionary line gives: blank lines and `#` comments give
/// none.
pub open spec fn parse_line_spec(line: Seq<char>) -> Option<(Seq<char>, u32)> {
    let t = trim_ws(line);
    if t.len() == 0 || t[0] == '#' {
        None
    } else {
        let parts = line_fields(t);
        entry_spec(
            lowercased(field_core(parts[0])),
            if parts.len() > 1 {
                Some(parts[1])
            } else {
                None
            },
        )
    }
}

/// Every entry is a non-empty word of letters, `'` and `-` with a weight of
/// at least one; the word of an ASCII line is in lower case.
pub proof fn law_entries_are_words(line: Seq<char>)
    ensures
        parse_line_spec(line) matches Some(e) ==> {
            &&& e.1 >= 1
            &&& e.0.len() > 0
            &&& all_word_chars(e.0)
            &&& is_ascii_seq(line) ==> forall|i: int| 0 <= i < e.0.len() ==> !is_upper_ascii(#[trigger] e.0[i])
        },
{
    let t = trim_ws(line);
    if t.len() > 0 && t[0] != '#' && is_ascii_seq(line) {
        lemma_trim_ascii(line);
        let parts = line_fields(t);
        lemma_split_by_nonempty(t, eq_char('\t'));
        lemma_split_by_nonempty(t, eq_char(','));
        lemma_split_ascii(t, eq_char('\t'));
        lemma_split_ascii(t, eq_char(','));
        assert(is_ascii_seq(parts[0]));
        lemma_trim_ascii(parts[0]);
        lemma_trim_matches_ascii(trim_ws(parts[0]), '"');
        let f = field_core(parts[0]);
        assert(lowercased(f) == lower_ascii_seq(f));
    }
}

/// The words and weights that dictionary lines give, a repeated word keeping
/// its largest weight.
pub open spec fn dictionary_words(ls: Seq<Seq<char>>) -> Map<Seq<char>, u32>
    decreases ls.len(),
{
    if ls.len() == 0 {
        Map::empty()
    } else {
        let m = dictionary_words(ls.drop_last());
        match parse_line_spec(ls.last()) {
            Some(e) => m.insert(e.0, merged_weight(m, e.0, e.1)),
            None => m,
        }
    }
}

/// Blank lines and `#` comments add nothing to a dictionary.
pub proof fn law_ignored_lines(ls: Seq<Seq<char>>, line: Seq<char>)
    requires
        trim_ws(line).len() == 0 || trim_ws(line)[0] == '#',
    ensures
        dictionary_words(ls.push(line)) == dictionary_words(ls),
{
    assert(ls.push(line).drop_last() == ls);
}

/// The order of the lines does not matter: swapping two neighbouring lines
/// gives the same words with the same weights.
pub proof fn law_line_order_irrelevant(ls: Seq<Seq<char>>, a: Seq<char>, b: Seq<char>)
    ensures
        dictionary_words(ls.push(a).push(b)) == dictionary_words(ls.push(b).push(a)),
{
    let m = dictionary_words(ls);
    let ab = ls.push(a).push(b);
    let ba = ls.push(b).push(a);
    assert(ab.drop_last() == ls.push(a) && ab.last() == b);
    assert(ba.drop_last() == ls.push(b) && ba.last() == a);
    assert(ls.push(a).drop_last() == ls && ls.push(a).last() == a);
    assert(ls.push(b).drop_last() == ls && ls.push(b).last() == b);
    let ma = dictionary_words(ls.push(a));
    let mb = dictionary_words(ls.push(b));
    match (parse_line_spec(a), parse_line_spec(b)) {
        (Some(ea), Some(eb)) => {
            law_insert_order_irrelevant(m, ea.0, ea.1, eb.0, eb.1);
            assert(ma == inserted(m, ea.0, ea.1));
            assert(mb == inserted(m, eb.0, eb.1));
            assert(dictionary_words(ab) == inserted(ma, eb.0, eb.1));
            assert(dictionary_words(ba) == inserted(mb, ea.0, ea.1));
        },
        (Some(ea), None) => {
            assert(dictionary_words(ab) == ma);
            assert(mb == m);
            assert(dictionary_words(ba) == inserted(mb, ea.0, ea.1));
        },
        (None, Some(eb)) => {
            assert(ma == m);
            assert(dictionary_words(ab) == inserted(ma, eb.0, eb.1));
            assert(dictionary_words(ba) == mb);
        },
        (None, None) => {
            assert(dictionary_words(ab) == ma);
            assert(dictionary_words(ba) == mb);
        },
    }
}

pub open spec fn opt_entry_view(r: Option<(String, u32)>) -> Option<(Seq<char>, u32)> {
    match r {
        Some(e) => Some((e.0@, e.1)),
        None => None,
    }
}

fn contains_char(v: &[char], c: char) -> (b: bool)
    ensures
        b == v@.contains(c),
{
    let mut i: usize = 0;
    while i < v.len()
        invariant
            i <= v.len(),
            forall|k: int| 0 <= k < i ==> v@[k] != c,
        decreases v.len() - i,
    {
        if v[i] == c {
            assert(v@[i as int] == c);
            return true;
        }
        i = i + 1;
    }
    false
}

fn all_word_characters(v: &[char]) -> (b: bool)
    ensures
        b == all_word_chars(v@),
{
    let mut i: usize = 0;
    while i < v.len()
        invariant
            i <= v.len(),
            forall|k: int| 0 <= k < i ==> is_word_char(#[trigger] v@[k]),
        decreases v.len() - i,
    {
        if !is_word_character(v[i]) {
            return false;
        }
        i = i + 1;
    }
    true
}

/// The entry for the lower-cased first field `word` and the optional second
/// field of a dictionary line.
pub fn dictionary_entry(word: &Vec<char>, weight_field: Option<&Vec<char>>) -> (r: Option<(String, u32)>)
    ensures
        opt_entry_view(r) == entry_spec(
            word@,
            match weight_field {
                Some(f) => Some(f@),
                None => None,
            },
        ),
{
    let weight: u32 = match weight_field {
        Some(f) => {
            let core = trim_matches(&trim(f), '"');
            match parse_u32(&core) {
                Some(v) => v,
                None => 1,
            }
        },
        None => 1,
    };
    if word.len() == 0 || !all_word_characters(word) || weight == 0 {
        None
    } else {
        Some((chars_to_string(word), weight))
    }
}

/// `parse_dictionary_line` on the characters of a line.
pub fn parse_line_chars(line: &Vec<char>) -> (r: Option<(String, u32)>)
    ensures
        opt_entry_view(r) == parse_line_spec(line@),
        r matches Some(e) ==> forall|i: int| 0 <= i < e.0@.len() ==> !is_upper_ascii(#[trigger] e.0@[i]),
{
    let t = trim(line);
    if t.len() == 0 || t[0] == '#' {
        return None;
    }
    let parts = if contains_char(&t, '\t') {
        split(&t, '\t', false)
    } else {
        split(&t, ',', false)
    };
    proof {
        let p = if t@.contains('\t') {
            eq_char('\t')
        } else {
            eq_char(',')
        };
        lemma_split_by_nonempty(t@, p);
        assert(views(parts@) == line_fields(t@));
        assert(views(parts@)[0] == parts@[0]@);
    }
    let first = trim_matches(&trim(&parts[0]), '"');
    let word = to_lowercase(&first);
    if parts.len() > 1 {
        assert(views(parts@)[1] == parts@[1]@);
        dictionary_entry(&word, Some(&parts[1]))
    } else {
        dictionary_entry(&word, None)
    }
}

/// Parses one dictionary line: `word`, `word<TAB>weight` or `word,weight`.
/// The word is trimmed, unquoted and lower-cased and must consist of ASCII
/// letters, `'` and `-`; a missing or unreadable weight counts as 1, and a
/// weight of 0 rejects the line. Blank lines and `#` comments give nothing.
pub fn parse_dictionary_line(line: &str) -> (r: Option<(String, u32)>)
    ensures
        opt_entry_view(r) == parse_line_spec(line@),
        r matches Some(e) ==> forall|i: int| 0 <= i < e.0@.len() ==> !is_upper_ascii(#[trigger] e.0@[i]),
{
    let chars = str_chars(line);
    parse_line_chars(&chars)
}

/// A trie holding the entries of every line of `raw`.
pub fn load_dictionary_from_str(raw: &str) -> (t: Trie)
    ensures
        t.wf(),
        t@ == dictionary_words(lines(raw@)),
{
    let chars = str_chars(raw);
    let ls = split_lines(&chars);
    let mut trie = Trie::new();
    let mut k: usize = 0;
    while k < ls.len()
        invariant
            trie.wf(),
            k <= ls@.len(),
            views(ls@) == lines(raw@),
            trie@ == dictionary_words(views(ls@).take(k as int)),
        decreases ls@.len() - k,
    {
        let entry = parse_line_chars(&ls[k]);
        assert(views(ls@).take(k + 1).drop_last() == views(ls@).take(k as int));
        assert(views(ls@)[k as int] == ls@[k as int]@);
        match entry {
            Some((word, weight)) => {
                let wc = str_chars(word.as_str());
                trie.insert_chars(&wc, weight);
            },
            None => {},
        }
        k = k + 1;
    }
    assert(views(ls@).take(k as int) == views(ls@));
    trie
}

/// `e` stands in `path` right after a `.`.
pub open spec fn follows_a_dot(path: Seq<char>, e: Seq<char>) -> bool {
    exists|i: int| 0 <= i && i + 1 + e.len() <= path.len() && path[i] == '.' && path.subrange(i + 1, i + 1 + e.len()) == e
}

/// A path that is a plain file name on every platform: no separator (`/`
/// or `\\`), no drive or prefix mark (`:`), and not `..`. Such a path is
/// its own single component.
pub open spec fn simple_name(path: Seq<char>) -> bool {
    !path.contains('/') && !path.contains('\\') && !path.contains(':') && path != seq!['.', '.']
}

/// A path separator on Windows: `/` or `\\` (on Unix only `/` is one).
pub open spec fn is_path_separator(c: char) -> bool {
    c == '/' || c == '\\'
}

/// What follows the last `/` or `\\` of a path; the whole path where it has
/// neither.
pub open spec fn last_part(path: Seq<char>) -> Seq<char>
    decreases path.len(),
{
    if path.len() == 0 {
        path
    } else if is_path_separator(path.last()) {
        Seq::<char>::empty()
    } else {
        last_part(path.drop_last()).push(path.last())
    }
}

/// The part after the last separator is read as the path's file name on
/// every platform, wherever it has an extension: it holds no `:` (no drive
/// mark), it is not `..`, and the path does not start with two separators
/// (as Windows' `\\server\share`, `\\?\` and `\\.\` prefixes do, which
/// may take that part in).
pub open spec fn plain_last_part(path: Seq<char>) -> bool {
    let name = last_part(path);
    &&& !name.contains(':')
    &&& name != seq!['.', '.']
    &&& !(path.len() >= 2 && is_path_separator(path[0]) && is_path_separator(path[1]))
}

/// The extension of a file name: what follows its last `.`, where that `.`
/// is not the name's first character; none otherwise.
pub open spec fn file_extension(name: Seq<char>) -> Option<Seq<char>>
    decreases name.len(),
{
    if name.len() <= 1 {
        None
    } else if name.last() == '.' {
        Some(Seq::<char>::empty())
    } else {
        match file_extension(name.drop_last()) {
            Some(e) => Some(e.push(name.last())),
            None => None,
        }
    }
}

/// `Path::extension`: the part of the file name (the path's last component)
/// after its last `.`, when the name has one that does not start it; none
/// for a path without a file name (such as `..`). Which component is last
/// depends on the platform's path separators, so for every path only this is
/// stated: the extension holds no `.` and stands in the path right after a
/// `.`. For a plain file name (`simple_name`), which is its own last
/// component everywhere, the extension is stated exactly. For a longer path
/// whose part after the last separator is read as its file name everywhere
/// (`plain_last_part`) and has an extension, the result is that extension:
/// on Windows that part is the file name; on Unix, where `\\` is no
/// separator, the file name may also hold what stands before a `\\`, but
/// its last `.` is then the one in that part, and something stands before it.
#[verifier::external_body]
fn path_extension(path: &str) -> (r: Option<String>)
    ensures
        r matches Some(e) ==> !e@.contains('.') && follows_a_dot(path@, e@),
        simple_name(path@) ==> match r {
            Some(e) => file_extension(path@) == Some(e@),
            None => file_extension(path@) is None,
        },
        plain_last_part(path@) && file_extension(last_part(path@)) is Some ==> match r {
            Some(e) => file_extension(last_part(path@)) == Some(e@),
            None => false,
        },
{
    std::path::Path::new(path).extension().and_then(|e| e.to_str()).map(|e| e.to_string())
}

pub open spec fn is_dictionary_extension(e: Seq<char>) -> bool {
    let l = lower_ascii_seq(e);
    l == seq!['t', 'x', 't'] || l == seq!['t', 's', 'v'] || l == seq!['c', 's', 'v']
}

/// Whether a file extension (case-insensitive) is `txt`, `tsv` or `csv`.
pub fn is_supported_extension(ext: Option<&str>) -> (b: bool)
    ensures
        b == match ext {
            Some(e) => is_dictionary_extension(e@),
            None => false,
        },
{
    match ext {
        None => false,
        Some(e) => {
            let l = lowercase_ascii_chars(&str_chars(e));
            let txt = ['t', 'x', 't'];
            let tsv = ['t', 's', 'v'];
            let csv = ['c', 's', 'v'];
            assert(txt@ == seq!['t', 'x', 't']);
            assert(tsv@ == seq!['t', 's', 'v']);
            assert(csv@ == seq!['c', 's', 'v']);
            chars_equal(&l, &txt) || chars_equal(&l, &tsv) || chars_equal(&l, &csv)
        },
    }
}

/// Whether `path` names a dictionary file by its extension (`.txt`, `.tsv` or
/// `.csv`, in any case). The extension comes from `Path::extension`, whose
/// answer depends on the platform; `is_supported_extension` decides on it.
pub fn is_supported_dictionary_path(path: &str) -> (b: bool)
    ensures
        b ==> exists|e: Seq<char>| #[trigger] is_dictionary_extension(e) && follows_a_dot(path@, e),
        simple_name(path@) ==> b == (file_extension(path@) matches Some(e) && is_dictionary_extension(e)),
        plain_last_part(path@) ==> (file_extension(last_part(path@)) matches Some(e) ==> b == is_dictionary_extension(e)),
{
    let ext = path_extension(path);
    match ext {
        Some(e) => {
            let r = is_supported_extension(Some(e.as_str()));
            r
        },
        None => false,
    }
}

} // verus!

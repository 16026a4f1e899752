//! Splitting text into lines and fields, and joining words back together.

use vstd::prelude::*;
use crate::text::{copy_range, is_white_space, is_whitespace, is_ascii_seq};

verus! {

/// The predicate "is the character `c`".
pub open spec fn eq_char(c: char) -> spec_fn(char) -> bool {
    |x: char| x == c
}

/// The predicate "is Unicode white space".
pub open spec fn ws_pred() -> spec_fn(char) -> bool {
    |x: char| is_white_space(x)
}

/// Index of the first character of `s` that satisfies `p`.
pub open spec fn find_first(s: Seq<char>, p: spec_fn(char) -> bool) -> Option<int>
    decreases s.len(),
{
    if s.len() == 0 {
        None
    } else if p(s[0]) {
        Some(0)
    } else {
        match find_first(s.drop_first(), p) {
            Some(i) => Some(i + 1),
            None => None,
        }
    }
}

pub proof fn lemma_find_first(s: Seq<char>, p: spec_fn(char) -> bool)
    ensures
        match find_first(s, p) {
            Some(i) => 0 <= i < s.len() && p(s[i]) && forall|k: int| 0 <= k < i ==> !p(s[k]),
            None => forall|k: int| 0 <= k < s.len() ==> !p(s[k]),
        },
    decreases s.len(),
{
    if s.len() > 0 && !p(s[0]) {
        lemma_find_first(s.drop_first(), p);
        assert forall|k: int| 1 <= k < s.len() implies s[k] == s.drop_first()[k - 1] by {}
    }
}

/// `find_first` is the first index that satisfies `p`.
pub proof fn lemma_find_first_at(s: Seq<char>, p: spec_fn(char) -> bool, i: int)
    requires
        0 <= i < s.len(),
        p(s[i]),
        forall|k: int| 0 <= k < i ==> !p(s[k]),
    ensures
        find_first(s, p) == Some(i),
{
    lemma_find_first(s, p);
    match find_first(s, p) {
        Some(j) => {
            if j < i {
                assert(!p(s[j]));
            }
            if i < j {
                assert(!p(s[i]));
            }
        },
        None => {
            assert(!p(s[i]));
        },
    }
}

/// `str::split` with a character predicate: the pieces between the matches,
/// empty pieces included.
pub open spec fn split_by(s: Seq<char>, p: spec_fn(char) -> bool) -> Seq<Seq<char>>
    decreases s.len(),
{
    match find_first(s, p) {
        Some(i) => {
            if 0 <= i < s.len() {
                seq![s.take(i)] + split_by(s.skip(i + 1), p)
            } else {
                seq![s]
            }
        },
        None => seq![s],
    }
}

pub proof fn lemma_split_by_nonempty(s: Seq<char>, p: spec_fn(char) -> bool)
    ensures
        split_by(s, p).len() >= 1,
        split_by(s, p)[0] == match find_first(s, p) {
            Some(i) => s.take(i),
            None => s,
        },
{
    lemma_find_first(s, p);
}

/// The pieces of ASCII text are ASCII.
pub proof fn lemma_split_ascii(s: Seq<char>, p: spec_fn(char) -> bool)
    requires
        is_ascii_seq(s),
    ensures
        forall|k: int| 0 <= k < split_by(s, p).len() ==> is_ascii_seq(#[trigger] split_by(s, p)[k]),
    decreases s.len(),
{
    lemma_find_first(s, p);
    match find_first(s, p) {
        Some(i) => {
            let rest = s.skip(i + 1);
            assert forall|j: int| 0 <= j < rest.len() implies (#[trigger] rest[j] as u32) < 0x80 by {
                assert(rest[j] == s[i + 1 + j]);
            }
            lemma_split_ascii(rest, p);
            let pieces = split_by(s, p);
            assert forall|k: int| 0 <= k < pieces.len() implies is_ascii_seq(#[trigger] pieces[k]) by {
                if k == 0 {
                    assert(pieces[0] == s.take(i));
                    assert forall|j: int| 0 <= j < s.take(i).len() implies (#[trigger] s.take(i)[j] as u32) < 0x80 by {
                        assert(s.take(i)[j] == s[j]);
                    }
                } else {
                    assert(pieces[k] == split_by(rest, p)[k - 1]);
                }
            }
        },
        None => {},
    }
}

/// Text with no `c` before the first `c` splits there.
pub proof fn lemma_split_at_first(a: Seq<char>, c: char, r: Seq<char>)
    requires
        !a.contains(c),
    ensures
        split_by(a + seq![c] + r, eq_char(c)) == seq![a] + split_by(r, eq_char(c)),
{
    let s = a + seq![c] + r;
    assert forall|k: int| 0 <= k < a.len() implies !(eq_char(c))(s[k]) by {
        assert(s[k] == a[k]);
        if s[k] == c {
            assert(a.contains(c));
        }
    }
    assert(s[a.len() as int] == c);
    lemma_find_first_at(s, eq_char(c), a.len() as int);
    assert(s.take(a.len() as int) == a);
    assert(s.skip(a.len() + 1int) == r);
}

/// Text without `c` is one piece.
pub proof fn lemma_split_whole(a: Seq<char>, c: char)
    requires
        !a.contains(c),
    ensures
        split_by(a, eq_char(c)) == seq![a],
{
    lemma_find_first(a, eq_char(c));
    if let Some(i) = find_first(a, eq_char(c)) {
        assert(a[i] == c);
    }
}

/// `str::lines`: pieces ending at each `\n`; a `\r` just before a `\n` is
/// dropped, and a final line ending adds no empty line.
pub open spec fn lines_from(s: Seq<char>, cur: Seq<char>) -> Seq<Seq<char>>
    decreases s.len(),
{
    if s.len() == 0 {
        if cur.len() == 0 {
            seq![]
        } else {
            seq![cur]
        }
    } else if s[0] == '\n' {
        seq![drop_cr(cur)] + lines_from(s.drop_first(), seq![])
    } else {
        lines_from(s.drop_first(), cur.push(s[0]))
    }
}

pub open spec fn drop_cr(line: Seq<char>) -> Seq<char> {
    if line.len() > 0 && line.last() == '\r' {
        line.drop_last()
    } else {
        line
    }
}

pub open spec fn lines(s: Seq<char>) -> Seq<Seq<char>> {
    lines_from(s, seq![])
}

proof fn lemma_final_line_ending(s: Seq<char>, cur: Seq<char>)
    requires
        (cur + s).len() > 0,
        (cur + s).last() != '\n',
        (cur + s).last() != '\r',
    ensures
        lines_from(s.push('\n'), cur) == lines_from(s, cur),
    decreases s.len(),
{
    if s.len() == 0 {
        assert(cur + s =~= cur);
        let t = s.push('\n');
        assert(t.drop_first() =~= Seq::<char>::empty());
        assert(t[0] == '\n');
        assert(drop_cr(cur) == cur);
        assert(lines_from(t.drop_first(), seq![]) == Seq::<Seq<char>>::empty());
        assert(lines_from(t, cur) == seq![drop_cr(cur)] + lines_from(t.drop_first(), seq![]));
        assert(seq![cur] + Seq::<Seq<char>>::empty() =~= seq![cur]);
    } else {
        assert(s.push('\n').drop_first() =~= s.drop_first().push('\n'));
        assert(s.push('\n')[0] == s[0]);
        if s[0] == '\n' {
            assert(s.len() >= 2) by {
                assert((cur + s).last() == s.last());
                if s.len() == 1 {
                    assert(s.last() == s[0]);
                }
            }
            assert(Seq::<char>::empty() + s.drop_first() =~= s.drop_first());
            assert(s.drop_first().last() == s.last());
            assert((cur + s).last() == s.last());
            lemma_final_line_ending(s.drop_first(), seq![]);
        } else {
            assert(cur.push(s[0]) + s.drop_first() =~= cur + s);
            lemma_final_line_ending(s.drop_first(), cur.push(s[0]));
        }
    }
}

/// A final line needs no line ending: a text whose last character ends no
/// line has the same lines with a `\n` added after it, so the last line of a
/// file without a final newline still counts. And a text with no `\n` at
/// all, and no `\r` at its end, is one line.
pub proof fn law_final_line_counts(s: Seq<char>)
    ensures
        s.len() > 0 && s.last() != '\n' && s.last() != '\r' ==> lines(s.push('\n')) == lines(s),
        s.len() > 0 && !s.contains('\n') && s.last() != '\r' ==> lines(s) == seq![s],
{
    if s.len() > 0 && s.last() != '\n' && s.last() != '\r' {
        assert(Seq::<char>::empty() + s =~= s);
        lemma_final_line_ending(s, seq![]);
    }
    if s.len() > 0 && !s.contains('\n') && s.last() != '\r' {
        lemma_one_line(s, seq![]);
        assert(Seq::<char>::empty() + s =~= s);
    }
}

proof fn lemma_one_line(s: Seq<char>, cur: Seq<char>)
    requires
        !s.contains('\n'),
        (cur + s).len() > 0,
    ensures
        lines_from(s, cur) == seq![cur + s],
    decreases s.len(),
{
    if s.len() == 0 {
        assert(cur + s =~= cur);
    } else {
        assert(s[0] != '\n') by {
            if s[0] == '\n' {
                assert(s.contains('\n'));
            }
        }
        assert(!s.drop_first().contains('\n')) by {
            if s.drop_first().contains('\n') {
                let j = choose|j: int| 0 <= j < s.drop_first().len() && s.drop_first()[j] == '\n';
                assert(s[j + 1] == '\n');
            }
        }
        assert(cur.push(s[0]) + s.drop_first() =~= cur + s);
        lemma_one_line(s.drop_first(), cur.push(s[0]));
    }
}

/// Words joined with single spaces.
pub open spec fn join_space(words: Seq<Seq<char>>) -> Seq<char>
    decreases words.len(),
{
    if words.len() == 0 {
        seq![]
    } else if words.len() == 1 {
        words[0]
    } else {
        join_space(words.drop_last()) + seq![' '] + words.last()
    }
}

pub open spec fn views(v: Seq<Vec<char>>) -> Seq<Seq<char>> {
    v.map_values(|x: Vec<char>| x@)
}

/// Position of the first character of `v[lo..]` that satisfies `pred`, where
/// `pred` is the character `sep` when `by_ws` is false and white space otherwise.
fn find_from(v: &[char], lo: usize, sep: char, by_ws: bool) -> (r: Option<usize>)
    requires
        lo <= v.len(),
    ensures
        ({
            let p = if by_ws {
                ws_pred()
            } else {
                eq_char(sep)
            };
            match r {
                Some(k) => lo <= k < v.len() && find_first(v@.skip(lo as int), p) == Some(
                    k - lo,
                ),
                None => find_first(v@.skip(lo as int), p) is None,
            }
        }),
{
    let ghost p = if by_ws {
        ws_pred()
    } else {
        eq_char(sep)
    };
    let mut i = lo;
    while i < v.len()
        invariant
            lo <= i <= v.len(),
            p == (if by_ws {
                ws_pred()
            } else {
                eq_char(sep)
            }),
            forall|k: int| lo <= k < i ==> !p(v@[k]),
        decreases v.len() - i,
    {
        let hit = if by_ws {
            is_whitespace(v[i])
        } else {
            v[i] == sep
        };
        if hit {
            proof {
                let s = v@.skip(lo as int);
                assert forall|k: int| 0 <= k < i - lo implies !p(s[k]) by {
                    assert(s[k] == v@[lo + k]);
                }
                lemma_find_first_at(s, p, i - lo);
            }
            return Some(i);
        }
        i = i + 1;
    }
    proof {
        let s = v@.skip(lo as int);
        lemma_find_first(s, p);
        if let Some(j) = find_first(s, p) {
            assert(s[j] == v@[lo + j]);
        }
    }
    None
}

/// `str::split` on the character `sep` (`by_ws` false) or on white space
/// (`by_ws` true).
pub fn split(v: &[char], sep: char, by_ws: bool) -> (out: Vec<Vec<char>>)
    ensures
        views(out@) == split_by(
            v@,
            if by_ws {
                ws_pred()
            } else {
                eq_char(sep)
            },
        ),
{
    let ghost p = if by_ws {
        ws_pred()
    } else {
        eq_char(sep)
    };
    let mut out: Vec<Vec<char>> = Vec::new();
    let mut pos: usize = 0;
    assert(v@.skip(0) == v@);
    loop
        invariant
            pos <= v.len(),
            p == (if by_ws {
                ws_pred()
            } else {
                eq_char(sep)
            }),
            views(out@) + split_by(v@.skip(pos as int), p) == split_by(v@, p),
        decreases v.len() - pos,
    {
        let found = find_from(v, pos, sep, by_ws);
        match found {
            Some(k) => {
                let piece = copy_range(v, pos, k);
                proof {
                    let s = v@.skip(pos as int);
                    assert(s.take(k - pos) == v@.subrange(pos as int, k as int));
                    assert(s.skip(k - pos + 1) == v@.skip(k + 1));
                    assert(views(out@.push(piece)) == views(out@).push(piece@));
                }
                out.push(piece);
                pos = k + 1;
            },
            None => {
                let piece = copy_range(v, pos, v.len());
                proof {
                    assert(v@.skip(pos as int) == v@.subrange(pos as int, v.len() as int));
                    assert(views(out@.push(piece)) == views(out@).push(piece@));
                }
                out.push(piece);
                return out;
            },
        }
    }
}

/// `str::lines`.
pub fn split_lines(v: &[char]) -> (out: Vec<Vec<char>>)
    ensures
        views(out@) == lines(v@),
{
    let mut out: Vec<Vec<char>> = Vec::new();
    let mut cur: Vec<char> = Vec::new();
    let mut i: usize = 0;
    assert(v@.skip(0) == v@);
    while i < v.len()
        invariant
            i <= v.len(),
            views(out@) + lines_from(v@.skip(i as int), cur@) == lines(v@),
        decreases v.len() - i,
    {
        let c = v[i];
        assert(v@.skip(i as int).drop_first() == v@.skip(i + 1));
        if c == '\n' {
            let mut line = cur;
            if line.len() > 0 && line[line.len() - 1] == '\r' {
                line.pop();
            }
            assert(views(out@.push(line)) == views(out@).push(line@));
            out.push(line);
            cur = Vec::new();
        } else {
            cur.push(c);
        }
        i = i + 1;
    }
    if cur.len() > 0 {
        assert(views(out@.push(cur)) == views(out@).push(cur@));
        out.push(cur);
    }
    out
}

/// Words joined with single spaces.
pub fn join_with_space(words: &Vec<Vec<char>>) -> (r: Vec<char>)
    ensures
        r@ == join_space(views(words@)),
{
    let mut r: Vec<char> = Vec::new();
    let mut i: usize = 0;
    while i < words.len()
        invariant
            i <= words.len(),
            r@ == join_space(views(words@).take(i as int)),
        decreases words.len() - i,
    {
        let ghost before = views(words@).take(i as int);
        if i > 0 {
            r.push(' ');
        }
        let w = &words[i];
        let mut k: usize = 0;
        let ghost base = r@;
        while k < w.len()
            invariant
                k <= w.len(),
                r@ == base + w@.take(k as int),
            decreases w.len() - k,
        {
            r.push(w[k]);
            k = k + 1;
            assert(w@.take(k as int) == w@.take(k - 1).push(w@[k - 1]));
        }
        assert(w@.take(k as int) == w@);
        i = i + 1;
        assert(views(words@).take(i as int).drop_last() == before);
    }
    assert(views(words@).take(i as int) == views(words@));
    r
}

} // verus!

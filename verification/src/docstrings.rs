//! Dropping documentation strings.
//!
//! A string in triple quotes is documentation unless the text before it on
//! its line shows that its value is used: an assignment, an import, a
//! decorator, or the `f` of a formatted string directly before the quotes.
//! Three quote characters open a string only where no fourth follows.
//! A string that is never closed is ordinary text.

use crate::comments::{is_quote, is_triple};
use crate::imports::{kw_from, kw_import, word_from, word_import};
use crate::text::{
    after_blanks, copy_range, has_at, is_blank, is_name_char, is_name_start, name_char, name_start,
    occurs_at, push_range, skip_blanks, to_chars, to_string,
};
use vstd::prelude::*;

verus! {

/// The index at which the line that holds index `i` starts.
pub open spec fn line_start(s: Seq<char>, i: int) -> int
    decreases i,
{
    if i <= 0 || i > s.len() {
        0
    } else if s[i - 1] == '\n' {
        i
    } else {
        line_start(s, i - 1)
    }
}

/// What [`line_start`] returns lies between the start and `i`.
pub proof fn lemma_line_start(s: Seq<char>, i: int)
    requires
        0 <= i <= s.len(),
    ensures
        0 <= line_start(s, i) <= i,
    decreases i,
{
    if i > 0 && s[i - 1] != '\n' {
        lemma_line_start(s, i - 1);
    }
}

/// Executable form of [`line_start`].
pub fn find_line_start(s: &[char], i: usize) -> (b: usize)
    requires
        i <= s.len(),
    ensures
        b == line_start(s@, i as int),
        b <= i,
{
    let mut b: usize = i;
    while b > 0 && s[b - 1] != '\n'
        invariant
            b <= i <= s.len(),
            line_start(s@, b as int) == line_start(s@, i as int),
        decreases b,
    {
        b -= 1;
    }
    b
}

/// Whether a string in triple quotes opens at index `i`: three of one quote
/// character stand there, and no fourth follows.
pub open spec fn opens_triple(s: Seq<char>, i: int) -> bool {
    0 <= i < s.len() && is_quote(s[i]) && is_triple(s, i, s[i]) && !(i + 3 < s.len() && s[i + 3]
        == s[i])
}

/// The first index at or after `j` at which three of `q` stand, or `-1`.
pub open spec fn find_close(s: Seq<char>, j: int, q: char) -> int
    decreases s.len() - j,
{
    if j < 0 || j >= s.len() {
        -1
    } else if is_triple(s, j, q) {
        j
    } else {
        find_close(s, j + 1, q)
    }
}

/// What [`find_close`] returns is `-1` or an index from `j` on at which three
/// quote characters stand.
pub proof fn lemma_find_close(s: Seq<char>, j: int, q: char)
    requires
        0 <= j <= s.len(),
    ensures
        find_close(s, j, q) == -1 || (j <= find_close(s, j, q) && find_close(s, j, q) + 3
            <= s.len()),
    decreases s.len() - j,
{
    if j < s.len() && !is_triple(s, j, q) {
        lemma_find_close(s, j + 1, q);
    }
}

/// Executable form of [`find_close`].
pub fn seek_close(s: &[char], j: usize, q: char) -> (r: Option<usize>)
    requires
        j <= s.len(),
    ensures
        match r {
            Some(c) => c as int == find_close(s@, j as int, q) && j <= c && c + 3 <= s.len(),
            None => find_close(s@, j as int, q) == -1,
        },
{
    let mut c: usize = j;
    while c < s.len()
        invariant
            j <= c <= s.len(),
            find_close(s@, c as int, q) == find_close(s@, j as int, q),
        decreases s.len() - c,
    {
        if s.len() - c > 2 && s[c] == q && s[c + 1] == q && s[c + 2] == q {
            return Some(c);
        }
        c += 1;
    }
    None
}

/// The first index at or after `i` that holds no name character, or the
/// length of `s`.
pub open spec fn name_end(s: Seq<char>, i: int) -> int
    decreases s.len() - i,
{
    if i < 0 || i >= s.len() {
        s.len() as int
    } else if is_name_char(s[i]) {
        name_end(s, i + 1)
    } else {
        i
    }
}

/// What [`name_end`] returns lies between `i` and the end.
pub proof fn lemma_name_end(s: Seq<char>, i: int)
    requires
        0 <= i <= s.len(),
    ensures
        i <= name_end(s, i) <= s.len(),
    decreases s.len() - i,
{
    if i < s.len() && is_name_char(s[i]) {
        lemma_name_end(s, i + 1);
    }
}

/// Executable form of [`name_end`].
pub fn find_name_end(s: &[char], i: usize) -> (e: usize)
    requires
        i <= s.len(),
    ensures
        e == name_end(s@, i as int),
        i <= e <= s.len(),
{
    let mut e: usize = i;
    while e < s.len() && name_char(s[e])
        invariant
            i <= e <= s.len(),
            name_end(s@, e as int) == name_end(s@, i as int),
        decreases s.len() - e,
    {
        e += 1;
    }
    e
}

/// Where the dotted name that starts at index `i` ends: names joined by
/// single dots, each starting with a letter or an underscore.
pub open spec fn dotted_end(s: Seq<char>, i: int) -> int
    decreases s.len() - i,
{
    if i < 0 || i >= s.len() {
        s.len() as int
    } else {
        proof {
            lemma_name_end(s, i);
        }
        if name_end(s, i) + 1 < s.len() && s[name_end(s, i)] == '.' && is_name_start(
            s[name_end(s, i) + 1],
        ) {
            dotted_end(s, name_end(s, i) + 1)
        } else {
            name_end(s, i)
        }
    }
}

/// What [`dotted_end`] returns lies between `i` and the end.
pub proof fn lemma_dotted_end(s: Seq<char>, i: int)
    requires
        0 <= i <= s.len(),
    ensures
        i <= dotted_end(s, i) <= s.len(),
    decreases s.len() - i,
{
    if i < s.len() {
        lemma_name_end(s, i);
        let e = name_end(s, i);
        if e + 1 < s.len() && s[e] == '.' && is_name_start(s[e + 1]) {
            lemma_dotted_end(s, e + 1);
        }
    }
}

/// Executable form of [`dotted_end`].
pub fn find_dotted_end(s: &[char], i: usize) -> (e: usize)
    requires
        i <= s.len(),
    ensures
        e == dotted_end(s@, i as int),
        i <= e <= s.len(),
{
    let mut at: usize = i;
    loop
        invariant
            i <= at <= s.len(),
            dotted_end(s@, at as int) == dotted_end(s@, i as int),
        decreases s.len() - at,
    {
        if at >= s.len() {
            return at;
        }
        let e = find_name_end(s, at);
        if e < s.len() && s.len() - e > 1 && s[e] == '.' && name_start(s[e + 1]) {
            at = e + 1;
        } else {
            return e;
        }
    }
}

/// Whether `pre` starts an assignment: blanks, a dotted name, blanks and an
/// equals sign.
pub open spec fn starts_assignment(pre: Seq<char>) -> bool {
    let a = skip_blanks(pre, 0);
    let b = skip_blanks(pre, dotted_end(pre, a));
    a < pre.len() && is_name_start(pre[a]) && b < pre.len() && pre[b] == '='
}

/// Whether `pre` starts an import statement: blanks, then `import` or `from`
/// and a blank.
pub open spec fn starts_import(pre: Seq<char>) -> bool {
    let a = skip_blanks(pre, 0);
    ||| occurs_at(pre, a, kw_import()) && a + 6 < pre.len() && is_blank(pre[a + 6])
    ||| occurs_at(pre, a, kw_from()) && a + 4 < pre.len() && is_blank(pre[a + 4])
}

/// Whether `pre` starts a decorator: blanks and an `@`.
pub open spec fn starts_decorator(pre: Seq<char>) -> bool {
    let a = skip_blanks(pre, 0);
    a < pre.len() && pre[a] == '@'
}

/// Whether the string that opens at index `i` is a formatted string: an `f`
/// stands directly before the quotes, or before an `r` that does.
pub open spec fn is_formatted(s: Seq<char>, i: int) -> bool {
    ||| 1 <= i <= s.len() && (s[i - 1] == 'f' || s[i - 1] == 'F')
    ||| 2 <= i <= s.len() && (s[i - 1] == 'r' || s[i - 1] == 'R') && (s[i - 2] == 'f' || s[i - 2]
        == 'F')
}

/// Whether the string in triple quotes that opens at index `i` stays.
pub open spec fn is_kept(s: Seq<char>, i: int) -> bool {
    let pre = s.subrange(line_start(s, i), i);
    is_formatted(s, i) || starts_assignment(pre) || starts_import(pre) || starts_decorator(pre)
}

/// Executable form of [`is_kept`].
pub fn keeps(s: &[char], i: usize) -> (b: bool)
    requires
        i <= s.len(),
    ensures
        b == is_kept(s@, i as int),
{
    if i >= 1 && (s[i - 1] == 'f' || s[i - 1] == 'F') {
        return true;
    }
    if i >= 2 && (s[i - 1] == 'r' || s[i - 1] == 'R') && (s[i - 2] == 'f' || s[i - 2] == 'F') {
        return true;
    }
    let start = find_line_start(s, i);
    let pre_vec = copy_range(s, start, i);
    let pre = pre_vec.as_slice();
    let a = after_blanks(pre, 0);
    if a < pre.len() && pre[a] == '@' {
        return true;
    }
    let w_import = word_import();
    if has_at(pre, a, w_import.as_slice()) && pre.len() - a > 6 && (pre[a + 6] == ' ' || pre[a + 6]
        == '\t') {
        return true;
    }
    let w_from = word_from();
    if has_at(pre, a, w_from.as_slice()) && pre.len() - a > 4 && (pre[a + 4] == ' ' || pre[a + 4]
        == '\t') {
        return true;
    }
    if a < pre.len() && name_start(pre[a]) {
        let e = find_dotted_end(pre, a);
        let b = after_blanks(pre, e);
        if b < pre.len() && pre[b] == '=' {
            return true;
        }
    }
    false
}

/// The text `s` from index `i` on without its documentation strings.
pub open spec fn without_docstrings_from(s: Seq<char>, i: int) -> Seq<char>
    decreases s.len() - i,
{
    if i < 0 || i >= s.len() {
        Seq::empty()
    } else if opens_triple(s, i) && find_close(s, i + 3, s[i]) >= 0 {
        proof {
            lemma_find_close(s, i + 3, s[i]);
        }
        if is_kept(s, i) {
            s.subrange(i, find_close(s, i + 3, s[i]) + 3) + without_docstrings_from(
                s,
                find_close(s, i + 3, s[i]) + 3,
            )
        } else {
            without_docstrings_from(s, find_close(s, i + 3, s[i]) + 3)
        }
    } else {
        seq![s[i]] + without_docstrings_from(s, i + 1)
    }
}

/// The text `s` without its documentation strings.
pub open spec fn without_docstrings(s: Seq<char>) -> Seq<char> {
    without_docstrings_from(s, 0)
}

/// Drops the documentation strings of `s`.
pub fn strip_docstrings_chars(s: &[char]) -> (out: Vec<char>)
    ensures
        out@ == without_docstrings(s@),
{
    let mut out: Vec<char> = Vec::new();
    let mut i: usize = 0;
    while i < s.len()
        invariant
            i <= s.len(),
            out@ + without_docstrings_from(s@, i as int) == without_docstrings(s@),
        decreases s.len() - i,
    {
        let c = s[i];
        let mut done = false;
        if (c == '"' || c == '\'') && s.len() - i > 2 && s[i + 1] == c && s[i + 2] == c && !(s.len()
            - i > 3 && s[i + 3] == c) {
            match seek_close(s, i + 3, c) {
                Some(j) => {
                    let ghost before = out@;
                    if keeps(s, i) {
                        push_range(&mut out, s, i, j + 3);
                    }
                    proof {
                        let tail = without_docstrings_from(s@, j + 3);
                        if is_kept(s@, i as int) {
                            assert(out@ + tail =~= before + (s@.subrange(i as int, j + 3) + tail));
                        }
                    }
                    i = j + 3;
                    done = true;
                },
                None => {},
            }
        }
        if !done {
            proof {
                let tail = without_docstrings_from(s@, i + 1);
                assert(out@.push(c) + tail =~= out@ + (seq![c] + tail));
            }
            out.push(c);
            i += 1;
        }
    }
    proof {
        assert(out@ + Seq::<char>::empty() =~= out@);
    }
    out
}

/// The text `content` without its documentation strings.
pub fn strip_docstrings(content: &str) -> (out: String)
    ensures
        out@ == without_docstrings(content@),
{
    let chars = to_chars(content);
    let out = strip_docstrings_chars(chars.as_slice());
    to_string(out.as_slice())
}

/// A text in which no string in triple quotes opens is left as it is.
pub proof fn lemma_no_docstring_unchanged(s: Seq<char>, i: int)
    requires
        0 <= i <= s.len(),
        forall|j: int| i <= j < s.len() ==> !opens_triple(s, j),
    ensures
        without_docstrings_from(s, i) == s.subrange(i, s.len() as int),
    decreases s.len() - i,
{
    if i < s.len() {
        lemma_no_docstring_unchanged(s, i + 1);
        assert(seq![s[i]] + s.subrange(i + 1, s.len() as int) =~= s.subrange(i, s.len() as int));
    } else {
        assert(s.subrange(i, s.len() as int) =~= Seq::<char>::empty());
    }
}

} // verus!

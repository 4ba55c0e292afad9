//! Character-level helpers shared by every pass: conversion between strings
//! and character vectors, character classes, and the split of a text into
//! lines.
//!
//! A *text* is modelled as `Seq<char>`. A *line* is a maximal run of
//! characters without `'\n'`; the terminator itself belongs to no line.

use vstd::prelude::*;

verus! {

// ---------------------------------------------------------------------------
// Strings and character vectors
// ---------------------------------------------------------------------------

/// The characters of `s`, in order.
pub fn to_chars(s: &str) -> (v: Vec<char>)
    ensures
        v@ == s@,
{
    let mut v: Vec<char> = Vec::new();
    for c in it: s.chars()
        invariant
            v@ == it.seq().take(it.index()),
            it.seq() == s@,
    {
        v.push(c);
    }
    v
}

/// `String::push`: appends the one character `c` to `s`.
#[verifier::external_body]
fn push_char(s: &mut String, c: char)
    ensures
        final(s)@ == old(s)@.push(c),
{
    s.push(c)
}

/// The string whose characters are those of `v`, in order.
pub fn to_string(v: &[char]) -> (s: String)
    ensures
        s@ == v@,
{
    let mut s = String::new();
    let mut i: usize = 0;
    while i < v.len()
        invariant
            i <= v.len(),
            s@ == v@.take(i as int),
        decreases v.len() - i,
    {
        push_char(&mut s, v[i]);
        i += 1;
    }
    s
}

/// Appends the characters `src[from..to]` to `out`.
pub fn push_range(out: &mut Vec<char>, src: &[char], from: usize, to: usize)
    requires
        from <= to <= src.len(),
    ensures
        final(out)@ == old(out)@ + src@.subrange(from as int, to as int),
{
    let mut i: usize = from;
    while i < to
        invariant
            from <= i <= to <= src.len(),
            out@ == old(out)@ + src@.subrange(from as int, i as int),
        decreases to - i,
    {
        out.push(src[i]);
        i += 1;
    }
}

/// Appends all of `src` to `out`.
pub fn push_all(out: &mut Vec<char>, src: &[char])
    ensures
        final(out)@ == old(out)@ + src@,
{
    push_range(out, src, 0, src.len());
    assert(src@.subrange(0, src@.len() as int) == src@);
}

/// Appends the characters of the string `src` to `out`.
pub fn push_str(out: &mut Vec<char>, src: &str)
    ensures
        final(out)@ == old(out)@ + src@,
{
    let chars = to_chars(src);
    push_all(out, chars.as_slice());
}

/// A copy of `src[from..to]`.
pub fn copy_range(src: &[char], from: usize, to: usize) -> (v: Vec<char>)
    requires
        from <= to <= src.len(),
    ensures
        v@ == src@.subrange(from as int, to as int),
{
    let mut v: Vec<char> = Vec::new();
    push_range(&mut v, src, from, to);
    v
}

/// Whether two character sequences are the same.
pub fn same_chars(a: &[char], b: &[char]) -> (r: bool)
    ensures
        r == (a@ == b@),
{
    if a.len() != b.len() {
        return false;
    }
    let mut i: usize = 0;
    while i < a.len()
        invariant
            i <= a.len(),
            a.len() == b.len(),
            a@.take(i as int) == b@.take(i as int),
        decreases a.len() - i,
    {
        if a[i] != b[i] {
            assert(a@[i as int] != b@[i as int]);
            return false;
        }
        assert(a@.take(i + 1) == a@.take(i as int).push(a@[i as int]));
        assert(b@.take(i + 1) == b@.take(i as int).push(b@[i as int]));
        i += 1;
    }
    assert(a@.take(a@.len() as int) == a@);
    assert(b@.take(b@.len() as int) == b@);
    true
}

// ---------------------------------------------------------------------------
// Character classes
// ---------------------------------------------------------------------------

/// A space or a tab: the characters that indent a line.
pub open spec fn is_blank(c: char) -> bool {
    c == ' ' || c == '\t'
}

/// Executable form of [`is_blank`].
pub fn blank(c: char) -> (b: bool)
    ensures
        b == is_blank(c),
{
    c == ' ' || c == '\t'
}

/// White space: a blank, a line feed, a carriage return, a vertical tab or a
/// form feed.
pub open spec fn is_space(c: char) -> bool {
    is_blank(c) || c == '\n' || c == '\r' || c == '\x0b' || c == '\x0c'
}

/// Executable form of [`is_space`].
pub fn space(c: char) -> (b: bool)
    ensures
        b == is_space(c),
{
    c == ' ' || c == '\t' || c == '\n' || c == '\r' || c == '\x0b' || c == '\x0c'
}

/// A letter of the ASCII alphabet or an underscore: what a name starts with.
pub open spec fn is_name_start(c: char) -> bool {
    ('a' <= c && c <= 'z') || ('A' <= c && c <= 'Z') || c == '_'
}

/// Executable form of [`is_name_start`].
pub fn name_start(c: char) -> (b: bool)
    ensures
        b == is_name_start(c),
{
    ('a' <= c && c <= 'z') || ('A' <= c && c <= 'Z') || c == '_'
}

/// A character that a name continues with: a name start or a decimal digit.
pub open spec fn is_name_char(c: char) -> bool {
    is_name_start(c) || ('0' <= c && c <= '9')
}

/// Executable form of [`is_name_char`].
pub fn name_char(c: char) -> (b: bool)
    ensures
        b == is_name_char(c),
{
    name_start(c) || ('0' <= c && c <= '9')
}

/// Whether every character of `s` is white space.
pub open spec fn all_space(s: Seq<char>) -> bool {
    forall|i: int| 0 <= i < s.len() ==> is_space(#[trigger] s[i])
}

/// Executable form of [`all_space`].
pub fn is_all_space(s: &[char]) -> (b: bool)
    ensures
        b == all_space(s@),
{
    let mut i: usize = 0;
    while i < s.len()
        invariant
            i <= s.len(),
            forall|j: int| 0 <= j < i ==> is_space(#[trigger] s@[j]),
        decreases s.len() - i,
    {
        if !space(s[i]) {
            return false;
        }
        i += 1;
    }
    true
}

// ---------------------------------------------------------------------------
// Scanning within a text
// ---------------------------------------------------------------------------

/// Whether `pat` occurs in `s` at index `i`.
pub open spec fn occurs_at(s: Seq<char>, i: int, pat: Seq<char>) -> bool {
    0 <= i && i + pat.len() <= s.len() && s.subrange(i, i + pat.len()) == pat
}

/// Executable form of [`occurs_at`].
pub fn has_at(s: &[char], i: usize, pat: &[char]) -> (b: bool)
    ensures
        b == occurs_at(s@, i as int, pat@),
{
    if i > s.len() || pat.len() > s.len() - i {
        return false;
    }
    let mut k: usize = 0;
    while k < pat.len()
        invariant
            k <= pat.len(),
            i + pat.len() <= s.len(),
            s@.subrange(i as int, i + k) == pat@.take(k as int),
        decreases pat.len() - k,
    {
        if s[i + k] != pat[k] {
            assert(s@.subrange(i as int, i + pat@.len())[k as int] != pat@[k as int]);
            return false;
        }
        assert(s@.subrange(i as int, i + k + 1) == s@.subrange(i as int, i + k).push(
            s@[i + k],
        ));
        assert(pat@.take(k + 1) == pat@.take(k as int).push(pat@[k as int]));
        k += 1;
    }
    assert(pat@.take(pat@.len() as int) == pat@);
    true
}

/// The first index at or after `i` that holds no blank, or the length of `s`.
pub open spec fn skip_blanks(s: Seq<char>, i: int) -> int
    decreases s.len() - i,
{
    if i < 0 || i >= s.len() {
        s.len() as int
    } else if is_blank(s[i]) {
        skip_blanks(s, i + 1)
    } else {
        i
    }
}

/// What [`skip_blanks`] returns lies between `i` and the end, and only blanks
/// lie before it.
pub proof fn lemma_skip_blanks(s: Seq<char>, i: int)
    requires
        0 <= i <= s.len(),
    ensures
        i <= skip_blanks(s, i) <= s.len(),
        forall|j: int| i <= j < skip_blanks(s, i) ==> is_blank(#[trigger] s[j]),
        skip_blanks(s, i) < s.len() ==> !is_blank(s[skip_blanks(s, i)]),
    decreases s.len() - i,
{
    if i < s.len() && is_blank(s[i]) {
        lemma_skip_blanks(s, i + 1);
    }
}

/// Executable form of [`skip_blanks`].
pub fn after_blanks(s: &[char], i: usize) -> (j: usize)
    requires
        i <= s.len(),
    ensures
        j == skip_blanks(s@, i as int),
        i <= j <= s.len(),
{
    let mut j: usize = i;
    while j < s.len() && blank(s[j])
        invariant
            i <= j <= s.len(),
            skip_blanks(s@, j as int) == skip_blanks(s@, i as int),
        decreases s.len() - j,
    {
        j += 1;
    }
    j
}

/// The index of the first `'\n'` at or after `i`, or the length of `s`: where
/// the line that holds index `i` ends.
pub open spec fn line_end(s: Seq<char>, i: int) -> int
    decreases s.len() - i,
{
    if i < 0 || i >= s.len() {
        s.len() as int
    } else if s[i] == '\n' {
        i
    } else {
        line_end(s, i + 1)
    }
}

/// What [`line_end`] returns lies between `i` and the end, no line feed lies
/// before it, and one lies at it unless it is the end.
pub proof fn lemma_line_end(s: Seq<char>, i: int)
    requires
        0 <= i <= s.len(),
    ensures
        i <= line_end(s, i) <= s.len(),
        forall|j: int| i <= j < line_end(s, i) ==> #[trigger] s[j] != '\n',
        line_end(s, i) < s.len() ==> s[line_end(s, i)] == '\n',
    decreases s.len() - i,
{
    if i < s.len() && s[i] != '\n' {
        lemma_line_end(s, i + 1);
    }
}

/// Executable form of [`line_end`].
pub fn find_line_end(s: &[char], i: usize) -> (e: usize)
    requires
        i <= s.len(),
    ensures
        e == line_end(s@, i as int),
        i <= e <= s.len(),
{
    let mut e: usize = i;
    while e < s.len() && s[e] != '\n'
        invariant
            i <= e <= s.len(),
            line_end(s@, e as int) == line_end(s@, i as int),
        decreases s.len() - e,
    {
        e += 1;
    }
    e
}

/// The index at which the line after the one that holds `i` starts: one past
/// its line feed, or the length of `s` where there is none.
pub open spec fn next_line(s: Seq<char>, i: int) -> int {
    if line_end(s, i) < s.len() {
        line_end(s, i) + 1
    } else {
        s.len() as int
    }
}

/// Executable form of [`next_line`].
pub fn find_next_line(s: &[char], i: usize) -> (n: usize)
    requires
        i <= s.len(),
    ensures
        n == next_line(s@, i as int),
        i <= n <= s.len(),
        i < s.len() ==> i < n,
{
    let e = find_line_end(s, i);
    if e < s.len() {
        e + 1
    } else {
        e
    }
}

/// Whether `s` ends with a line feed.
pub open spec fn ends_with_newline(s: Seq<char>) -> bool {
    s.len() > 0 && s.last() == '\n'
}

/// Executable form of [`ends_with_newline`].
pub fn has_final_newline(s: &[char]) -> (b: bool)
    ensures
        b == ends_with_newline(s@),
{
    s.len() > 0 && s[s.len() - 1] == '\n'
}

// ---------------------------------------------------------------------------
// Lines
// ---------------------------------------------------------------------------

/// The lines of `s` from index `i` on. A line feed ends a line and is not part
/// of it; what follows the last line feed is a line only if it is not empty.
pub open spec fn lines_from(s: Seq<char>, i: int) -> Seq<Seq<char>>
    decreases s.len() - i,
{
    if i < 0 || i >= s.len() {
        Seq::empty()
    } else {
        proof {
            lemma_line_end(s, i);
        }
        if line_end(s, i) >= s.len() {
            seq![s.subrange(i, line_end(s, i))]
        } else {
            seq![s.subrange(i, line_end(s, i))] + lines_from(s, line_end(s, i) + 1)
        }
    }
}

/// The lines of `s`: `"a\nb\n"` and `"a\nb"` both have the lines `a` and `b`,
/// and the empty text has none.
pub open spec fn lines(s: Seq<char>) -> Seq<Seq<char>> {
    lines_from(s, 0)
}

/// The views of the vectors of `v`, in order: the lines, or the segments of a
/// path, that `v` holds.
pub open spec fn views_of(v: Seq<Vec<char>>) -> Seq<Seq<char>> {
    Seq::new(v.len(), |k: int| v[k]@)
}

/// Splits `s` into its lines.
pub fn split_lines(s: &[char]) -> (v: Vec<Vec<char>>)
    ensures
        views_of(v@) == lines(s@),
{
    let mut v: Vec<Vec<char>> = Vec::new();
    let mut i: usize = 0;
    while i < s.len()
        invariant
            i <= s.len(),
            views_of(v@) + lines_from(s@, i as int) == lines(s@),
        decreases s.len() - i,
    {
        let e = find_line_end(s, i);
        let line = copy_range(s, i, e);
        proof {
            assert(views_of(v@.push(line)) == views_of(v@) + seq![line@]);
        }
        v.push(line);
        if e < s.len() {
            i = e + 1;
        } else {
            i = e;
        }
    }
    assert(lines_from(s@, i as int) == Seq::<Seq<char>>::empty());
    v
}

/// Each line of `ls` followed by a line feed, one after the other.
pub open spec fn unlines(ls: Seq<Seq<char>>) -> Seq<char>
    decreases ls.len(),
{
    if ls.len() == 0 {
        Seq::empty()
    } else {
        unlines(ls.drop_last()) + ls.last() + seq!['\n']
    }
}

/// The text made of the lines `ls`: the lines joined by line feeds, with one
/// more at the end if `final_newline` is set. No line gives the empty text.
pub open spec fn text_of_lines(ls: Seq<Seq<char>>, final_newline: bool) -> Seq<char> {
    if ls.len() == 0 {
        Seq::empty()
    } else if final_newline {
        unlines(ls)
    } else {
        unlines(ls.drop_last()) + ls.last()
    }
}

/// Executable form of [`text_of_lines`].
pub fn join_lines(ls: &Vec<Vec<char>>, final_newline: bool) -> (out: Vec<char>)
    ensures
        out@ == text_of_lines(views_of(ls@), final_newline),
{
    let mut out: Vec<char> = Vec::new();
    if ls.len() == 0 {
        return out;
    }
    let ghost views = views_of(ls@);
    let last: usize = ls.len() - 1;
    let mut k: usize = 0;
    while k < last
        invariant
            k <= last < ls.len(),
            last == ls.len() - 1,
            views == views_of(ls@),
            out@ == unlines(views.take(k as int)),
        decreases last - k,
    {
        proof {
            assert(views.take(k + 1).drop_last() == views.take(k as int));
            assert(views.take(k + 1).last() == ls@[k as int]@);
        }
        push_all(&mut out, ls[k].as_slice());
        out.push('\n');
        k += 1;
    }
    proof {
        assert(views.take(last as int) == views.drop_last());
        assert(views.last() == ls@[last as int]@);
    }
    push_all(&mut out, ls[last].as_slice());
    if final_newline {
        out.push('\n');
    }
    out
}

/// The views of the strings of `v`, in order.
pub open spec fn string_views(v: Seq<String>) -> Seq<Seq<char>> {
    Seq::new(v.len(), |k: int| v[k]@)
}

/// The characters of each string of `v`.
pub fn chars_of_all(v: &Vec<String>) -> (out: Vec<Vec<char>>)
    ensures
        views_of(out@) == string_views(v@),
{
    let mut out: Vec<Vec<char>> = Vec::new();
    let mut k: usize = 0;
    while k < v.len()
        invariant
            k <= v@.len(),
            out@.len() == k,
            forall|j: int| 0 <= j < k ==> out@[j]@ == v@[j]@,
        decreases v@.len() - k,
    {
        out.push(to_chars(v[k].as_str()));
        k += 1;
    }
    assert(views_of(out@) =~= string_views(v@));
    out
}

/// `unlines` of lines put one after the other.
pub proof fn lemma_unlines_add(a: Seq<Seq<char>>, b: Seq<Seq<char>>)
    ensures
        unlines(a + b) == unlines(a) + unlines(b),
    decreases b.len(),
{
    if b.len() == 0 {
        assert(a + b =~= a);
        assert(unlines(a) + unlines(b) =~= unlines(a));
    } else {
        lemma_unlines_add(a, b.drop_last());
        assert((a + b).drop_last() =~= a + b.drop_last());
        assert((a + b).last() == b.last());
        assert(unlines(a) + unlines(b.drop_last()) + b.last() + seq!['\n'] =~= unlines(a) + (
        unlines(b.drop_last()) + b.last() + seq!['\n']));
    }
}


/// Whether `l` holds no line feed.
pub open spec fn is_one_line(l: Seq<char>) -> bool {
    forall|j: int| 0 <= j < l.len() ==> l[j] != '\n'
}

/// Whether each of `ls` holds no line feed.
pub open spec fn are_lines(ls: Seq<Seq<char>>) -> bool {
    forall|k: int| 0 <= k < ls.len() ==> is_one_line(#[trigger] ls[k])
}

/// The end of a line that is sought behind a prefix `p` lies as far behind
/// `p` as it lies in the text without the prefix.
pub proof fn lemma_line_end_shift(p: Seq<char>, r: Seq<char>, j: int)
    requires
        0 <= j <= r.len(),
    ensures
        line_end(p + r, p.len() + j) == p.len() + line_end(r, j),
    decreases r.len() - j,
{
    if j < r.len() {
        assert((p + r)[p.len() + j] == r[j]);
        if r[j] != '\n' {
            lemma_line_end_shift(p, r, j + 1);
        }
    }
}

/// The lines that are sought behind a prefix `p` are the lines of the text
/// without the prefix.
pub proof fn lemma_lines_shift(p: Seq<char>, r: Seq<char>, j: int)
    requires
        0 <= j <= r.len(),
    ensures
        lines_from(p + r, p.len() + j) == lines_from(r, j),
    decreases r.len() - j,
{
    if j < r.len() {
        lemma_line_end_shift(p, r, j);
        lemma_line_end(r, j);
        let e = line_end(r, j);
        assert((p + r).subrange(p.len() + j, p.len() + e) =~= r.subrange(j, e));
        if e < r.len() {
            lemma_lines_shift(p, r, e + 1);
        }
    }
}

/// A line ends where the first line feed stands.
pub proof fn lemma_line_end_is(s: Seq<char>, i: int, e: int)
    requires
        0 <= i <= e <= s.len(),
        forall|j: int| i <= j < e ==> s[j] != '\n',
        e < s.len() ==> s[e] == '\n',
    ensures
        line_end(s, i) == e,
    decreases e - i,
{
    if i < e {
        lemma_line_end_is(s, i + 1, e);
    }
}

/// The lines of a line, a line feed and a text are the line and the lines of
/// the text.
pub proof fn lemma_lines_cons(l: Seq<char>, r: Seq<char>)
    requires
        is_one_line(l),
    ensures
        lines(l + seq!['\n'] + r) == seq![l] + lines(r),
{
    let p = l + seq!['\n'];
    let t = p + r;
    lemma_line_end_is(t, 0, l.len() as int);
    assert(t.subrange(0, l.len() as int) =~= l);
    lemma_lines_shift(p, r, 0);
    if r.len() == 0 {
        assert(lines_from(t, l.len() as int + 1) =~= Seq::<Seq<char>>::empty());
    }
}

/// A line that is not empty is the one line of itself.
pub proof fn lemma_lines_single(l: Seq<char>)
    requires
        is_one_line(l),
        l.len() > 0,
    ensures
        lines(l) == seq![l],
{
    lemma_line_end_is(l, 0, l.len() as int);
    assert(l.subrange(0, l.len() as int) =~= l);
}

/// The text of lines starts with the first line and a line feed, where more
/// lines follow.
pub proof fn lemma_text_of_lines_cons(l: Seq<char>, rest: Seq<Seq<char>>, final_newline: bool)
    requires
        rest.len() > 0,
    ensures
        text_of_lines(seq![l] + rest, final_newline) == l + seq!['\n'] + text_of_lines(
            rest,
            final_newline,
        ),
{
    let all = seq![l] + rest;
    let one = seq![l];
    assert(one.drop_last() =~= Seq::<Seq<char>>::empty());
    assert(unlines(one) =~= l + seq!['\n']) by {
        assert(unlines(one) == unlines(one.drop_last()) + one.last() + seq!['\n']);
    }
    if final_newline {
        lemma_unlines_add(one, rest);
    } else {
        assert(all.drop_last() =~= one + rest.drop_last());
        lemma_unlines_add(one, rest.drop_last());
        assert(all.last() == rest.last());
        assert(unlines(one) + unlines(rest.drop_last()) + rest.last() =~= l + seq!['\n'] + (
        unlines(rest.drop_last()) + rest.last()));
    }
}

/// The lines of the text of lines are those lines, unless the last line is
/// empty and no line feed ends the text.
pub proof fn lemma_lines_of_text(ls: Seq<Seq<char>>, final_newline: bool)
    requires
        are_lines(ls),
        final_newline || ls.len() == 0 || ls.last().len() > 0,
    ensures
        lines(text_of_lines(ls, final_newline)) == ls,
    decreases ls.len(),
{
    if ls.len() == 0 {
        assert(lines(Seq::<char>::empty()) =~= ls);
    } else if ls.len() == 1 {
        let l = ls[0];
        assert(ls.drop_last() =~= Seq::<Seq<char>>::empty());
        assert(ls =~= seq![l]);
        if final_newline {
            assert(text_of_lines(ls, true) =~= l + seq!['\n'] + Seq::<char>::empty()) by {
                assert(unlines(ls) == unlines(ls.drop_last()) + ls.last() + seq!['\n']);
            }
            lemma_lines_cons(l, Seq::<char>::empty());
            assert(lines(Seq::<char>::empty()) =~= Seq::<Seq<char>>::empty());
        } else {
            assert(text_of_lines(ls, false) =~= l);
            lemma_lines_single(l);
        }
    } else {
        let l = ls[0];
        let rest = ls.drop_first();
        assert(ls =~= seq![l] + rest);
        assert(are_lines(rest)) by {
            assert forall|k: int| 0 <= k < rest.len() implies is_one_line(#[trigger] rest[k]) by {
                assert(rest[k] == ls[k + 1]);
            }
        }
        assert(rest.last() == ls.last());
        lemma_text_of_lines_cons(l, rest, final_newline);
        lemma_lines_of_text(rest, final_newline);
        lemma_lines_cons(l, text_of_lines(rest, final_newline));
    }
}

/// The lines of a text hold no line feed, and the last of them is not empty
/// unless a line feed ends the text.
pub proof fn lemma_lines_are_lines(s: Seq<char>, i: int)
    requires
        0 <= i <= s.len(),
    ensures
        are_lines(lines_from(s, i)),
        !ends_with_newline(s) && lines_from(s, i).len() > 0 ==> lines_from(s, i).last().len() > 0,
        forall|k: int|
            0 <= k < lines_from(s, i).len() ==> exists|a: int, b: int|
                i <= a <= b <= s.len() && #[trigger] lines_from(s, i)[k] == s.subrange(a, b),
    decreases s.len() - i,
{
    if i < s.len() {
        lemma_line_end(s, i);
        let e = line_end(s, i);
        let first = s.subrange(i, e);
        let got = lines_from(s, i);
        assert(is_one_line(first));
        if e < s.len() {
            lemma_lines_are_lines(s, e + 1);
            let rest = lines_from(s, e + 1);
            assert(got =~= seq![first] + rest);
            assert forall|k: int| 0 <= k < got.len() implies is_one_line(#[trigger] got[k]) by {
                if k > 0 {
                    assert(got[k] == rest[k - 1]);
                }
            }
            assert forall|k: int| 0 <= k < got.len() implies exists|a: int, b: int|
                i <= a <= b <= s.len() && #[trigger] got[k] == s.subrange(a, b) by {
                if k > 0 {
                    assert(got[k] == rest[k - 1]);
                    let (a, b) = choose|a: int, b: int|
                        e + 1 <= a <= b <= s.len() && rest[k - 1] == s.subrange(a, b);
                    assert(i <= a <= b <= s.len() && got[k] == s.subrange(a, b));
                } else {
                    assert(i <= i <= e <= s.len() && got[0] == s.subrange(i, e));
                }
            }
            if !ends_with_newline(s) && rest.len() > 0 {
                assert(got.last() == rest.last());
            }
            if rest.len() == 0 {
                // the line feed at `e` is the last character
                assert(e + 1 >= s.len());
            }
        } else {
            assert(got =~= seq![first]);
            assert(i <= i <= e <= s.len() && got[0] == s.subrange(i, e));
        }
    }
}

/// A text is the text of its lines.
pub proof fn lemma_text_of_its_lines(s: Seq<char>, i: int)
    requires
        0 <= i <= s.len(),
    ensures
        text_of_lines(lines_from(s, i), ends_with_newline(s)) == s.subrange(i, s.len() as int),
    decreases s.len() - i,
{
    let fl = ends_with_newline(s);
    if i < s.len() {
        lemma_line_end(s, i);
        let e = line_end(s, i);
        let first = s.subrange(i, e);
        let one = seq![first];
        assert(one.drop_last() =~= Seq::<Seq<char>>::empty());
        assert(unlines(one) == unlines(one.drop_last()) + one.last() + seq!['\n']);
        if e < s.len() {
            let rest = lines_from(s, e + 1);
            lemma_text_of_its_lines(s, e + 1);
            if rest.len() == 0 {
                assert(e + 1 == s.len());
                assert(lines_from(s, i) =~= one);
                assert(fl);
                assert(unlines(one) =~= s.subrange(i, s.len() as int));
            } else {
                assert(lines_from(s, i) =~= one + rest);
                lemma_text_of_lines_cons(first, rest, fl);
                assert(first + seq!['\n'] + s.subrange(e + 1, s.len() as int) =~= s.subrange(
                    i,
                    s.len() as int,
                ));
            }
        } else {
            assert(lines_from(s, i) =~= one);
            assert(!fl);
            assert(text_of_lines(one, false) =~= first);
        }
    } else {
        assert(s.subrange(i, s.len() as int) =~= Seq::<char>::empty());
    }
}

} // verus!

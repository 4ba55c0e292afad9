//! Finding the import statements that name local modules.
//!
//! A statement has the shape `<indent>from <module> import <names>` on one
//! line. Where the names end in an open parenthesis, the statement runs on to
//! the parenthesis that closes it. A statement counts only if its module
//! reference starts with one of the configured prefixes.

use crate::text::{
    after_blanks, copy_range, find_line_end, find_next_line, has_at, is_blank, is_space,
    lemma_line_end, lemma_skip_blanks, line_end, next_line, occurs_at, skip_blanks, space, views_of,
};
use vstd::prelude::*;

verus! {

/// The word `from`.
pub open spec fn kw_from() -> Seq<char> {
    seq!['f', 'r', 'o', 'm']
}

/// The word `import`.
pub open spec fn kw_import() -> Seq<char> {
    seq!['i', 'm', 'p', 'o', 'r', 't']
}

/// The word `from` as characters.
pub fn word_from() -> (v: Vec<char>)
    ensures
        v@ == kw_from(),
{
    let v = vec!['f', 'r', 'o', 'm'];
    assert(v@ =~= kw_from());
    v
}

/// The word `import` as characters.
pub fn word_import() -> (v: Vec<char>)
    ensures
        v@ == kw_import(),
{
    let v = vec!['i', 'm', 'p', 'o', 'r', 't'];
    assert(v@ =~= kw_import());
    v
}

/// The first index at or after `i` that holds white space, or the length of
/// `s`: where the token that holds index `i` ends.
pub open spec fn token_end(s: Seq<char>, i: int) -> int
    decreases s.len() - i,
{
    if i < 0 || i >= s.len() {
        s.len() as int
    } else if is_space(s[i]) {
        i
    } else {
        token_end(s, i + 1)
    }
}

/// What [`token_end`] returns lies between `i` and the end.
pub proof fn lemma_token_end(s: Seq<char>, i: int)
    requires
        0 <= i <= s.len(),
    ensures
        i <= token_end(s, i) <= s.len(),
    decreases s.len() - i,
{
    if i < s.len() && !is_space(s[i]) {
        lemma_token_end(s, i + 1);
    }
}

/// Executable form of [`token_end`].
pub fn find_token_end(s: &[char], i: usize) -> (e: usize)
    requires
        i <= s.len(),
    ensures
        e == token_end(s@, i as int),
        i <= e <= s.len(),
{
    let mut e: usize = i;
    while e < s.len() && !space(s[e])
        invariant
            i <= e <= s.len(),
            token_end(s@, e as int) == token_end(s@, i as int),
        decreases s.len() - e,
    {
        e += 1;
    }
    e
}

/// Whether the module reference `module` starts with one of `prefixes`.
pub open spec fn qualifies(module: Seq<char>, prefixes: Seq<Seq<char>>) -> bool {
    exists|k: int| 0 <= k < prefixes.len() && occurs_at(module, 0, #[trigger] prefixes[k])
}

/// Executable form of [`qualifies`].
pub fn is_local(module: &[char], prefixes: &Vec<Vec<char>>) -> (b: bool)
    ensures
        b == qualifies(module@, views_of(prefixes@)),
{
    let mut k: usize = 0;
    while k < prefixes.len()
        invariant
            k <= prefixes@.len(),
            forall|j: int| 0 <= j < k ==> !occurs_at(module@, 0, #[trigger] views_of(prefixes@)[j]),
        decreases prefixes@.len() - k,
    {
        if has_at(module, 0, prefixes[k].as_slice()) {
            assert(occurs_at(module@, 0, views_of(prefixes@)[k as int]));
            return true;
        }
        k += 1;
    }
    false
}

/// The index after the last character of `s[lo..hi]` that is no white space,
/// or `lo` where there is none.
pub open spec fn last_solid(s: Seq<char>, lo: int, hi: int) -> int
    decreases hi - lo,
{
    if hi <= lo || hi > s.len() || lo < 0 {
        lo
    } else if is_space(s[hi - 1]) {
        last_solid(s, lo, hi - 1)
    } else {
        hi
    }
}

/// Executable form of [`last_solid`].
pub fn find_last_solid(s: &[char], lo: usize, hi: usize) -> (t: usize)
    requires
        lo <= hi <= s.len(),
    ensures
        t == last_solid(s@, lo as int, hi as int),
        lo <= t <= hi,
{
    let mut t: usize = hi;
    while t > lo && space(s[t - 1])
        invariant
            lo <= t <= hi <= s.len(),
            last_solid(s@, lo as int, t as int) == last_solid(s@, lo as int, hi as int),
        decreases t - lo,
    {
        t -= 1;
    }
    t
}

/// The index of the parenthesis that closes the one opened before index `i`,
/// `depth` parentheses being open there, or `-1` where none closes it.
pub open spec fn paren_close(s: Seq<char>, i: int, depth: int) -> int
    decreases s.len() - i,
{
    if i < 0 || i >= s.len() {
        -1
    } else if s[i] == '(' {
        paren_close(s, i + 1, depth + 1)
    } else if s[i] == ')' {
        if depth <= 1 {
            i
        } else {
            paren_close(s, i + 1, depth - 1)
        }
    } else {
        paren_close(s, i + 1, depth)
    }
}

/// What [`paren_close`] returns is `-1` or an index from `i` on.
pub proof fn lemma_paren_close(s: Seq<char>, i: int, depth: int)
    requires
        0 <= i <= s.len(),
    ensures
        paren_close(s, i, depth) == -1 || (i <= paren_close(s, i, depth) < s.len() && s[paren_close(
            s,
            i,
            depth,
        )] == ')'),
    decreases s.len() - i,
{
    if i < s.len() {
        if s[i] == '(' {
            lemma_paren_close(s, i + 1, depth + 1);
        } else if s[i] == ')' {
            if depth > 1 {
                lemma_paren_close(s, i + 1, depth - 1);
            }
        } else {
            lemma_paren_close(s, i + 1, depth);
        }
    }
}

/// Executable form of [`paren_close`], for one open parenthesis.
pub fn find_paren_close(s: &[char], i: usize) -> (r: Option<usize>)
    requires
        i <= s.len(),
    ensures
        match r {
            Some(j) => j as int == paren_close(s@, i as int, 1) && i <= j < s.len(),
            None => paren_close(s@, i as int, 1) == -1,
        },
{
    let mut j: usize = i;
    // the parentheses that are open besides the first
    let mut nested: usize = 0;
    while j < s.len()
        invariant
            i <= j <= s.len(),
            nested <= j - i,
            paren_close(s@, j as int, nested + 1) == paren_close(s@, i as int, 1),
        decreases s.len() - j,
    {
        if s[j] == '(' {
            nested += 1;
        } else if s[j] == ')' {
            if nested == 0 {
                return Some(j);
            }
            nested -= 1;
        }
        j += 1;
    }
    None
}

/// Where the statement ends whose names start at index `f` on a line that
/// ends at index `le`. Names that end in `(` run on to the parenthesis that
/// closes it; any other statement, and one whose parenthesis is never closed,
/// ends with its line. A line feed that follows directly belongs to the
/// statement.
pub open spec fn statement_end(s: Seq<char>, f: int, le: int) -> int {
    let t = last_solid(s, f, le);
    let close = paren_close(s, t, 1);
    let after = if t > f && s[t - 1] == '(' && close >= 0 {
        close + 1
    } else {
        le
    };
    if after < s.len() && s[after] == '\n' {
        after + 1
    } else {
        after
    }
}

/// Executable form of [`statement_end`].
pub fn find_statement_end(s: &[char], f: usize, le: usize) -> (e: usize)
    requires
        f <= le <= s.len(),
    ensures
        e == statement_end(s@, f as int, le as int),
        le <= e <= s.len(),
{
    let t = find_last_solid(s, f, le);
    let mut after: usize = le;
    if t > f && s[t - 1] == '(' {
        match find_paren_close(s, t) {
            Some(j) => {
                proof {
                    lemma_last_solid(s@, f as int, le as int);
                    lemma_paren_close(s@, t as int, 1);
                    if j < le {
                        assert(is_space(s@[j as int]));
                    }
                }
                after = j + 1;
            },
            None => {},
        }
    }
    if after < s.len() && s[after] == '\n' {
        after + 1
    } else {
        after
    }
}

/// One import statement of a text.
pub struct ImportView {
    /// The index at which the line of the statement starts.
    pub start: int,
    /// The index after the statement.
    pub end: int,
    /// The blanks before `from`.
    pub indent: Seq<char>,
    /// The module reference.
    pub module: Seq<char>,
    /// The names clause, up to the end of the first line.
    pub names: Seq<char>,
}

/// The import statement of a local module that starts with the line at index
/// `i` of `s`, if there is one.
pub open spec fn import_at(s: Seq<char>, i: int, prefixes: Seq<Seq<char>>) -> Option<ImportView> {
    let a = skip_blanks(s, i);
    let b = a + 4;
    let c = skip_blanks(s, b);
    let m = token_end(s, c);
    let d = skip_blanks(s, m);
    let e = d + 6;
    let f = skip_blanks(s, e);
    let le = line_end(s, f);
    if 0 <= i && occurs_at(s, a, kw_from()) && b < s.len() && is_blank(s[b]) && c < m
        && qualifies(s.subrange(c, m), prefixes) && m < s.len() && is_blank(s[m]) && occurs_at(
        s,
        d,
        kw_import(),
    ) && e < s.len() && is_blank(s[e]) && f < le {
        Some(
            ImportView {
                start: i,
                end: statement_end(s, f, le),
                indent: s.subrange(i, a),
                module: s.subrange(c, m),
                names: s.subrange(f, le),
            },
        )
    } else {
        None
    }
}

/// One import statement that was found in a text.
pub struct ImportMatch {
    /// The index at which the line of the statement starts.
    pub start: usize,
    /// The index after the statement.
    pub end: usize,
    /// The blanks before `from`.
    pub indent: Vec<char>,
    /// The module reference.
    pub module: Vec<char>,
    /// The names clause, up to the end of the first line.
    pub names: Vec<char>,
}

impl View for ImportMatch {
    type V = ImportView;

    open spec fn view(&self) -> ImportView {
        ImportView {
            start: self.start as int,
            end: self.end as int,
            indent: self.indent@,
            module: self.module@,
            names: self.names@,
        }
    }
}

/// A statement found at a line start lies within the text and is not empty.
pub proof fn lemma_import_at(s: Seq<char>, i: int, prefixes: Seq<Seq<char>>)
    requires
        0 <= i <= s.len(),
        import_at(s, i, prefixes) is Some,
    ensures
        import_at(s, i, prefixes)->0.start == i,
        i < import_at(s, i, prefixes)->0.end <= s.len(),
{
    let a = skip_blanks(s, i);
    lemma_skip_blanks(s, i);
    let b = a + 4;
    lemma_skip_blanks(s, b);
    let c = skip_blanks(s, b);
    lemma_token_end(s, c);
    let m = token_end(s, c);
    lemma_skip_blanks(s, m);
    let d = skip_blanks(s, m);
    let e = d + 6;
    lemma_skip_blanks(s, e);
    let f = skip_blanks(s, e);
    lemma_line_end(s, f);
    let le = line_end(s, f);
    let t = last_solid(s, f, le);
    lemma_last_solid(s, f, le);
    lemma_paren_close(s, t, 1);
}

/// What [`last_solid`] returns lies within its range, and only white space
/// follows it there.
pub proof fn lemma_last_solid(s: Seq<char>, lo: int, hi: int)
    requires
        0 <= lo <= hi <= s.len(),
    ensures
        lo <= last_solid(s, lo, hi) <= hi,
        forall|j: int| last_solid(s, lo, hi) <= j < hi ==> is_space(#[trigger] s[j]),
    decreases hi - lo,
{
    if hi > lo && is_space(s[hi - 1]) {
        lemma_last_solid(s, lo, hi - 1);
    }
}

/// Executable form of [`import_at`].
pub fn match_import(s: &[char], i: usize, prefixes: &Vec<Vec<char>>) -> (r: Option<ImportMatch>)
    requires
        i <= s.len(),
    ensures
        match r {
            Some(m) => import_at(s@, i as int, views_of(prefixes@)) == Some(m@),
            None => import_at(s@, i as int, views_of(prefixes@)) is None,
        },
{
    let a = after_blanks(s, i);
    let w_from = word_from();
    if !has_at(s, a, w_from.as_slice()) {
        return None;
    }
    let b = a + 4;
    if b >= s.len() || !(s[b] == ' ' || s[b] == '\t') {
        return None;
    }
    let c = after_blanks(s, b);
    let m = find_token_end(s, c);
    if c >= m {
        return None;
    }
    let module = copy_range(s, c, m);
    if !is_local(module.as_slice(), prefixes) {
        return None;
    }
    if m >= s.len() || !(s[m] == ' ' || s[m] == '\t') {
        return None;
    }
    let d = after_blanks(s, m);
    let w_import = word_import();
    if !has_at(s, d, w_import.as_slice()) {
        return None;
    }
    let e = d + 6;
    if e >= s.len() || !(s[e] == ' ' || s[e] == '\t') {
        return None;
    }
    let f = after_blanks(s, e);
    let le = find_line_end(s, f);
    if f >= le {
        return None;
    }
    let end = find_statement_end(s, f, le);
    Some(
        ImportMatch {
            start: i,
            end,
            indent: copy_range(s, i, a),
            module,
            names: copy_range(s, f, le),
        },
    )
}

/// Where the search goes on after a statement that ends at index `e`: at `e`
/// where a line starts there, else at the start of the next line.
pub open spec fn resume_at(s: Seq<char>, e: int) -> int {
    if e <= 0 || e >= s.len() || s[e - 1] == '\n' {
        e
    } else {
        next_line(s, e)
    }
}

/// The import statements of local modules in `s` from the line start `i` on,
/// in order.
pub open spec fn imports_from(s: Seq<char>, i: int, prefixes: Seq<Seq<char>>) -> Seq<ImportView>
    decreases s.len() - i,
{
    if i < 0 || i >= s.len() {
        Seq::empty()
    } else if import_at(s, i, prefixes) is Some {
        proof {
            lemma_import_at(s, i, prefixes);
            lemma_line_end(s, import_at(s, i, prefixes)->0.end);
        }
        seq![import_at(s, i, prefixes)->0] + imports_from(
            s,
            resume_at(s, import_at(s, i, prefixes)->0.end),
            prefixes,
        )
    } else {
        proof {
            lemma_line_end(s, i);
        }
        imports_from(s, next_line(s, i), prefixes)
    }
}

/// The import statements of local modules in `s`, in order.
pub open spec fn imports(s: Seq<char>, prefixes: Seq<Seq<char>>) -> Seq<ImportView> {
    imports_from(s, 0, prefixes)
}

/// Whether the statements `ms` lie in a text of length `len` one after the
/// other, from index `from` on: each starts where the one before it ends or
/// later, and none is empty.
pub open spec fn imports_ordered(ms: Seq<ImportView>, from: int, len: int) -> bool
    decreases ms.len(),
{
    if ms.len() == 0 {
        0 <= from <= len
    } else {
        &&& 0 <= from <= ms[0].start < ms[0].end <= len
        &&& imports_ordered(ms.drop_first(), ms[0].end, len)
    }
}

/// Statements that are ordered from `to` on are ordered from any earlier
/// index on.
pub proof fn lemma_imports_ordered_earlier(ms: Seq<ImportView>, from: int, to: int, len: int)
    requires
        0 <= from <= to,
        imports_ordered(ms, to, len),
    ensures
        imports_ordered(ms, from, len),
{
}

/// The statements found from a line start on lie in the text one after the
/// other.
pub proof fn lemma_imports_ordered(s: Seq<char>, i: int, prefixes: Seq<Seq<char>>)
    requires
        0 <= i <= s.len(),
    ensures
        imports_ordered(imports_from(s, i, prefixes), i, s.len() as int),
    decreases s.len() - i,
{
    if i < s.len() {
        if import_at(s, i, prefixes) is Some {
            lemma_import_at(s, i, prefixes);
            let m = import_at(s, i, prefixes)->0;
            lemma_line_end(s, m.end);
            let r = resume_at(s, m.end);
            lemma_imports_ordered(s, r, prefixes);
            lemma_imports_ordered_earlier(imports_from(s, r, prefixes), m.end, r, s.len() as int);
            assert(imports_from(s, i, prefixes).drop_first() =~= imports_from(s, r, prefixes));
        } else {
            lemma_line_end(s, i);
            let n = next_line(s, i);
            lemma_imports_ordered(s, n, prefixes);
            lemma_imports_ordered_earlier(imports_from(s, n, prefixes), i, n, s.len() as int);
        }
    }
}

/// The views of the matches of `v`, in order.
pub open spec fn match_views(v: Seq<ImportMatch>) -> Seq<ImportView> {
    Seq::new(v.len(), |k: int| v[k]@)
}

/// Finds the import statements of local modules in `s`.
pub fn find_imports(s: &[char], prefixes: &Vec<Vec<char>>) -> (v: Vec<ImportMatch>)
    ensures
        match_views(v@) == imports(s@, views_of(prefixes@)),
        imports_ordered(imports(s@, views_of(prefixes@)), 0, s@.len() as int),
{
    let mut v: Vec<ImportMatch> = Vec::new();
    let mut i: usize = 0;
    let ghost pre = views_of(prefixes@);
    while i < s.len()
        invariant
            i <= s.len(),
            pre == views_of(prefixes@),
            match_views(v@) + imports_from(s@, i as int, pre) == imports(s@, pre),
        decreases s.len() - i,
    {
        match match_import(s, i, prefixes) {
            Some(m) => {
                proof {
                    lemma_import_at(s@, i as int, pre);
                    assert(match_views(v@.push(m)) =~= match_views(v@) + seq![m@]);
                }
                let e = m.end;
                v.push(m);
                if e >= s.len() || s[e - 1] == '\n' {
                    i = e;
                } else {
                    i = find_next_line(s, e);
                }
            },
            None => {
                i = find_next_line(s, i);
            },
        }
    }
    proof {
        assert(imports_from(s@, i as int, pre) =~= Seq::<ImportView>::empty());
        lemma_imports_ordered(s@, 0, pre);
    }
    v
}

/// A statement over several lines goes as a whole: where the names end in an
/// open parenthesis that is closed later, the statement ends directly after
/// the closing parenthesis, or after the line feed that follows it.
pub proof fn lemma_multiline_statement(s: Seq<char>, f: int, le: int)
    requires
        0 <= f <= le <= s.len(),
        last_solid(s, f, le) > f,
        s[last_solid(s, f, le) - 1] == '(',
        paren_close(s, last_solid(s, f, le), 1) >= 0,
    ensures
        s[paren_close(s, last_solid(s, f, le), 1)] == ')',
        statement_end(s, f, le) == paren_close(s, last_solid(s, f, le), 1) + 1 || (statement_end(
            s,
            f,
            le,
        ) == paren_close(s, last_solid(s, f, le), 1) + 2 && s[paren_close(
            s,
            last_solid(s, f, le),
            1,
        ) + 1] == '\n'),
{
    lemma_last_solid(s, f, le);
    lemma_paren_close(s, last_solid(s, f, le), 1);
}

} // verus!

//! Gathering the import lines of a text at its head.
//!
//! An interpreter line and a block of script metadata stay where they are, at
//! the very start. Of what follows, the import lines are taken out, freed of
//! their indentation, sorted, each kept once, and put before the rest.

use crate::comments::{is_block_marker, is_shebang};
use crate::imports::{find_last_solid, kw_from, kw_import, last_solid, word_from, word_import};
use crate::text::{
    after_blanks, copy_range, has_at, is_blank, is_name_char, is_name_start, is_space,
    lemma_unlines_add, lines, name_char, name_start, occurs_at, push_all, same_chars, skip_blanks,
    space, split_lines, to_chars, to_string, unlines, views_of,
};
use vstd::prelude::*;

verus! {

/// The first index at or after `i` that holds no white space, or the length
/// of `s`.
pub open spec fn skip_spaces(s: Seq<char>, i: int) -> int
    decreases s.len() - i,
{
    if i < 0 || i >= s.len() {
        s.len() as int
    } else if is_space(s[i]) {
        skip_spaces(s, i + 1)
    } else {
        i
    }
}

/// Executable form of [`skip_spaces`].
pub fn after_spaces(s: &[char], i: usize) -> (j: usize)
    requires
        i <= s.len(),
    ensures
        j == skip_spaces(s@, i as int),
        i <= j <= s.len(),
{
    let mut j: usize = i;
    while j < s.len() && space(s[j])
        invariant
            i <= j <= s.len(),
            skip_spaces(s@, j as int) == skip_spaces(s@, i as int),
        decreases s.len() - j,
    {
        j += 1;
    }
    j
}

/// The line `l` without the white space at its start.
pub open spec fn trim_start(l: Seq<char>) -> Seq<char> {
    l.subrange(skip_spaces(l, 0), l.len() as int)
}

/// The first index at or after `i` that holds neither a name character nor a
/// dot, or the length of `s`: where a module name ends.
pub open spec fn module_end(s: Seq<char>, i: int) -> int
    decreases s.len() - i,
{
    if i < 0 || i >= s.len() {
        s.len() as int
    } else if is_name_char(s[i]) || s[i] == '.' {
        module_end(s, i + 1)
    } else {
        i
    }
}

/// Executable form of [`module_end`].
pub fn find_module_end(s: &[char], i: usize) -> (e: usize)
    requires
        i <= s.len(),
    ensures
        e == module_end(s@, i as int),
        i <= e <= s.len(),
{
    let mut e: usize = i;
    while e < s.len() && (name_char(s[e]) || s[e] == '.')
        invariant
            i <= e <= s.len(),
            module_end(s@, e as int) == module_end(s@, i as int),
        decreases s.len() - e,
    {
        e += 1;
    }
    e
}

/// The word `as`.
pub open spec fn kw_as() -> Seq<char> {
    seq!['a', 's']
}

/// Whether the statement of `l` goes on in the next line: its last character
/// that is no white space is an open parenthesis, a comma or a backslash.
pub open spec fn is_open_ended(l: Seq<char>) -> bool {
    let t = last_solid(l, 0, l.len() as int);
    t > 0 && (l[t - 1] == '(' || l[t - 1] == ',' || l[t - 1] == '\\')
}

/// Whether an `import` statement of one module starts at index `a` of `l`:
/// `import`, blanks, a module name that starts with a letter or an
/// underscore, and then nothing, a comma, a comment, or `as` and a blank.
pub open spec fn plain_import_at(l: Seq<char>, a: int) -> bool {
    let b = skip_blanks(l, a + 6);
    let e = module_end(l, b);
    let c = skip_blanks(l, e);
    &&& occurs_at(l, a, kw_import())
    &&& a + 6 < l.len() && is_blank(l[a + 6])
    &&& b < l.len() && is_name_start(l[b])
    &&& (c >= l.len() || l[c] == ',' || l[c] == '#' || (e < c && occurs_at(l, c, kw_as()) && c + 2
        < l.len() && is_blank(l[c + 2])))
}

/// Whether a `from` statement starts at index `a` of `l`: `from`, blanks, a
/// module name that starts with a letter, an underscore or a dot, blanks,
/// `import`, blanks, and something more.
pub open spec fn from_import_at(l: Seq<char>, a: int) -> bool {
    let b = skip_blanks(l, a + 4);
    let e = module_end(l, b);
    let c = skip_blanks(l, e);
    &&& occurs_at(l, a, kw_from())
    &&& a + 4 < l.len() && is_blank(l[a + 4])
    &&& b < l.len() && (is_name_start(l[b]) || l[b] == '.')
    &&& e < l.len() && is_blank(l[e])
    &&& occurs_at(l, c, kw_import())
    &&& c + 6 < l.len() && is_blank(l[c + 6])
    &&& skip_blanks(l, c + 6) < l.len()
}

/// Whether `l` is an import line: white space, then an import statement that
/// ends with the line. A line of another language that starts with `import`,
/// such as `import x from 'y'`, is none.
pub open spec fn is_import_line(l: Seq<char>) -> bool {
    let a = skip_spaces(l, 0);
    (plain_import_at(l, a) || from_import_at(l, a)) && !is_open_ended(l)
}

/// The word `as` as characters.
fn word_as() -> (v: Vec<char>)
    ensures
        v@ == kw_as(),
{
    let v = vec!['a', 's'];
    assert(v@ =~= kw_as());
    v
}

/// Executable form of [`plain_import_at`].
fn plain_import(l: &[char], a: usize) -> (r: bool)
    requires
        a <= l.len(),
    ensures
        r == plain_import_at(l@, a as int),
{
    let w = word_import();
    if !has_at(l, a, w.as_slice()) {
        return false;
    }
    if !(l.len() - a > 6 && (l[a + 6] == ' ' || l[a + 6] == '\t')) {
        return false;
    }
    let b = after_blanks(l, a + 6);
    if !(b < l.len() && name_start(l[b])) {
        return false;
    }
    let e = find_module_end(l, b);
    let c = after_blanks(l, e);
    if c >= l.len() || l[c] == ',' || l[c] == '#' {
        return true;
    }
    let w_as = word_as();
    e < c && has_at(l, c, w_as.as_slice()) && l.len() - c > 2 && (l[c + 2] == ' ' || l[c + 2]
        == '\t')
}

/// Executable form of [`from_import_at`].
fn from_import(l: &[char], a: usize) -> (r: bool)
    requires
        a <= l.len(),
    ensures
        r == from_import_at(l@, a as int),
{
    let w = word_from();
    if !has_at(l, a, w.as_slice()) {
        return false;
    }
    if !(l.len() - a > 4 && (l[a + 4] == ' ' || l[a + 4] == '\t')) {
        return false;
    }
    let b = after_blanks(l, a + 4);
    if !(b < l.len() && (name_start(l[b]) || l[b] == '.')) {
        return false;
    }
    let e = find_module_end(l, b);
    if !(e < l.len() && (l[e] == ' ' || l[e] == '\t')) {
        return false;
    }
    let c = after_blanks(l, e);
    let w_import = word_import();
    if !has_at(l, c, w_import.as_slice()) {
        return false;
    }
    if !(l.len() - c > 6 && (l[c + 6] == ' ' || l[c + 6] == '\t')) {
        return false;
    }
    after_blanks(l, c + 6) < l.len()
}

/// Executable form of [`is_import_line`].
pub fn import_line(l: &[char]) -> (r: bool)
    ensures
        r == is_import_line(l@),
{
    let t = find_last_solid(l, 0, l.len());
    if t > 0 && (l[t - 1] == '(' || l[t - 1] == ',' || l[t - 1] == '\\') {
        return false;
    }
    let a = after_spaces(l, 0);
    plain_import(l, a) || from_import(l, a)
}

/// Whether `a` comes before `b` in the order of texts, compared from index
/// `i` on: at the first index at which they differ, `a` has the smaller
/// character, or `a` ends there and `b` does not.
pub open spec fn less_from(a: Seq<char>, b: Seq<char>, i: int) -> bool
    decreases a.len() - i,
{
    if i < 0 || i >= b.len() {
        false
    } else if i >= a.len() {
        true
    } else if a[i] != b[i] {
        a[i] < b[i]
    } else {
        less_from(a, b, i + 1)
    }
}

/// Whether `a` comes before `b` in the order of texts.
pub open spec fn text_less(a: Seq<char>, b: Seq<char>) -> bool {
    less_from(a, b, 0)
}

/// Executable form of [`text_less`].
pub fn is_less(a: &[char], b: &[char]) -> (r: bool)
    ensures
        r == text_less(a@, b@),
{
    let mut i: usize = 0;
    loop
        invariant
            i <= a@.len(),
            less_from(a@, b@, i as int) == text_less(a@, b@),
        decreases a@.len() - i,
    {
        if i >= b.len() {
            return false;
        }
        if i >= a.len() {
            return true;
        }
        if a[i] != b[i] {
            return a[i] < b[i];
        }
        i += 1;
    }
}

/// The first index at or after `p` of `sorted` whose line does not come
/// before `x`, or the length of `sorted`.
pub open spec fn insert_pos(sorted: Seq<Seq<char>>, x: Seq<char>, p: int) -> int
    decreases sorted.len() - p,
{
    if p < 0 || p >= sorted.len() {
        sorted.len() as int
    } else if text_less(sorted[p], x) {
        insert_pos(sorted, x, p + 1)
    } else {
        p
    }
}

/// What [`insert_pos`] returns lies between `p` and the length.
pub proof fn lemma_insert_pos(sorted: Seq<Seq<char>>, x: Seq<char>, p: int)
    requires
        0 <= p <= sorted.len(),
    ensures
        p <= insert_pos(sorted, x, p) <= sorted.len(),
    decreases sorted.len() - p,
{
    if p < sorted.len() && text_less(sorted[p], x) {
        lemma_insert_pos(sorted, x, p + 1);
    }
}

/// The sorted lines `sorted` with the line `x` in its place; a line that is
/// there already is not put in again.
pub open spec fn sorted_insert(sorted: Seq<Seq<char>>, x: Seq<char>) -> Seq<Seq<char>> {
    let p = insert_pos(sorted, x, 0);
    if p < sorted.len() && sorted[p] == x {
        sorted
    } else {
        sorted.insert(p, x)
    }
}

/// The import lines among `ls`, each without the white space at its start,
/// sorted, and each once.
pub open spec fn import_lines(ls: Seq<Seq<char>>) -> Seq<Seq<char>>
    decreases ls.len(),
{
    if ls.len() == 0 {
        Seq::empty()
    } else if is_import_line(ls.last()) {
        sorted_insert(import_lines(ls.drop_last()), trim_start(ls.last()))
    } else {
        import_lines(ls.drop_last())
    }
}

/// The lines among `ls` that are no import lines, in order.
pub open spec fn other_lines(ls: Seq<Seq<char>>) -> Seq<Seq<char>>
    decreases ls.len(),
{
    if ls.len() == 0 {
        Seq::empty()
    } else if is_import_line(ls.last()) {
        other_lines(ls.drop_last())
    } else {
        other_lines(ls.drop_last()).push(ls.last())
    }
}

/// The line that closes a block of script metadata.
pub open spec fn block_close() -> Seq<char> {
    "# ///"@
}

/// The index of the line that closes the block of script metadata whose
/// lines go on at index `j` of `ls`, or `-1`: only comment lines may stand
/// before the closing line.
pub open spec fn meta_close(ls: Seq<Seq<char>>, j: int) -> int
    decreases ls.len() - j,
{
    if j < 0 || j >= ls.len() {
        -1
    } else if ls[j] == block_close() {
        j
    } else if ls[j].len() > 0 && ls[j][0] == '#' {
        meta_close(ls, j + 1)
    } else {
        -1
    }
}

/// What [`meta_close`] returns is `-1` or an index from `j` on.
pub proof fn lemma_meta_close(ls: Seq<Seq<char>>, j: int)
    requires
        0 <= j <= ls.len(),
    ensures
        meta_close(ls, j) == -1 || j <= meta_close(ls, j) < ls.len(),
    decreases ls.len() - j,
{
    if j < ls.len() && ls[j] != block_close() && ls[j].len() > 0 && ls[j][0] == '#' {
        lemma_meta_close(ls, j + 1);
    }
}

/// How many lines the block of script metadata has that starts at index `a`
/// of `ls`; `0` where no well-formed block starts there.
pub open spec fn meta_len(ls: Seq<Seq<char>>, a: int) -> int {
    if 0 <= a < ls.len() && is_block_marker(ls[a]) && ls[a] != block_close() && meta_close(
        ls,
        a + 1,
    ) >= 0 {
        meta_close(ls, a + 1) + 1 - a
    } else {
        0
    }
}

/// How many lines stay at the head of a text with the lines `ls`: an
/// interpreter line, and a block of script metadata after it.
pub open spec fn header_len(ls: Seq<Seq<char>>) -> int {
    let a = if ls.len() > 0 && is_shebang(ls[0]) {
        1int
    } else {
        0int
    };
    a + meta_len(ls, a)
}

/// The lines `ls`, or one empty line where there are none.
pub open spec fn or_empty_line(ls: Seq<Seq<char>>) -> Seq<Seq<char>> {
    if ls.len() == 0 {
        seq![Seq::<char>::empty()]
    } else {
        ls
    }
}

/// The lines of the text that `s` becomes: the header, an empty line after a
/// header, the import lines, and the other lines. Where there is no import
/// line, an empty line stands in their place, and likewise for the others.
pub open spec fn consolidated_lines(s: Seq<char>) -> Seq<Seq<char>> {
    let ls = lines(s);
    let h = header_len(ls);
    let header = if h > 0 {
        ls.take(h).push(Seq::<char>::empty())
    } else {
        Seq::<Seq<char>>::empty()
    };
    header + or_empty_line(import_lines(ls.skip(h))) + or_empty_line(other_lines(ls.skip(h)))
}

/// The text `s` with its import lines gathered at its head. Every line of the
/// result ends with a line feed.
pub open spec fn consolidated(s: Seq<char>) -> Seq<char> {
    unlines(consolidated_lines(s))
}

/// Puts the line `x` into the sorted lines `sorted`.
fn insert_line(sorted: &mut Vec<Vec<char>>, x: Vec<char>)
    ensures
        views_of(final(sorted)@) == sorted_insert(views_of(old(sorted)@), x@),
{
    let ghost before = views_of(sorted@);
    let mut p: usize = 0;
    while p < sorted.len() && is_less(sorted[p].as_slice(), x.as_slice())
        invariant
            p <= sorted@.len(),
            before == views_of(sorted@),
            insert_pos(before, x@, p as int) == insert_pos(before, x@, 0),
        decreases sorted@.len() - p,
    {
        p += 1;
    }
    if p < sorted.len() && same_chars(sorted[p].as_slice(), x.as_slice()) {
        return ;
    }
    proof {
        assert(views_of(sorted@.insert(p as int, x)) =~= before.insert(p as int, x@));
    }
    sorted.insert(p, x);
}

/// Appends each line of `ls` and a line feed after it to `out`.
fn push_lines(out: &mut Vec<char>, ls: &Vec<Vec<char>>, from: usize, to: usize)
    requires
        from <= to <= ls@.len(),
    ensures
        final(out)@ == old(out)@ + unlines(views_of(ls@).subrange(from as int, to as int)),
{
    let ghost all = views_of(ls@);
    let mut k: usize = from;
    proof {
        assert(all.subrange(from as int, from as int) =~= Seq::<Seq<char>>::empty());
        assert(old(out)@ + Seq::<char>::empty() =~= old(out)@);
    }
    while k < to
        invariant
            from <= k <= to <= ls@.len(),
            all == views_of(ls@),
            out@ == old(out)@ + unlines(all.subrange(from as int, k as int)),
        decreases to - k,
    {
        proof {
            let next = all.subrange(from as int, k + 1);
            assert(next.drop_last() =~= all.subrange(from as int, k as int));
            assert(next.last() == ls@[k as int]@);
            assert(old(out)@ + (unlines(next.drop_last()) + next.last() + seq!['\n']) =~= old(
                out,
            )@ + unlines(next.drop_last()) + next.last() + seq!['\n']);
        }
        push_all(out, ls[k].as_slice());
        out.push('\n');
        k += 1;
    }
}

/// Executable form of [`meta_close`].
fn find_meta_close(ls: &Vec<Vec<char>>, from: usize) -> (r: Option<usize>)
    requires
        from <= ls@.len(),
    ensures
        match r {
            Some(c) => c as int == meta_close(views_of(ls@), from as int) && from <= c < ls@.len(),
            None => meta_close(views_of(ls@), from as int) == -1,
        },
{
    let marker = to_chars("# ///");
    let ghost all = views_of(ls@);
    let mut j: usize = from;
    while j < ls.len()
        invariant
            from <= j <= ls@.len(),
            all == views_of(ls@),
            marker@ == block_close(),
            meta_close(all, j as int) == meta_close(all, from as int),
        decreases ls@.len() - j,
    {
        if same_chars(ls[j].as_slice(), marker.as_slice()) {
            return Some(j);
        } else if ls[j].len() > 0 && ls[j][0] == '#' {
            j += 1;
        } else {
            return None;
        }
    }
    None
}

/// Executable form of [`header_len`].
fn find_header_len(ls: &Vec<Vec<char>>) -> (h: usize)
    ensures
        h as int == header_len(views_of(ls@)),
        h <= ls@.len(),
{
    let shebang = to_chars("#!");
    let marker = to_chars("# ///");
    let mut a: usize = 0;
    if ls.len() > 0 && has_at(ls[0].as_slice(), 0, shebang.as_slice()) {
        a = 1;
    }
    if a < ls.len() && has_at(ls[a].as_slice(), 0, marker.as_slice()) && !same_chars(
        ls[a].as_slice(),
        marker.as_slice(),
    ) {
        match find_meta_close(ls, a + 1) {
            Some(c) => {
                return c + 1;
            },
            None => {},
        }
    }
    a
}

/// One empty line is one line feed.
pub proof fn lemma_unlines_empty_line()
    ensures
        unlines(seq![Seq::<char>::empty()]) == seq!['\n'],
{
    let one = seq![Seq::<char>::empty()];
    assert(one.drop_last() =~= Seq::<Seq<char>>::empty());
    assert(one.last() =~= Seq::<char>::empty());
    assert(unlines(one) =~= unlines(one.drop_last()) + one.last() + seq!['\n']);
    assert(unlines(one) =~= seq!['\n']);
}

/// Gathers the import lines of `s` at its head.
pub fn consolidate_chars(s: &[char]) -> (out: Vec<char>)
    ensures
        out@ == consolidated(s@),
{
    let ls = split_lines(s);
    let ghost all = views_of(ls@);
    let h = find_header_len(&ls);
    let mut found: Vec<Vec<char>> = Vec::new();
    let mut others: Vec<Vec<char>> = Vec::new();
    let ghost body = all.skip(h as int);
    let mut k: usize = h;
    proof {
        assert(body.take(0) =~= Seq::<Seq<char>>::empty());
        assert(views_of(found@) =~= Seq::<Seq<char>>::empty());
        assert(views_of(others@) =~= Seq::<Seq<char>>::empty());
    }
    while k < ls.len()
        invariant
            h <= k <= ls@.len(),
            all == views_of(ls@),
            body == all.skip(h as int),
            views_of(found@) == import_lines(body.take(k - h)),
            views_of(others@) == other_lines(body.take(k - h)),
        decreases ls@.len() - k,
    {
        let line = ls[k].as_slice();
        proof {
            assert(body.take(k - h + 1).drop_last() =~= body.take(k - h));
            assert(body.take(k - h + 1).last() == line@);
        }
        if import_line(line) {
            let start = after_spaces(line, 0);
            let trimmed = copy_range(line, start, line.len());
            insert_line(&mut found, trimmed);
        } else {
            let whole = copy_range(line, 0, line.len());
            proof {
                assert(whole@ =~= line@);
                assert(views_of(others@.push(whole)) =~= views_of(others@).push(line@));
            }
            others.push(whole);
        }
        k += 1;
    }
    proof {
        assert(body.take(k - h) =~= body);
    }
    let mut out: Vec<char> = Vec::new();
    let ghost header = if h > 0 {
        all.take(h as int).push(Seq::<char>::empty())
    } else {
        Seq::<Seq<char>>::empty()
    };
    push_lines(&mut out, &ls, 0, h);
    if h > 0 {
        out.push('\n');
    }
    proof {
        assert(all.subrange(0, h as int) =~= all.take(h as int));
        if h > 0 {
            assert(header.drop_last() =~= all.take(h as int));
            assert(unlines(header) =~= unlines(all.take(h as int)) + Seq::<char>::empty()
                + seq!['\n']);
        }
        assert(out@ =~= unlines(header));
    }
    let ghost part_imports = or_empty_line(views_of(found@));
    let ghost part_others = or_empty_line(views_of(others@));
    if found.len() == 0 {
        out.push('\n');
        proof {
            lemma_unlines_empty_line();
        }
    } else {
        push_lines(&mut out, &found, 0, found.len());
        proof {
            assert(views_of(found@).subrange(0, found@.len() as int) =~= views_of(found@));
        }
    }
    assert(out@ =~= unlines(header) + unlines(part_imports));
    if others.len() == 0 {
        out.push('\n');
        proof {
            lemma_unlines_empty_line();
        }
    } else {
        push_lines(&mut out, &others, 0, others.len());
        proof {
            assert(views_of(others@).subrange(0, others@.len() as int) =~= views_of(others@));
        }
    }
    proof {
        assert(out@ =~= unlines(header) + unlines(part_imports) + unlines(part_others));
        lemma_unlines_add(header, part_imports);
        lemma_unlines_add(header + part_imports, part_others);
    }
    out
}

/// The text `content` with its import lines gathered at its head.
pub fn post_process_imports(content: &str) -> (out: String)
    ensures
        out@ == consolidated(content@),
{
    let chars = to_chars(content);
    let out = consolidate_chars(chars.as_slice());
    to_string(out.as_slice())
}

/// No text comes before itself.
pub proof fn lemma_less_irreflexive(a: Seq<char>, i: int)
    requires
        0 <= i,
    ensures
        !less_from(a, a, i),
    decreases a.len() - i,
{
    if i < a.len() {
        lemma_less_irreflexive(a, i + 1);
    }
}

/// Of two texts that differ from index `i` on and agree before it, one comes
/// before the other.
pub proof fn lemma_less_total(a: Seq<char>, b: Seq<char>, i: int)
    requires
        0 <= i <= a.len(),
        i <= b.len(),
        a.subrange(0, i) == b.subrange(0, i),
        a != b,
    ensures
        less_from(a, b, i) || less_from(b, a, i),
    decreases a.len() - i,
{
    if i < a.len() && i < b.len() {
        if a[i] == b[i] {
            assert(a.subrange(0, i + 1) =~= a.subrange(0, i).push(a[i]));
            assert(b.subrange(0, i + 1) =~= b.subrange(0, i).push(b[i]));
            lemma_less_total(a, b, i + 1);
        }
    } else if i >= a.len() && i >= b.len() {
        assert(a =~= a.subrange(0, i));
        assert(b =~= b.subrange(0, i));
    }
}

/// The order of texts is transitive.
pub proof fn lemma_less_transitive(a: Seq<char>, b: Seq<char>, c: Seq<char>, i: int)
    requires
        0 <= i,
        less_from(a, b, i),
        less_from(b, c, i),
    ensures
        less_from(a, c, i),
    decreases a.len() - i,
{
    if i < a.len() && i < b.len() && i < c.len() {
        if a[i] == b[i] && b[i] == c[i] {
            lemma_less_transitive(a, b, c, i + 1);
        }
    }
}

/// Whether each line of `v` comes before every later one.
pub open spec fn strictly_sorted(v: Seq<Seq<char>>) -> bool {
    forall|i: int, j: int| 0 <= i < j < v.len() ==> text_less(#[trigger] v[i], #[trigger] v[j])
}

/// Every line before [`insert_pos`] comes before `x`, and the line at it does
/// not.
pub proof fn lemma_insert_pos_splits(sorted: Seq<Seq<char>>, x: Seq<char>, p: int)
    requires
        0 <= p <= sorted.len(),
    ensures
        forall|k: int| p <= k < insert_pos(sorted, x, p) ==> text_less(#[trigger] sorted[k], x),
        insert_pos(sorted, x, p) < sorted.len() ==> !text_less(sorted[insert_pos(sorted, x, p)], x),
    decreases sorted.len() - p,
{
    lemma_insert_pos(sorted, x, p);
    if p < sorted.len() && text_less(sorted[p], x) {
        lemma_insert_pos_splits(sorted, x, p + 1);
    }
}

/// Putting a line into sorted lines keeps them sorted, with each line once,
/// and adds that line and no other.
pub proof fn lemma_sorted_insert(sorted: Seq<Seq<char>>, x: Seq<char>)
    requires
        strictly_sorted(sorted),
    ensures
        strictly_sorted(sorted_insert(sorted, x)),
        forall|y: Seq<char>| #[trigger]
            sorted_insert(sorted, x).contains(y) <==> sorted.contains(y) || y == x,
{
    let p = insert_pos(sorted, x, 0);
    lemma_insert_pos(sorted, x, 0);
    lemma_insert_pos_splits(sorted, x, 0);
    let out = sorted_insert(sorted, x);
    if p < sorted.len() && sorted[p] == x {
        assert forall|y: Seq<char>| #[trigger] out.contains(y) <==> sorted.contains(y) || y
            == x by {
            if y == x {
                assert(sorted[p] == y);
            }
        }
    } else {
        assert(out == sorted.insert(p, x));
        if p < sorted.len() {
            assert(sorted[p].subrange(0, 0) =~= x.subrange(0, 0));
            lemma_less_total(sorted[p], x, 0);
        }
        assert forall|i: int, j: int| 0 <= i < j < out.len() implies text_less(
            #[trigger] out[i],
            #[trigger] out[j],
        ) by {
            if j < p {
                assert(out[i] == sorted[i] && out[j] == sorted[j]);
            } else if j == p {
                assert(out[i] == sorted[i]);
            } else if i < p {
                assert(out[i] == sorted[i] && out[j] == sorted[j - 1]);
            } else if i == p {
                assert(out[j] == sorted[j - 1]);
                if j - 1 > p {
                    lemma_less_transitive(x, sorted[p], sorted[j - 1], 0);
                }
            } else {
                assert(out[i] == sorted[i - 1] && out[j] == sorted[j - 1]);
            }
        }
        assert forall|y: Seq<char>| #[trigger] out.contains(y) <==> sorted.contains(y) || y
            == x by {
            if out.contains(y) {
                let k = out.index_of(y);
                if k < p {
                    assert(sorted[k] == y);
                } else if k > p {
                    assert(sorted[k - 1] == y);
                }
            }
            if sorted.contains(y) {
                let k = sorted.index_of(y);
                if k < p {
                    assert(out[k] == y);
                } else {
                    assert(out[k + 1] == y);
                }
            }
            if y == x {
                assert(out[p] == y);
            }
        }
    }
}

/// The import lines that are gathered are sorted, each is there once, and
/// they are the import lines of the text without the white space at their
/// start, and no others.
pub proof fn lemma_import_lines(ls: Seq<Seq<char>>)
    ensures
        strictly_sorted(import_lines(ls)),
        forall|y: Seq<char>| #[trigger]
            import_lines(ls).contains(y) <==> exists|j: int|
                0 <= j < ls.len() && is_import_line(ls[j]) && y == #[trigger] trim_start(ls[j]),
    decreases ls.len(),
{
    if ls.len() > 0 {
        let head = ls.drop_last();
        lemma_import_lines(head);
        if is_import_line(ls.last()) {
            lemma_sorted_insert(import_lines(head), trim_start(ls.last()));
        }
        assert forall|y: Seq<char>| #[trigger]
            import_lines(ls).contains(y) <==> exists|j: int|
                0 <= j < ls.len() && is_import_line(ls[j]) && y == #[trigger] trim_start(
                    ls[j],
                ) by {
            if import_lines(ls).contains(y) {
                if import_lines(head).contains(y) {
                    let j = choose|j: int|
                        0 <= j < head.len() && is_import_line(head[j]) && y == #[trigger] trim_start(
                            head[j],
                        );
                    assert(ls[j] == head[j]);
                } else {
                    assert(y == trim_start(ls[ls.len() - 1]));
                }
            }
            if exists|j: int|
                0 <= j < ls.len() && is_import_line(ls[j]) && y == #[trigger] trim_start(ls[j]) {
                let j = choose|j: int|
                    0 <= j < ls.len() && is_import_line(ls[j]) && y == #[trigger] trim_start(ls[j]);
                if j < head.len() {
                    assert(head[j] == ls[j]);
                }
            }
        }
    }
}

} // verus!

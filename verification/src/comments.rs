//! Dropping comments.
//!
//! A `#` starts a comment only where it stands in no string. Strings in
//! single or double quotes end with their line; a string in triple quotes may
//! run over many lines. A first line that starts with `#!` stays, and so does
//! every line of a block of script metadata, which a line that starts with
//! `# ///` opens and the next such line closes.

use crate::imports::{find_last_solid, last_solid};
use crate::text::{
    all_space, copy_range, ends_with_newline, has_at, has_final_newline, is_all_space, join_lines,
    lemma_lines_are_lines, lemma_text_of_its_lines, lines, occurs_at, split_lines, text_of_lines,
    to_chars, to_string, views_of,
};
use vstd::prelude::*;

verus! {

/// Where a scan stands with regard to strings.
#[derive(Clone, Copy, Debug)]
pub enum Scan {
    /// In no string.
    Code,
    /// In a string that the given quote character opened.
    Short(char),
    /// In a string that three of the given quote character opened.
    Long(char),
}

/// A single or a double quote.
pub open spec fn is_quote(c: char) -> bool {
    c == '"' || c == '\''
}

/// Whether three of the character `q` stand at index `i` of `line`.
pub open spec fn is_triple(line: Seq<char>, i: int, q: char) -> bool {
    0 <= i && i + 2 < line.len() && line[i] == q && line[i + 1] == q && line[i + 2] == q
}

/// The scan of `line` from index `i` on, begun in the state `st`: the index
/// of the `#` that starts a comment, or `-1` where there is none, and the
/// state in which the scan ends.
///
/// In a long string only three of its quote character end it. In a short
/// string a backslash makes the next character part of the string, and the
/// quote character ends it. In code a `#` starts a comment, three quote
/// characters open a long string, and one opens a short string.
pub open spec fn scan_line(line: Seq<char>, i: int, st: Scan) -> (int, Scan)
    decreases line.len() - i,
{
    if i < 0 || i >= line.len() {
        (-1, st)
    } else {
        match st {
            Scan::Long(q) => if is_triple(line, i, q) {
                scan_line(line, i + 3, Scan::Code)
            } else {
                scan_line(line, i + 1, st)
            },
            Scan::Short(q) => if line[i] == '\\' {
                if i + 1 >= line.len() {
                    (-1, st)
                } else {
                    scan_line(line, i + 2, st)
                }
            } else if line[i] == q {
                scan_line(line, i + 1, Scan::Code)
            } else {
                scan_line(line, i + 1, st)
            },
            Scan::Code => if line[i] == '#' {
                (i, Scan::Code)
            } else if is_quote(line[i]) {
                if is_triple(line, i, line[i]) {
                    scan_line(line, i + 3, Scan::Long(line[i]))
                } else {
                    scan_line(line, i + 1, Scan::Short(line[i]))
                }
            } else {
                scan_line(line, i + 1, st)
            },
        }
    }
}

/// The comment index that [`scan_line`] gives is `-1` or an index of the line
/// that holds a `#`.
pub proof fn lemma_scan_line(line: Seq<char>, i: int, st: Scan)
    requires
        0 <= i <= line.len(),
    ensures
        scan_line(line, i, st).0 == -1 || (i <= scan_line(line, i, st).0 < line.len()
            && line[scan_line(line, i, st).0] == '#'),
    decreases line.len() - i,
{
    if i < line.len() {
        match st {
            Scan::Long(q) => if is_triple(line, i, q) {
                lemma_scan_line(line, i + 3, Scan::Code);
            } else {
                lemma_scan_line(line, i + 1, st);
            },
            Scan::Short(q) => if line[i] == '\\' {
                if i + 1 < line.len() {
                    lemma_scan_line(line, i + 2, st);
                }
            } else if line[i] == q {
                lemma_scan_line(line, i + 1, Scan::Code);
            } else {
                lemma_scan_line(line, i + 1, st);
            },
            Scan::Code => if line[i] == '#' {
            } else if is_quote(line[i]) {
                if is_triple(line, i, line[i]) {
                    lemma_scan_line(line, i + 3, Scan::Long(line[i]));
                } else {
                    lemma_scan_line(line, i + 1, Scan::Short(line[i]));
                }
            } else {
                lemma_scan_line(line, i + 1, st);
            },
        }
    }
}

/// Executable form of [`scan_line`] from the start of the line.
pub fn scan(line: &[char], start: Scan) -> (r: (Option<usize>, Scan))
    ensures
        scan_line(line@, 0, start) == (
            match r.0 {
                Some(c) => c as int,
                None => -1int,
            },
            r.1,
        ),
        r.0 matches Some(c) ==> c < line@.len(),
{
    let mut i: usize = 0;
    let mut st = start;
    while i < line.len()
        invariant
            i <= line@.len(),
            scan_line(line@, i as int, st) == scan_line(line@, 0, start),
        decreases line@.len() - i,
    {
        let c = line[i];
        match st {
            Scan::Long(q) => {
                if line.len() - i > 2 && c == q && line[i + 1] == q && line[i + 2] == q {
                    st = Scan::Code;
                    i += 3;
                } else {
                    i += 1;
                }
            },
            Scan::Short(q) => {
                if c == '\\' {
                    if i + 1 >= line.len() {
                        return (None, st);
                    }
                    i += 2;
                } else if c == q {
                    st = Scan::Code;
                    i += 1;
                } else {
                    i += 1;
                }
            },
            Scan::Code => {
                if c == '#' {
                    return (Some(i), Scan::Code);
                } else if c == '"' || c == '\'' {
                    if line.len() - i > 2 && line[i + 1] == c && line[i + 2] == c {
                        st = Scan::Long(c);
                        i += 3;
                    } else {
                        st = Scan::Short(c);
                        i += 1;
                    }
                } else {
                    i += 1;
                }
            },
        }
    }
    (None, st)
}

/// The state in which the next line starts after a line that ended in the
/// state `st`: a long string goes on, a short one does not.
pub open spec fn carried(st: Scan) -> Scan {
    match st {
        Scan::Long(q) => st,
        _ => Scan::Code,
    }
}

/// Whether `line` opens or closes a block of script metadata.
pub open spec fn is_block_marker(line: Seq<char>) -> bool {
    occurs_at(line, 0, "# ///"@)
}

/// Whether `line` is an interpreter line.
pub open spec fn is_shebang(line: Seq<char>) -> bool {
    occurs_at(line, 0, "#!"@)
}

/// What the lines of a text have come to when some of them are read.
pub struct Progress {
    /// Whether a block of script metadata is open.
    pub in_block: bool,
    /// The string state in which the next line starts.
    pub quote: Scan,
    /// The lines kept so far.
    pub kept: Seq<Seq<char>>,
}

/// What is left of `line`, read in the state `quote`: the whole line where it
/// has no comment, nothing where it holds a comment only, else what stands
/// before the comment without the white space at its end.
pub open spec fn code_of(line: Seq<char>, quote: Scan) -> Option<Seq<char>> {
    let c = scan_line(line, 0, quote).0;
    if c < 0 {
        Some(line)
    } else if all_space(line.subrange(0, c)) {
        None
    } else {
        Some(line.subrange(0, last_solid(line, 0, c)))
    }
}

/// The progress after the lines `ls`, which are the first lines of a text.
pub open spec fn progress(ls: Seq<Seq<char>>) -> Progress
    decreases ls.len(),
{
    if ls.len() == 0 {
        Progress { in_block: false, quote: Scan::Code, kept: Seq::empty() }
    } else {
        let before = progress(ls.drop_last());
        let line = ls.last();
        if ls.len() == 1 && is_shebang(line) {
            Progress { kept: before.kept.push(line), ..before }
        } else if before.quote is Code && is_block_marker(line) {
            Progress { in_block: !before.in_block, kept: before.kept.push(line), ..before }
        } else if before.in_block {
            Progress { kept: before.kept.push(line), ..before }
        } else {
            Progress {
                in_block: false,
                quote: carried(scan_line(line, 0, before.quote).1),
                kept: match code_of(line, before.quote) {
                    Some(code) => before.kept.push(code),
                    None => before.kept,
                },
            }
        }
    }
}

/// The text `s` without its comments. What is left ends with a line feed if
/// and only if `s` does; where nothing is left, the result is empty.
pub open spec fn without_comments(s: Seq<char>) -> Seq<char> {
    text_of_lines(progress(lines(s)).kept, ends_with_newline(s))
}

/// Drops the comments of `s`.
pub fn strip_comments_chars(s: &[char]) -> (out: Vec<char>)
    ensures
        out@ == without_comments(s@),
{
    let ls = split_lines(s);
    let marker = to_chars("# ///");
    let shebang = to_chars("#!");
    let ghost all = views_of(ls@);
    let mut kept: Vec<Vec<char>> = Vec::new();
    let mut in_block = false;
    let mut quote = Scan::Code;
    let mut k: usize = 0;
    proof {
        assert(all.take(0) =~= Seq::<Seq<char>>::empty());
        assert(views_of(kept@) =~= Seq::<Seq<char>>::empty());
    }
    while k < ls.len()
        invariant
            k <= ls@.len(),
            all == views_of(ls@),
            marker@ == "# ///"@,
            shebang@ == "#!"@,
            progress(all.take(k as int)) == (Progress {
                in_block,
                quote,
                kept: views_of(kept@),
            }),
        decreases ls@.len() - k,
    {
        let line = ls[k].as_slice();
        proof {
            assert(all.take(k + 1).drop_last() =~= all.take(k as int));
            assert(all.take(k + 1).last() == line@);
        }
        let in_code = match quote {
            Scan::Code => true,
            _ => false,
        };
        if k == 0 && has_at(line, 0, shebang.as_slice()) {
            let whole = copy_range(line, 0, line.len());
            proof {
                assert(whole@ =~= line@);
                assert(views_of(kept@.push(whole)) =~= views_of(kept@).push(line@));
            }
            kept.push(whole);
        } else if in_code && has_at(line, 0, marker.as_slice()) {
            let whole = copy_range(line, 0, line.len());
            proof {
                assert(whole@ =~= line@);
                assert(views_of(kept@.push(whole)) =~= views_of(kept@).push(line@));
            }
            kept.push(whole);
            in_block = !in_block;
        } else if in_block {
            let whole = copy_range(line, 0, line.len());
            proof {
                assert(whole@ =~= line@);
                assert(views_of(kept@.push(whole)) =~= views_of(kept@).push(line@));
            }
            kept.push(whole);
        } else {
            let (comment, end) = scan(line, quote);
            match comment {
                None => {
                    let whole = copy_range(line, 0, line.len());
                    proof {
                        assert(whole@ =~= line@);
                        assert(views_of(kept@.push(whole)) =~= views_of(kept@).push(line@));
                    }
                    kept.push(whole);
                },
                Some(c) => {
                    let head = copy_range(line, 0, c);
                    if !is_all_space(head.as_slice()) {
                        let t = find_last_solid(line, 0, c);
                        let code = copy_range(line, 0, t);
                        proof {
                            assert(views_of(kept@.push(code)) =~= views_of(kept@).push(code@));
                        }
                        kept.push(code);
                    }
                },
            }
            quote =
            match end {
                Scan::Long(q) => end,
                _ => Scan::Code,
            };
        }
        k += 1;
    }
    proof {
        assert(all.take(k as int) =~= all);
    }
    join_lines(&kept, has_final_newline(s))
}

/// The text `content` without its comments.
pub fn strip_comments(content: &str) -> (out: String)
    ensures
        out@ == without_comments(content@),
{
    let chars = to_chars(content);
    let out = strip_comments_chars(chars.as_slice());
    to_string(out.as_slice())
}

/// Within a long string nothing is a comment: a line that is read inside a
/// string in triple quotes and does not hold the three quotes that close it
/// has no comment, whatever `#` it holds, and the string goes on after it.
pub proof fn lemma_long_string_hides(line: Seq<char>, i: int, q: char)
    requires
        0 <= i <= line.len(),
        forall|j: int| i <= j < line.len() ==> !is_triple(line, j, q),
    ensures
        scan_line(line, i, Scan::Long(q)) == (-1int, Scan::Long(q)),
    decreases line.len() - i,
{
    if i < line.len() {
        assert(!is_triple(line, i, q));
        lemma_long_string_hides(line, i + 1, q);
    }
}

/// Within a short string nothing is a comment: a line that is read inside a
/// string in single or double quotes and does not hold the quote that closes
/// it has no comment, whatever `#` it holds.
pub proof fn lemma_short_string_hides(line: Seq<char>, i: int, q: char)
    requires
        0 <= i <= line.len(),
        forall|j: int| i <= j < line.len() ==> line[j] != q,
    ensures
        scan_line(line, i, Scan::Short(q)).0 == -1,
    decreases line.len() - i,
{
    if i < line.len() {
        if line[i] == '\\' {
            if i + 1 < line.len() {
                lemma_short_string_hides(line, i + 2, q);
            }
        } else {
            lemma_short_string_hides(line, i + 1, q);
        }
    }
}

/// A line without `#` has no comment and is kept as it is.
pub proof fn lemma_no_hash_no_comment(line: Seq<char>, st: Scan)
    requires
        forall|j: int| 0 <= j < line.len() ==> line[j] != '#',
    ensures
        scan_line(line, 0, st).0 == -1,
        code_of(line, st) == Some(line),
{
    lemma_scan_line(line, 0, st);
}

/// A `#` starts a comment only in code: where a comment is found at an index,
/// the text before it, read from the same state, ends in code, and has no
/// comment of its own.
pub proof fn lemma_comment_starts_in_code(line: Seq<char>, i: int, st: Scan)
    requires
        0 <= i <= line.len(),
        scan_line(line, i, st).0 >= 0,
    ensures
        scan_line(line.subrange(0, scan_line(line, i, st).0), i, st) == (-1int, Scan::Code),
    decreases line.len() - i,
{
    lemma_scan_line(line, i, st);
    let c = scan_line(line, i, st).0;
    let head = line.subrange(0, c);
    if i == c {
        match st {
            Scan::Long(q) => {
                if is_triple(line, i, q) {
                    lemma_scan_line(line, i + 3, Scan::Code);
                } else {
                    lemma_scan_line(line, i + 1, st);
                }
            },
            Scan::Short(q) => {
                if line[i] == '\\' {
                    if i + 1 < line.len() {
                        lemma_scan_line(line, i + 2, st);
                    }
                } else if line[i] == q {
                    lemma_scan_line(line, i + 1, Scan::Code);
                } else {
                    lemma_scan_line(line, i + 1, st);
                }
            },
            Scan::Code => {},
        }
    } else if i < c {
        match st {
            Scan::Long(q) => {
                if is_triple(line, i, q) {
                    lemma_scan_line(line, i + 3, Scan::Code);
                    assert(is_triple(head, i, q));
                    lemma_comment_starts_in_code(line, i + 3, Scan::Code);
                } else {
                    assert(!is_triple(head, i, q));
                    lemma_comment_starts_in_code(line, i + 1, st);
                }
            },
            Scan::Short(q) => {
                if line[i] == '\\' {
                    lemma_scan_line(line, i + 2, st);
                    lemma_comment_starts_in_code(line, i + 2, st);
                } else if line[i] == q {
                    lemma_comment_starts_in_code(line, i + 1, Scan::Code);
                } else {
                    lemma_comment_starts_in_code(line, i + 1, st);
                }
            },
            Scan::Code => {
                if is_quote(line[i]) {
                    if is_triple(line, i, line[i]) {
                        lemma_scan_line(line, i + 3, Scan::Long(line[i]));
                        assert(is_triple(head, i, head[i]));
                        lemma_comment_starts_in_code(line, i + 3, Scan::Long(line[i]));
                    } else {
                        assert(!is_triple(head, i, head[i])) by {
                            if is_triple(head, i, head[i]) {
                                assert(head[i + 1] == line[i + 1]);
                                assert(head[i + 2] == line[i + 2]);
                            }
                        }
                        lemma_comment_starts_in_code(line, i + 1, Scan::Short(line[i]));
                    }
                } else {
                    lemma_comment_starts_in_code(line, i + 1, st);
                }
            },
        }
    }
}

/// Where no line holds a `#`, every line stays, and no block of script
/// metadata is open.
pub proof fn lemma_progress_without_hash(ls: Seq<Seq<char>>)
    requires
        forall|k: int, j: int| 0 <= k < ls.len() && 0 <= j < ls[k].len() ==> #[trigger] ls[k][j] != '#',
    ensures
        progress(ls).kept == ls,
        !progress(ls).in_block,
    decreases ls.len(),
{
    if ls.len() > 0 {
        let head = ls.drop_last();
        let line = ls.last();
        assert forall|k: int, j: int| 0 <= k < head.len() && 0 <= j < head[k].len() implies #[trigger] head[k][j]
            != '#' by {
            assert(head[k][j] == ls[k][j]);
        }
        lemma_progress_without_hash(head);
        reveal_strlit("#!");
        reveal_strlit("# ///");
        assert(!is_shebang(line)) by {
            if is_shebang(line) {
                assert(line.subrange(0, 2)[0] == '#');
                assert(ls[ls.len() - 1][0] == '#');
            }
        }
        assert(!is_block_marker(line)) by {
            if is_block_marker(line) {
                assert(line.subrange(0, 5)[0] == '#');
                assert(ls[ls.len() - 1][0] == '#');
            }
        }
        assert forall|j: int| 0 <= j < line.len() implies line[j] != '#' by {
            assert(ls[ls.len() - 1][j] != '#');
        }
        lemma_no_hash_no_comment(line, progress(head).quote);
        assert(head.push(line) =~= ls);
    }
}

/// A text without `#` is left as it is.
pub proof fn lemma_no_hash_unchanged(s: Seq<char>)
    requires
        forall|j: int| 0 <= j < s.len() ==> s[j] != '#',
    ensures
        without_comments(s) == s,
{
    let ls = lines(s);
    lemma_lines_are_lines(s, 0);
    assert forall|k: int, j: int| 0 <= k < ls.len() && 0 <= j < ls[k].len() implies #[trigger] ls[k][j]
        != '#' by {
        let (a, b) = choose|a: int, b: int| 0 <= a <= b <= s.len() && ls[k] == s.subrange(a, b);
        assert(ls[k][j] == s[a + j]);
    }
    lemma_progress_without_hash(ls);
    lemma_text_of_its_lines(s, 0);
    assert(s.subrange(0, s.len() as int) =~= s);
}

} // verus!

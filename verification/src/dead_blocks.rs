//! Blocks that are read for static typing only.
//!
//! A line `if TYPE_CHECKING:` opens such a block. The block holds that line
//! and every line after it up to the first one that is not blank and is
//! indented no deeper than the `if`. What such a block imports is no import of
//! the running program, so the blocks are cut out before imports are sought.

use crate::text::{
    after_blanks, find_next_line, has_at, is_blank, is_space, lemma_line_end, next_line, occurs_at,
    push_range, skip_blanks, space,
};
use vstd::prelude::*;

verus! {

/// The word `if`.
pub open spec fn kw_if() -> Seq<char> {
    seq!['i', 'f']
}

/// The name `TYPE_CHECKING`.
pub open spec fn kw_type_checking() -> Seq<char> {
    seq!['T', 'Y', 'P', 'E', '_', 'C', 'H', 'E', 'C', 'K', 'I', 'N', 'G']
}

/// The first index at or after `i` that holds a line feed or no white space,
/// or the length of `s`.
pub open spec fn skip_inline_space(s: Seq<char>, i: int) -> int
    decreases s.len() - i,
{
    if i < 0 || i >= s.len() {
        s.len() as int
    } else if is_space(s[i]) && s[i] != '\n' {
        skip_inline_space(s, i + 1)
    } else {
        i
    }
}

/// What [`skip_inline_space`] returns lies between `i` and the end.
pub proof fn lemma_skip_inline_space(s: Seq<char>, i: int)
    requires
        0 <= i <= s.len(),
    ensures
        i <= skip_inline_space(s, i) <= s.len(),
    decreases s.len() - i,
{
    if i < s.len() && is_space(s[i]) && s[i] != '\n' {
        lemma_skip_inline_space(s, i + 1);
    }
}

/// Executable form of [`skip_inline_space`].
pub fn after_inline_space(s: &[char], i: usize) -> (j: usize)
    requires
        i <= s.len(),
    ensures
        j == skip_inline_space(s@, i as int),
        i <= j <= s.len(),
{
    let mut j: usize = i;
    while j < s.len() && space(s[j]) && s[j] != '\n'
        invariant
            i <= j <= s.len(),
            skip_inline_space(s@, j as int) == skip_inline_space(s@, i as int),
        decreases s.len() - j,
    {
        j += 1;
    }
    j
}

/// Whether only white space stands between index `i` and the end of its line.
pub open spec fn rest_is_space(s: Seq<char>, i: int) -> bool {
    skip_inline_space(s, i) >= s.len() || s[skip_inline_space(s, i)] == '\n'
}

/// Whether the line that starts at index `i` of `s` is a guard: blanks, `if`,
/// at least one blank, `TYPE_CHECKING`, blanks, a colon, and white space to
/// the end of the line.
pub open spec fn is_guard_at(s: Seq<char>, i: int) -> bool {
    let a = skip_blanks(s, i);
    let b = a + 2;
    let c = skip_blanks(s, b);
    let d = skip_blanks(s, c + 13);
    &&& 0 <= i
    &&& occurs_at(s, a, kw_if())
    &&& b < s.len() && is_blank(s[b])
    &&& occurs_at(s, c, kw_type_checking())
    &&& d < s.len() && s[d] == ':'
    &&& rest_is_space(s, d + 1)
}

/// How far the line that starts at index `i` is indented: the number of
/// blanks at its start.
pub open spec fn indent_at(s: Seq<char>, i: int) -> int {
    skip_blanks(s, i) - i
}

/// Whether the line that starts at index `i` holds white space only.
pub open spec fn is_blank_line_at(s: Seq<char>, i: int) -> bool {
    rest_is_space(s, i)
}

/// Where a block ends whose guard is indented by `indent`, sought from the
/// line start `i` on: at the first line that is not blank and is indented by
/// `indent` or less, or at the end of `s`.
pub open spec fn block_end(s: Seq<char>, i: int, indent: int) -> int
    decreases s.len() - i,
{
    if i < 0 || i >= s.len() {
        s.len() as int
    } else if is_blank_line_at(s, i) || indent_at(s, i) > indent {
        proof {
            lemma_line_end(s, i);
        }
        block_end(s, next_line(s, i), indent)
    } else {
        i
    }
}

/// What [`block_end`] returns lies between `i` and the end.
pub proof fn lemma_block_end(s: Seq<char>, i: int, indent: int)
    requires
        0 <= i <= s.len(),
    ensures
        i <= block_end(s, i, indent) <= s.len(),
    decreases s.len() - i,
{
    if i < s.len() && (is_blank_line_at(s, i) || indent_at(s, i) > indent) {
        lemma_line_end(s, i);
        lemma_block_end(s, next_line(s, i), indent);
    }
}

/// The blocks of `s` that start at the line start `i` or later, each as the
/// pair of its first index and the index after its last, in order.
pub open spec fn dead_blocks_from(s: Seq<char>, i: int) -> Seq<(int, int)>
    decreases s.len() - i,
{
    if i < 0 || i >= s.len() {
        Seq::empty()
    } else {
        proof {
            lemma_line_end(s, i);
            lemma_block_end(s, next_line(s, i), indent_at(s, i));
        }
        if is_guard_at(s, i) {
            seq![(i, block_end(s, next_line(s, i), indent_at(s, i)))] + dead_blocks_from(
                s,
                block_end(s, next_line(s, i), indent_at(s, i)),
            )
        } else {
            dead_blocks_from(s, next_line(s, i))
        }
    }
}

/// The blocks of `s` that are read for static typing only.
pub open spec fn dead_blocks(s: Seq<char>) -> Seq<(int, int)> {
    dead_blocks_from(s, 0)
}

/// Whether `spans` are spans of a text of length `len` from index `from` on:
/// none empty, each within the text, and each starting where the one before
/// it ends or later.
pub open spec fn spans_ordered(spans: Seq<(int, int)>, from: int, len: int) -> bool
    decreases spans.len(),
{
    if spans.len() == 0 {
        0 <= from <= len
    } else {
        &&& 0 <= from <= spans[0].0 < spans[0].1 <= len
        &&& spans_ordered(spans.drop_first(), spans[0].1, len)
    }
}

/// The blocks found from a line start on are ordered spans of the text.
pub proof fn lemma_dead_blocks_ordered(s: Seq<char>, i: int)
    requires
        0 <= i <= s.len(),
    ensures
        spans_ordered(dead_blocks_from(s, i), i, s.len() as int),
    decreases s.len() - i,
{
    if i < s.len() {
        lemma_line_end(s, i);
        let n = next_line(s, i);
        if is_guard_at(s, i) {
            let e = block_end(s, n, indent_at(s, i));
            lemma_block_end(s, n, indent_at(s, i));
            lemma_dead_blocks_ordered(s, e);
            let all = dead_blocks_from(s, i);
            assert(all.drop_first() =~= dead_blocks_from(s, e));
        } else {
            lemma_dead_blocks_ordered(s, n);
            lemma_spans_ordered_earlier(dead_blocks_from(s, n), i, n, s.len() as int);
        }
    }
}

/// Spans that are ordered from `to` on are ordered from any earlier index on.
pub proof fn lemma_spans_ordered_earlier(spans: Seq<(int, int)>, from: int, to: int, len: int)
    requires
        0 <= from <= to,
        spans_ordered(spans, to, len),
    ensures
        spans_ordered(spans, from, len),
{
}

/// The text `s` from index `pos` on without the spans `spans`.
pub open spec fn without_spans(s: Seq<char>, spans: Seq<(int, int)>, pos: int) -> Seq<char>
    decreases spans.len(),
{
    if spans.len() == 0 {
        s.subrange(pos, s.len() as int)
    } else {
        s.subrange(pos, spans[0].0) + without_spans(s, spans.drop_first(), spans[0].1)
    }
}

/// The text `s` without its dead blocks.
pub open spec fn live_text(s: Seq<char>) -> Seq<char> {
    without_spans(s, dead_blocks(s), 0)
}

/// The spans of `v` as pairs of mathematical integers.
pub open spec fn span_views(v: Seq<(usize, usize)>) -> Seq<(int, int)> {
    Seq::new(v.len(), |k: int| (v[k].0 as int, v[k].1 as int))
}

/// The word `if` as characters.
fn word_if() -> (v: Vec<char>)
    ensures
        v@ == kw_if(),
{
    let v = vec!['i', 'f'];
    assert(v@ =~= kw_if());
    v
}

/// The name `TYPE_CHECKING` as characters.
fn word_type_checking() -> (v: Vec<char>)
    ensures
        v@ == kw_type_checking(),
{
    let v = vec!['T', 'Y', 'P', 'E', '_', 'C', 'H', 'E', 'C', 'K', 'I', 'N', 'G'];
    assert(v@ =~= kw_type_checking());
    v
}

/// Executable form of [`rest_is_space`].
pub fn only_space_to_eol(s: &[char], i: usize) -> (b: bool)
    requires
        i <= s.len(),
    ensures
        b == rest_is_space(s@, i as int),
{
    let j = after_inline_space(s, i);
    j >= s.len() || s[j] == '\n'
}

/// Executable form of [`is_guard_at`].
pub fn guard_at(s: &[char], i: usize) -> (b: bool)
    requires
        i <= s.len(),
    ensures
        b == is_guard_at(s@, i as int),
{
    let a = after_blanks(s, i);
    let w_if = word_if();
    if !has_at(s, a, w_if.as_slice()) {
        return false;
    }
    let b = a + 2;
    if b >= s.len() || !(s[b] == ' ' || s[b] == '\t') {
        return false;
    }
    let c = after_blanks(s, b);
    let w_tc = word_type_checking();
    if !has_at(s, c, w_tc.as_slice()) {
        return false;
    }
    let d = after_blanks(s, c + 13);
    if d >= s.len() || s[d] != ':' {
        return false;
    }
    only_space_to_eol(s, d + 1)
}

/// Executable form of [`block_end`].
pub fn find_block_end(s: &[char], i: usize, indent: usize) -> (e: usize)
    requires
        i <= s.len(),
    ensures
        e == block_end(s@, i as int, indent as int),
        i <= e <= s.len(),
{
    let mut e: usize = i;
    while e < s.len()
        invariant
            i <= e <= s.len(),
            block_end(s@, e as int, indent as int) == block_end(s@, i as int, indent as int),
        decreases s.len() - e,
    {
        let blank_line = only_space_to_eol(s, e);
        let a = after_blanks(s, e);
        if blank_line || a - e > indent {
            e = find_next_line(s, e);
        } else {
            return e;
        }
    }
    e
}

/// Finds the dead blocks of `s`.
pub fn find_dead_blocks(s: &[char]) -> (v: Vec<(usize, usize)>)
    ensures
        span_views(v@) == dead_blocks(s@),
        spans_ordered(dead_blocks(s@), 0, s@.len() as int),
{
    let mut v: Vec<(usize, usize)> = Vec::new();
    let mut i: usize = 0;
    while i < s.len()
        invariant
            i <= s.len(),
            span_views(v@) + dead_blocks_from(s@, i as int) == dead_blocks(s@),
        decreases s.len() - i,
    {
        let n = find_next_line(s, i);
        if guard_at(s, i) {
            let a = after_blanks(s, i);
            let e = find_block_end(s, n, a - i);
            proof {
                assert(span_views(v@.push((i, e))) =~= span_views(v@) + seq![(i as int, e as int)]);
            }
            v.push((i, e));
            i = e;
        } else {
            i = n;
        }
    }
    proof {
        assert(dead_blocks_from(s@, i as int) =~= Seq::<(int, int)>::empty());
        lemma_dead_blocks_ordered(s@, 0);
    }
    v
}

/// Cuts the spans `spans` out of `s`.
pub fn cut_spans(s: &[char], spans: &Vec<(usize, usize)>) -> (out: Vec<char>)
    requires
        spans_ordered(span_views(spans@), 0, s@.len() as int),
    ensures
        out@ == without_spans(s@, span_views(spans@), 0),
{
    let mut out: Vec<char> = Vec::new();
    let mut pos: usize = 0;
    let mut k: usize = 0;
    let ghost all = span_views(spans@);
    proof {
        assert(all.skip(0) =~= all);
    }
    while k < spans.len()
        invariant
            k <= spans@.len(),
            pos <= s@.len(),
            all == span_views(spans@),
            spans_ordered(all.skip(k as int), pos as int, s@.len() as int),
            out@ + without_spans(s@, all.skip(k as int), pos as int) == without_spans(s@, all, 0),
        decreases spans@.len() - k,
    {
        let (from, to) = spans[k];
        proof {
            assert(all.skip(k as int)[0] == (from as int, to as int));
            assert(all.skip(k as int).drop_first() =~= all.skip(k + 1));
        }
        push_range(&mut out, s, pos, from);
        pos = to;
        k += 1;
    }
    proof {
        assert(all.skip(k as int) =~= Seq::<(int, int)>::empty());
    }
    push_range(&mut out, s, pos, s.len());
    out
}

/// The text `s` without the blocks that are read for static typing only.
pub fn strip_dead_blocks(s: &[char]) -> (out: Vec<char>)
    ensures
        out@ == live_text(s@),
{
    let spans = find_dead_blocks(s);
    cut_spans(s, &spans)
}

/// A text without guard holds no dead block.
pub proof fn lemma_no_guard_no_block(s: Seq<char>, i: int)
    requires
        0 <= i <= s.len(),
        forall|j: int| i <= j < s.len() ==> !is_guard_at(s, j),
    ensures
        dead_blocks_from(s, i).len() == 0,
    decreases s.len() - i,
{
    if i < s.len() {
        lemma_line_end(s, i);
        lemma_no_guard_no_block(s, next_line(s, i));
    }
}

/// A text without guard is left as it is.
pub proof fn lemma_no_guard_unchanged(s: Seq<char>)
    requires
        forall|j: int| 0 <= j < s.len() ==> !is_guard_at(s, j),
    ensures
        live_text(s) == s,
{
    lemma_no_guard_no_block(s, 0);
    assert(s.subrange(0, s.len() as int) =~= s);
}

} // verus!

//! Dropping the lines that hold nothing.

use crate::text::{
    all_space, copy_range, ends_with_newline, has_final_newline, is_all_space, join_lines,
    lemma_text_of_its_lines, lines, split_lines, text_of_lines, to_chars, to_string, views_of,
};
use vstd::prelude::*;

verus! {

/// The lines of `ls` that hold more than white space, in order.
pub open spec fn solid_lines(ls: Seq<Seq<char>>) -> Seq<Seq<char>>
    decreases ls.len(),
{
    if ls.len() == 0 {
        Seq::empty()
    } else if all_space(ls.last()) {
        solid_lines(ls.drop_last())
    } else {
        solid_lines(ls.drop_last()).push(ls.last())
    }
}

/// The text `s` without its blank lines. What is left ends with a line feed
/// if and only if `s` does; where nothing is left, the result is empty.
pub open spec fn without_blank_lines(s: Seq<char>) -> Seq<char> {
    text_of_lines(solid_lines(lines(s)), ends_with_newline(s))
}

/// Every line of [`solid_lines`] holds more than white space and is a line of
/// `ls`.
pub proof fn lemma_solid_lines(ls: Seq<Seq<char>>)
    ensures
        forall|i: int|
            0 <= i < solid_lines(ls).len() ==> !all_space(#[trigger] solid_lines(ls)[i])
                && ls.contains(solid_lines(ls)[i]),
        forall|j: int| 0 <= j < ls.len() && !all_space(#[trigger] ls[j]) ==> solid_lines(ls).contains(ls[j]),
        solid_lines(ls).len() <= ls.len(),
    decreases ls.len(),
{
    if ls.len() > 0 {
        let head = ls.drop_last();
        lemma_solid_lines(head);
        let got = solid_lines(ls);
        assert forall|i: int| 0 <= i < got.len() implies !all_space(#[trigger] got[i])
            && ls.contains(got[i]) by {
            if i < solid_lines(head).len() {
                let j = head.index_of(solid_lines(head)[i]);
                assert(ls[j] == got[i]);
            } else {
                assert(ls[ls.len() - 1] == got[i]);
            }
        }
        assert forall|j: int| 0 <= j < ls.len() && !all_space(#[trigger] ls[j]) implies got.contains(
            ls[j],
        ) by {
            if j < head.len() {
                assert(head[j] == ls[j]);
                let i = solid_lines(head).index_of(ls[j]);
                assert(got[i] == ls[j]);
            } else {
                assert(got[got.len() - 1] == ls[j]);
            }
        }
    }
}

/// Drops the blank lines of `s`.
pub fn strip_blank_lines_chars(s: &[char]) -> (out: Vec<char>)
    ensures
        out@ == without_blank_lines(s@),
{
    let ls = split_lines(s);
    let mut kept: Vec<Vec<char>> = Vec::new();
    let mut k: usize = 0;
    let ghost all = views_of(ls@);
    while k < ls.len()
        invariant
            k <= ls@.len(),
            all == views_of(ls@),
            views_of(kept@) == solid_lines(all.take(k as int)),
        decreases ls@.len() - k,
    {
        proof {
            assert(all.take(k + 1).drop_last() =~= all.take(k as int));
            assert(all.take(k + 1).last() == ls@[k as int]@);
        }
        if !is_all_space(ls[k].as_slice()) {
            let line = copy_range(ls[k].as_slice(), 0, ls[k].len());
            proof {
                assert(line@ =~= ls@[k as int]@);
                assert(views_of(kept@.push(line)) =~= views_of(kept@).push(line@));
            }
            kept.push(line);
        }
        k += 1;
    }
    proof {
        assert(all.take(k as int) =~= all);
    }
    join_lines(&kept, has_final_newline(s))
}

/// The text `content` without its blank lines.
pub fn strip_blank_lines(content: &str) -> (out: String)
    ensures
        out@ == without_blank_lines(content@),
{
    let chars = to_chars(content);
    let out = strip_blank_lines_chars(chars.as_slice());
    to_string(out.as_slice())
}

/// Where no line holds white space only, every line stays.
pub proof fn lemma_all_solid(ls: Seq<Seq<char>>)
    requires
        forall|k: int| 0 <= k < ls.len() ==> !all_space(#[trigger] ls[k]),
    ensures
        solid_lines(ls) == ls,
    decreases ls.len(),
{
    if ls.len() > 0 {
        let head = ls.drop_last();
        assert forall|k: int| 0 <= k < head.len() implies !all_space(#[trigger] head[k]) by {
            assert(head[k] == ls[k]);
        }
        lemma_all_solid(head);
        assert(!all_space(ls[ls.len() - 1]));
        assert(head.push(ls.last()) =~= ls);
    }
}

/// A text without blank lines is left as it is.
pub proof fn lemma_no_blank_line_unchanged(s: Seq<char>)
    requires
        forall|k: int| 0 <= k < lines(s).len() ==> !all_space(#[trigger] lines(s)[k]),
    ensures
        without_blank_lines(s) == s,
{
    lemma_all_solid(lines(s));
    lemma_text_of_its_lines(s, 0);
    assert(s.subrange(0, s.len() as int) =~= s);
}

} // verus!

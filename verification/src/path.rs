//! Paths as plain text.
//!
//! A path is a text whose segments are separated by `'/'`. Two paths name the
//! same place when their segment lists are equal: empty segments and the
//! segments `.` and `..` do not count, so `/a//b`, `/a/./b` and `a/b/` all name
//! what `/a/b` names.

use crate::text::{copy_range, push_all, same_chars, views_of};
use vstd::prelude::*;

verus! {

/// The index of the first `'/'` at or after `i`, or the length of `p`.
pub open spec fn segment_end(p: Seq<char>, i: int) -> int
    decreases p.len() - i,
{
    if i < 0 || i >= p.len() {
        p.len() as int
    } else if p[i] == '/' {
        i
    } else {
        segment_end(p, i + 1)
    }
}

/// What [`segment_end`] returns lies between `i` and the end, and no separator
/// lies before it.
pub proof fn lemma_segment_end(p: Seq<char>, i: int)
    requires
        0 <= i <= p.len(),
    ensures
        i <= segment_end(p, i) <= p.len(),
        forall|j: int| i <= j < segment_end(p, i) ==> #[trigger] p[j] != '/',
        segment_end(p, i) < p.len() ==> p[segment_end(p, i)] == '/',
    decreases p.len() - i,
{
    if i < p.len() && p[i] != '/' {
        lemma_segment_end(p, i + 1);
    }
}

/// Executable form of [`segment_end`].
pub fn find_segment_end(p: &[char], i: usize) -> (e: usize)
    requires
        i <= p.len(),
    ensures
        e == segment_end(p@, i as int),
        i <= e <= p.len(),
{
    let mut e: usize = i;
    while e < p.len() && p[e] != '/'
        invariant
            i <= e <= p.len(),
            segment_end(p@, e as int) == segment_end(p@, i as int),
        decreases p.len() - e,
    {
        e += 1;
    }
    e
}

/// Whether `seg` is one of the segments that name no place of their own: the
/// empty segment, `.` and `..`.
pub open spec fn is_skipped_segment(seg: Seq<char>) -> bool {
    seg.len() == 0 || seg == seq!['.'] || seg == seq!['.', '.']
}

/// Executable form of [`is_skipped_segment`].
pub fn skipped_segment(seg: &[char]) -> (b: bool)
    ensures
        b == is_skipped_segment(seg@),
{
    if seg.len() == 0 {
        true
    } else if seg.len() == 1 {
        proof {
            if seg@[0] == '.' {
                assert(seg@ == seq!['.']);
            }
        }
        seg[0] == '.'
    } else if seg.len() == 2 {
        proof {
            if seg@[0] == '.' && seg@[1] == '.' {
                assert(seg@ == seq!['.', '.']);
            }
        }
        seg[0] == '.' && seg[1] == '.'
    } else {
        false
    }
}

/// The segments of `p` from index `i` on, without those that
/// [`is_skipped_segment`] names.
pub open spec fn segments_from(p: Seq<char>, i: int) -> Seq<Seq<char>>
    decreases p.len() - i,
{
    if i < 0 || i >= p.len() {
        Seq::empty()
    } else if p[i] == '/' {
        segments_from(p, i + 1)
    } else {
        proof {
            lemma_segment_end(p, i);
        }
        let seg = p.subrange(i, segment_end(p, i));
        if is_skipped_segment(seg) {
            segments_from(p, segment_end(p, i))
        } else {
            seq![seg] + segments_from(p, segment_end(p, i))
        }
    }
}

/// The segments of the path `p`: what decides which place it names.
pub open spec fn segments(p: Seq<char>) -> Seq<Seq<char>> {
    segments_from(p, 0)
}

/// Splits the path `p` into its segments.
pub fn split_path(p: &[char]) -> (v: Vec<Vec<char>>)
    ensures
        views_of(v@) == segments(p@),
{
    let mut v: Vec<Vec<char>> = Vec::new();
    let mut i: usize = 0;
    while i < p.len()
        invariant
            i <= p.len(),
            views_of(v@) + segments_from(p@, i as int) == segments(p@),
        decreases p.len() - i,
    {
        if p[i] == '/' {
            i += 1;
        } else {
            let e = find_segment_end(p, i);
            proof {
                lemma_segment_end(p@, i + 1);
            }
            let seg = copy_range(p, i, e);
            if !skipped_segment(seg.as_slice()) {
                proof {
                    assert(views_of(v@.push(seg)) == views_of(v@) + seq![seg@]);
                }
                v.push(seg);
            }
            i = e;
        }
    }
    assert(segments_from(p@, i as int) == Seq::<Seq<char>>::empty());
    v
}

/// Whether two segment lists are the same.
pub fn same_segments(a: &Vec<Vec<char>>, b: &Vec<Vec<char>>) -> (r: bool)
    ensures
        r == (views_of(a@) == views_of(b@)),
{
    if a.len() != b.len() {
        assert(views_of(a@).len() != views_of(b@).len());
        return false;
    }
    let mut i: usize = 0;
    while i < a.len()
        invariant
            i <= a.len(),
            a.len() == b.len(),
            forall|j: int| 0 <= j < i ==> a@[j]@ == b@[j]@,
        decreases a.len() - i,
    {
        if !same_chars(a[i].as_slice(), b[i].as_slice()) {
            assert(views_of(a@)[i as int] != views_of(b@)[i as int]);
            return false;
        }
        i += 1;
    }
    assert(views_of(a@) =~= views_of(b@));
    true
}

/// The absolute path with the segments `segs`: each segment after a `'/'`, and
/// `/` alone where there is none.
pub open spec fn absolute_path(segs: Seq<Seq<char>>) -> Seq<char>
    decreases segs.len(),
{
    if segs.len() == 0 {
        seq!['/']
    } else if segs.len() == 1 {
        seq!['/'] + segs[0]
    } else {
        absolute_path(segs.drop_last()) + seq!['/'] + segs.last()
    }
}

/// Executable form of [`absolute_path`].
pub fn make_absolute_path(segs: &Vec<Vec<char>>) -> (p: Vec<char>)
    ensures
        p@ == absolute_path(views_of(segs@)),
{
    let mut p: Vec<char> = Vec::new();
    if segs.len() == 0 {
        p.push('/');
        assert(p@ == seq!['/']);
        return p;
    }
    let ghost views = views_of(segs@);
    p.push('/');
    push_all(&mut p, segs[0].as_slice());
    assert(views.take(1).len() == 1);
    assert(p@ == seq!['/'] + views.take(1)[0]);
    let mut k: usize = 1;
    while k < segs.len()
        invariant
            1 <= k <= segs.len(),
            views == views_of(segs@),
            p@ == absolute_path(views.take(k as int)),
        decreases segs.len() - k,
    {
        proof {
            assert(views.take(k + 1).drop_last() == views.take(k as int));
            assert(views.take(k + 1).last() == segs@[k as int]@);
        }
        p.push('/');
        push_all(&mut p, segs[k].as_slice());
        k += 1;
    }
    assert(views.take(segs@.len() as int) == views);
    p
}

/// The index of the last `'/'` of `p` before index `i`, or `-1`.
pub open spec fn last_separator(p: Seq<char>, i: int) -> int
    decreases i,
{
    if i <= 0 || i > p.len() {
        -1
    } else if p[i - 1] == '/' {
        i - 1
    } else {
        last_separator(p, i - 1)
    }
}

/// The directory part of the path `p`: what stands before its last `'/'`. A
/// path without a separator has the empty directory part, and one whose only
/// separator is its first character has `/`.
pub open spec fn parent_dir(p: Seq<char>) -> Seq<char> {
    let k = last_separator(p, p.len() as int);
    if k < 0 {
        Seq::empty()
    } else if k == 0 {
        seq!['/']
    } else {
        p.subrange(0, k)
    }
}

/// Executable form of [`parent_dir`].
pub fn parent_of(p: &[char]) -> (d: Vec<char>)
    ensures
        d@ == parent_dir(p@),
{
    let mut i: usize = p.len();
    while i > 0 && p[i - 1] != '/'
        invariant
            i <= p.len(),
            last_separator(p@, i as int) == last_separator(p@, p@.len() as int),
        decreases i,
    {
        i -= 1;
    }
    if i == 0 {
        Vec::new()
    } else if i == 1 {
        let mut d: Vec<char> = Vec::new();
        d.push('/');
        assert(d@ == seq!['/']);
        d
    } else {
        copy_range(p, 0, i - 1)
    }
}

/// The path `rel` taken from the directory `dir`: `rel` itself where `dir` is
/// empty, else `dir`, one separator unless `dir` ends with one or `rel` is
/// empty, and `rel`.
pub open spec fn join_path(dir: Seq<char>, rel: Seq<char>) -> Seq<char> {
    if dir.len() == 0 {
        rel
    } else if rel.len() == 0 || dir.last() == '/' {
        dir + rel
    } else {
        dir + seq!['/'] + rel
    }
}

/// Executable form of [`join_path`].
pub fn join(dir: &[char], rel: &[char]) -> (p: Vec<char>)
    ensures
        p@ == join_path(dir@, rel@),
{
    let mut p: Vec<char> = Vec::new();
    push_all(&mut p, dir);
    if dir.len() > 0 && rel.len() > 0 && dir[dir.len() - 1] != '/' {
        p.push('/');
    }
    push_all(&mut p, rel);
    assert(Seq::<char>::empty() + dir@ == dir@);
    p
}

/// Whether `seg` can be a segment of a path: it holds no separator and is
/// none of the segments that do not count.
pub open spec fn is_segment(seg: Seq<char>) -> bool {
    !is_skipped_segment(seg) && forall|j: int| 0 <= j < seg.len() ==> seg[j] != '/'
}

/// Whether each of `segs` can be a segment of a path.
pub open spec fn are_segments(segs: Seq<Seq<char>>) -> bool {
    forall|k: int| 0 <= k < segs.len() ==> is_segment(#[trigger] segs[k])
}

/// The segments of a path can be segments of a path.
pub proof fn lemma_segments_are_segments(p: Seq<char>, i: int)
    requires
        0 <= i <= p.len(),
    ensures
        are_segments(segments_from(p, i)),
    decreases p.len() - i,
{
    if i < p.len() {
        if p[i] == '/' {
            lemma_segments_are_segments(p, i + 1);
        } else {
            lemma_segment_end(p, i);
            lemma_segment_end(p, i + 1);
            let e = segment_end(p, i);
            let seg = p.subrange(i, e);
            lemma_segments_are_segments(p, e);
            let rest = segments_from(p, e);
            if !is_skipped_segment(seg) {
                let got = segments_from(p, i);
                assert(got =~= seq![seg] + rest);
                assert forall|k: int| 0 <= k < got.len() implies is_segment(#[trigger] got[k]) by {
                    if k > 0 {
                        assert(got[k] == rest[k - 1]);
                    }
                }
            }
        }
    }
}

/// The end of a segment that is sought behind a prefix `p` lies as far behind
/// `p` as it lies in the path without the prefix.
pub proof fn lemma_segment_end_shift(p: Seq<char>, r: Seq<char>, j: int)
    requires
        0 <= j <= r.len(),
    ensures
        segment_end(p + r, p.len() + j) == p.len() + segment_end(r, j),
    decreases r.len() - j,
{
    if j < r.len() {
        assert((p + r)[p.len() + j] == r[j]);
        if r[j] != '/' {
            lemma_segment_end_shift(p, r, j + 1);
        }
    }
}

/// The segments that are sought behind a prefix `p` are the segments of the
/// path without the prefix.
pub proof fn lemma_segments_shift(p: Seq<char>, r: Seq<char>, j: int)
    requires
        0 <= j <= r.len(),
    ensures
        segments_from(p + r, p.len() + j) == segments_from(r, j),
    decreases r.len() - j,
{
    if j < r.len() {
        assert((p + r)[p.len() + j] == r[j]);
        if r[j] == '/' {
            lemma_segments_shift(p, r, j + 1);
        } else {
            lemma_segment_end_shift(p, r, j);
            lemma_segment_end(r, j);
            lemma_segment_end(r, j + 1);
            let e = segment_end(r, j);
            assert((p + r).subrange(p.len() + j, p.len() + e) =~= r.subrange(j, e));
            lemma_segments_shift(p, r, e);
        }
    }
}

/// A segment ends in a path that goes on with a separator where it ends in
/// the path alone.
pub proof fn lemma_segment_end_before(a: Seq<char>, b: Seq<char>, i: int)
    requires
        0 <= i <= a.len(),
    ensures
        segment_end(a + seq!['/'] + b, i) == segment_end(a, i),
    decreases a.len() - i,
{
    let t = a + seq!['/'] + b;
    if i < a.len() {
        assert(t[i] == a[i]);
        if a[i] != '/' {
            lemma_segment_end_before(a, b, i + 1);
        }
    } else {
        assert(t[i] == '/');
    }
}

/// The segments of two paths with a separator between them are the segments
/// of the first and those of the second.
pub proof fn lemma_segments_joined(a: Seq<char>, b: Seq<char>, i: int)
    requires
        0 <= i <= a.len(),
    ensures
        segments_from(a + seq!['/'] + b, i) == segments_from(a, i) + segments(b),
    decreases a.len() - i,
{
    let t = a + seq!['/'] + b;
    if i < a.len() {
        assert(t[i] == a[i]);
        if a[i] == '/' {
            lemma_segments_joined(a, b, i + 1);
        } else {
            lemma_segment_end_before(a, b, i);
            lemma_segment_end(a, i);
            lemma_segment_end(a, i + 1);
            let e = segment_end(a, i);
            assert(t.subrange(i, e) =~= a.subrange(i, e));
            lemma_segments_joined(a, b, e);
            let seg = a.subrange(i, e);
            if !is_skipped_segment(seg) {
                assert(seq![seg] + (segments_from(a, e) + segments(b)) =~= (seq![seg]
                    + segments_from(a, e)) + segments(b));
            }
        }
    } else {
        assert(t[i] == '/');
        lemma_segments_shift(a + seq!['/'], b, 0);
        assert(segments_from(a, i) =~= Seq::<Seq<char>>::empty());
        assert(Seq::<Seq<char>>::empty() + segments(b) =~= segments(b));
    }
}

/// A text that can be a segment is its own one segment.
pub proof fn lemma_segments_of_segment(seg: Seq<char>)
    requires
        is_segment(seg),
    ensures
        segments(seg) == seq![seg],
{
    lemma_segment_end_all(seg, 0);
    assert(seg.subrange(0, seg.len() as int) =~= seg);
    assert(segments_from(seg, seg.len() as int) =~= Seq::<Seq<char>>::empty());
}

/// In a text without separator the segment that starts at `i` ends with the
/// text.
pub proof fn lemma_segment_end_all(seg: Seq<char>, i: int)
    requires
        0 <= i <= seg.len(),
        forall|j: int| 0 <= j < seg.len() ==> seg[j] != '/',
    ensures
        segment_end(seg, i) == seg.len(),
    decreases seg.len() - i,
{
    if i < seg.len() {
        lemma_segment_end_all(seg, i + 1);
    }
}

/// The segments of the absolute path of segments are those segments.
pub proof fn lemma_segments_of_absolute_path(segs: Seq<Seq<char>>)
    requires
        are_segments(segs),
    ensures
        segments(absolute_path(segs)) == segs,
    decreases segs.len(),
{
    let none = Seq::<char>::empty();
    if segs.len() == 0 {
        assert(segments_from(seq!['/'], 1) =~= segs);
    } else if segs.len() == 1 {
        assert(absolute_path(segs) =~= none + seq!['/'] + segs[0]);
        lemma_segments_joined(none, segs[0], 0);
        lemma_segments_of_segment(segs[0]);
        assert(segments_from(none, 0) =~= Seq::<Seq<char>>::empty());
        assert(Seq::<Seq<char>>::empty() + seq![segs[0]] =~= segs);
    } else {
        let head = segs.drop_last();
        assert(are_segments(head)) by {
            assert forall|k: int| 0 <= k < head.len() implies is_segment(#[trigger] head[k]) by {
                assert(head[k] == segs[k]);
            }
        }
        lemma_segments_of_absolute_path(head);
        lemma_segments_joined(absolute_path(head), segs.last(), 0);
        lemma_segments_of_segment(segs.last());
        assert(head + seq![segs.last()] =~= segs);
    }
}

/// The segments of a path taken from a directory are the segments of the
/// directory and those of the path.
pub proof fn lemma_segments_of_join(dir: Seq<char>, rel: Seq<char>)
    ensures
        segments(join_path(dir, rel)) == segments(dir) + segments(rel),
{
    let none = Seq::<char>::empty();
    let no_segments = Seq::<Seq<char>>::empty();
    if dir.len() == 0 {
        assert(segments(dir) =~= no_segments);
        assert(no_segments + segments(rel) =~= segments(rel));
    } else if rel.len() == 0 {
        assert(dir + rel =~= dir);
        assert(segments(rel) =~= no_segments);
        assert(segments(dir) + no_segments =~= segments(dir));
    } else if dir.last() == '/' {
        let front = dir.drop_last();
        assert(dir + rel =~= front + seq!['/'] + rel);
        assert(dir =~= front + seq!['/'] + none);
        lemma_segments_joined(front, rel, 0);
        lemma_segments_joined(front, none, 0);
        assert(segments(none) =~= no_segments);
        assert(segments(front) + no_segments =~= segments(front));
    } else {
        lemma_segments_joined(dir, rel, 0);
    }
}

} // verus!

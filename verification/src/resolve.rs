//! From a module reference to the files that may hold the module.
//!
//! A reference that starts with a dot is sought from the directory of the
//! importing file, any other from each search root in turn. The dots of a
//! reference separate its parts, so they become path separators. A module is
//! the package file `__init__.py` in the directory so named or, failing that,
//! the file so named with `.py` added.

use crate::path::{join, join_path};
use crate::text::{push_all, push_str, to_chars, views_of};
use vstd::prelude::*;

verus! {

/// The first index at or after `i` that holds no dot, or the length of `m`.
pub open spec fn skip_dots(m: Seq<char>, i: int) -> int
    decreases m.len() - i,
{
    if i < 0 || i >= m.len() {
        m.len() as int
    } else if m[i] == '.' {
        skip_dots(m, i + 1)
    } else {
        i
    }
}

/// What [`skip_dots`] returns lies between `i` and the end.
pub proof fn lemma_skip_dots(m: Seq<char>, i: int)
    requires
        0 <= i <= m.len(),
    ensures
        i <= skip_dots(m, i) <= m.len(),
    decreases m.len() - i,
{
    if i < m.len() && m[i] == '.' {
        lemma_skip_dots(m, i + 1);
    }
}

/// Whether the module reference `module` is relative: it starts with a dot.
pub open spec fn is_relative(module: Seq<char>) -> bool {
    module.len() > 0 && module[0] == '.'
}

/// The path of the module `module` below the directory it is sought from: the
/// reference without its leading dots, each other dot turned into a `'/'`.
pub open spec fn module_rel_path(module: Seq<char>) -> Seq<char> {
    module.subrange(skip_dots(module, 0), module.len() as int).map_values(
        |c: char|
            if c == '.' {
                '/'
            } else {
                c
            },
    )
}

/// Executable form of [`module_rel_path`].
pub fn rel_path_of(module: &[char]) -> (p: Vec<char>)
    ensures
        p@ == module_rel_path(module@),
{
    let mut k: usize = 0;
    while k < module.len() && module[k] == '.'
        invariant
            k <= module.len(),
            skip_dots(module@, k as int) == skip_dots(module@, 0),
        decreases module.len() - k,
    {
        k += 1;
    }
    let mut p: Vec<char> = Vec::new();
    let mut i: usize = k;
    let ghost rest = module@.subrange(k as int, module@.len() as int);
    while i < module.len()
        invariant
            k <= i <= module.len(),
            rest == module@.subrange(k as int, module@.len() as int),
            p@.len() == i - k,
            forall|j: int|
                0 <= j < i - k ==> p@[j] == (if rest[j] == '.' {
                    '/'
                } else {
                    rest[j]
                }),
        decreases module.len() - i,
    {
        let c = module[i];
        if c == '.' {
            p.push('/');
        } else {
            p.push(c);
        }
        i += 1;
    }
    assert(p@ =~= module_rel_path(module@));
    p
}

/// The directories to seek the module `module` in, in order, each joined with
/// the module's path: the directory `dir` of the importing file for a
/// relative reference, else each of `roots`.
pub open spec fn candidate_bases(module: Seq<char>, dir: Seq<char>, roots: Seq<Seq<char>>) -> Seq<
    Seq<char>,
> {
    if is_relative(module) {
        seq![join_path(dir, module_rel_path(module))]
    } else {
        Seq::new(roots.len(), |k: int| join_path(roots[k], module_rel_path(module)))
    }
}

/// Executable form of [`candidate_bases`].
pub fn bases_of(module: &[char], dir: &[char], roots: &Vec<Vec<char>>) -> (v: Vec<Vec<char>>)
    ensures
        views_of(v@) == candidate_bases(module@, dir@, views_of(roots@)),
{
    let rel = rel_path_of(module);
    let mut v: Vec<Vec<char>> = Vec::new();
    if module.len() > 0 && module[0] == '.' {
        v.push(join(dir, rel.as_slice()));
        assert(views_of(v@) =~= candidate_bases(module@, dir@, views_of(roots@)));
        return v;
    }
    let mut k: usize = 0;
    while k < roots.len()
        invariant
            k <= roots@.len(),
            v@.len() == k,
            rel@ == module_rel_path(module@),
            forall|j: int| 0 <= j < k ==> v@[j]@ == join_path(roots@[j]@, rel@),
        decreases roots@.len() - k,
    {
        v.push(join(roots[k].as_slice(), rel.as_slice()));
        k += 1;
    }
    assert(views_of(v@) =~= candidate_bases(module@, dir@, views_of(roots@)));
    v
}

/// The package file of the directory `base`.
pub open spec fn package_file(base: Seq<char>) -> Seq<char> {
    join_path(base, "__init__.py"@)
}

/// The module file named `base`.
pub open spec fn module_file(base: Seq<char>) -> Seq<char> {
    base + ".py"@
}

/// Executable form of [`package_file`].
pub fn package_file_of(base: &[char]) -> (p: Vec<char>)
    ensures
        p@ == package_file(base@),
{
    let name = to_chars("__init__.py");
    join(base, name.as_slice())
}

/// Executable form of [`module_file`].
pub fn module_file_of(base: &[char]) -> (p: Vec<char>)
    ensures
        p@ == module_file(base@),
{
    let mut p: Vec<char> = Vec::new();
    push_all(&mut p, base);
    push_str(&mut p, ".py");
    assert(Seq::<char>::empty() + base@ == base@);
    p
}

} // verus!

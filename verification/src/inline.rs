//! The recursive inliner.
//!
//! The text of a file is read once from left to right. What stands between
//! import statements of local modules is copied. Each such statement is
//! resolved to a file of the store:
//!
//! - a file that is met for the first time is entered into the processed set,
//!   inlined itself, and put in the statement's place behind the statement's
//!   indentation;
//! - a file inlined before leaves a one-line marker, or nothing in release
//!   mode;
//! - a statement that resolves to no file stays as it is.
//!
//! The processed set only grows, and a file is inlined only when it is new to
//! the set: that is why the recursion ends, whatever the files import.

use crate::dead_blocks::{dead_blocks, live_text, strip_dead_blocks};
use crate::error::InlineError;
use crate::fs::{FileSystem, Tree};
use crate::imports::{
    find_imports, ImportMatch, imports, imports_ordered, ImportView, lemma_imports_ordered,
    match_views,
};
use crate::path::{parent_dir, parent_of, segments};
use crate::processed::ProcessedSet;
use crate::render::{inlined_block, push_inlined_block, push_repeated_marker, repeated_marker};
use crate::resolve::{
    bases_of, candidate_bases, module_file, module_file_of, package_file, package_file_of,
};
use crate::text::{push_all, push_range, to_chars, to_string, views_of};
use vstd::prelude::*;

verus! {

/// What a run is set up with.
pub struct Settings {
    /// The search roots, in order of precedence.
    pub roots: Seq<Seq<char>>,
    /// The prefixes that make a module reference local.
    pub prefixes: Seq<Seq<char>>,
    /// Whether markers are left out.
    pub release: bool,
}

/// The file that holds the module sought under `bases`, from `bases[k]` on,
/// and whether it is a package file: the first base counts under which the
/// package file or, failing that, the module file exists.
pub open spec fn resolve_from(tree: Tree, bases: Seq<Seq<char>>, k: int) -> Option<
    (Seq<char>, bool),
>
    decreases bases.len() - k,
{
    if k < 0 || k >= bases.len() {
        None
    } else if tree.dom().contains(segments(package_file(bases[k]))) {
        Some((package_file(bases[k]), true))
    } else if tree.dom().contains(segments(module_file(bases[k]))) {
        Some((module_file(bases[k]), false))
    } else {
        resolve_from(tree, bases, k + 1)
    }
}

/// The file that the module reference `module` names for a file in the
/// directory `dir`, if any, and whether it is a package file.
pub open spec fn resolve_module(tree: Tree, st: Settings, module: Seq<char>, dir: Seq<char>)
    -> Option<(Seq<char>, bool)> {
    resolve_from(tree, candidate_bases(module, dir, st.roots), 0)
}

/// `head` before the text of `rest`, where there is one.
pub open spec fn prepend(head: Seq<char>, rest: Option<(Seq<char>, Set<Seq<Seq<char>>>)>)
    -> Option<(Seq<char>, Set<Seq<Seq<char>>>)> {
    match rest {
        Some((text, processed)) => Some((head + text, processed)),
        None => None,
    }
}

/// Entering a new file of the store into the processed set leaves fewer
/// files that are not in it.
pub proof fn lemma_new_key_shrinks(
    dom: Set<Seq<Seq<char>>>,
    processed: Set<Seq<Seq<char>>>,
    key: Seq<Seq<char>>,
)
    requires
        dom.finite(),
        dom.contains(key),
        !processed.contains(key),
    ensures
        dom.difference(processed.insert(key)).len() < dom.difference(processed).len(),
{
    let before = dom.difference(processed);
    assert(before.finite());
    assert(before.contains(key));
    assert(dom.difference(processed.insert(key)) =~= before.remove(key));
}

/// A larger processed set leaves no more files that are not in it.
pub proof fn lemma_superset_shrinks(
    dom: Set<Seq<Seq<char>>>,
    small: Set<Seq<Seq<char>>>,
    large: Set<Seq<Seq<char>>>,
)
    requires
        dom.finite(),
        small.subset_of(large),
    ensures
        dom.difference(large).len() <= dom.difference(small).len(),
{
    assert(dom.difference(small).finite());
    vstd::set_lib::lemma_len_subset(dom.difference(large), dom.difference(small));
}

/// The text that `content` becomes for a file in the directory `dir`, and the
/// processed set after it, `processed` being the set before: the dead blocks
/// are cut out, and each import statement of a local module is replaced as
/// [`splice`] says. `None` where a file that an import resolves to is no
/// regular file of `tree`.
pub open spec fn inline_text(
    tree: Tree,
    st: Settings,
    content: Seq<char>,
    dir: Seq<char>,
    processed: Set<Seq<Seq<char>>>,
) -> Option<(Seq<char>, Set<Seq<Seq<char>>>)>
    decreases tree.dom().difference(processed).len(), 1nat, 0nat,
    when tree.dom().finite()
{
    splice(
        tree,
        st,
        live_text(content),
        dir,
        imports(live_text(content), st.prefixes),
        0,
        processed,
    )
}

/// The text `w` from index `pos` on with the statements `ms` replaced, and
/// the processed set after it. Before each statement stands what `w` holds
/// up to it. In place of the statement stands
///
/// - the statement itself, where its module resolves to no file;
/// - [`repeated_marker`], where the file is in the processed set;
/// - [`inlined_block`] with the inlined text of the file, which is entered
///   into the processed set first, in any other case.
pub open spec fn splice(
    tree: Tree,
    st: Settings,
    w: Seq<char>,
    dir: Seq<char>,
    ms: Seq<ImportView>,
    pos: int,
    processed: Set<Seq<Seq<char>>>,
) -> Option<(Seq<char>, Set<Seq<Seq<char>>>)>
    decreases tree.dom().difference(processed).len(), 0nat, ms.len(),
    when tree.dom().finite()
{
    if ms.len() == 0 {
        Some((w.subrange(pos, w.len() as int), processed))
    } else {
        let m = ms[0];
        let gap = w.subrange(pos, m.start);
        match resolve_module(tree, st, m.module, dir) {
            None => prepend(
                gap + w.subrange(m.start, m.end),
                splice(tree, st, w, dir, ms.drop_first(), m.end, processed),
            ),
            Some((path, is_package)) => {
                let key = segments(path);
                if processed.contains(key) {
                    prepend(
                        gap + repeated_marker(m.indent, m.module, st.release),
                        splice(tree, st, w, dir, ms.drop_first(), m.end, processed),
                    )
                } else if !(tree.dom().contains(key) && tree[key] is File) {
                    None
                } else {
                    proof {
                        lemma_new_key_shrinks(tree.dom(), processed, key);
                    }
                    match inline_text(
                        tree,
                        st,
                        tree[key]->File_0,
                        parent_dir(path),
                        processed.insert(key),
                    ) {
                        None => None,
                        Some((body, inner)) => {
                            proof {
                                lemma_superset_shrinks(
                                    tree.dom(),
                                    processed.insert(key),
                                    inner.union(processed.insert(key)),
                                );
                            }
                            prepend(
                                gap + inlined_block(m.indent, m.module, is_package, body, st.release),
                                splice(
                                    tree,
                                    st,
                                    w,
                                    dir,
                                    ms.drop_first(),
                                    m.end,
                                    inner.union(processed.insert(key)),
                                ),
                            )
                        },
                    }
                }
            },
        }
    }
}

/// The settings that a run has from its search roots, its prefixes and its
/// mode.
pub open spec fn settings_of(roots: Seq<Vec<char>>, prefixes: Seq<Vec<char>>, release: bool)
    -> Settings {
    Settings { roots: views_of(roots), prefixes: views_of(prefixes), release }
}

/// Seeks the module under each of `bases` in turn: the package file first,
/// then the module file.
fn resolve<FS: FileSystem>(fs: &mut FS, bases: &Vec<Vec<char>>) -> (r: Result<
    Option<(Vec<char>, bool)>,
    InlineError,
>)
    requires
        old(fs).inv(),
    ensures
        final(fs).inv(),
        final(fs).tree() == old(fs).tree(),
        final(fs).answers() == old(fs).answers(),
        old(fs).answers() ==> r is Ok,
        match r {
            Ok(Some((path, is_package))) => resolve_from(old(fs).tree(), views_of(bases@), 0)
                == Some((path@, is_package)),
            Ok(None) => resolve_from(old(fs).tree(), views_of(bases@), 0) is None,
            Err(e) => e is Io,
        },
{
    let ghost tree = fs.tree();
    let ghost all = views_of(bases@);
    let mut k: usize = 0;
    while k < bases.len()
        invariant
            k <= bases@.len(),
            fs.inv(),
            fs.tree() == tree,
            tree == old(fs).tree(),
            fs.answers() == old(fs).answers(),
            all == views_of(bases@),
            resolve_from(tree, all, k as int) == resolve_from(tree, all, 0),
        decreases bases@.len() - k,
    {
        let package = package_file_of(bases[k].as_slice());
        let package_name = to_string(package.as_slice());
        match fs.path_exists(package_name.as_str()) {
            Err(cause) => {
                return Err(InlineError::Io { path: package_name, cause });
            },
            Ok(true) => {
                return Ok(Some((package, true)));
            },
            Ok(false) => {},
        }
        let module = module_file_of(bases[k].as_slice());
        let module_name = to_string(module.as_slice());
        match fs.path_exists(module_name.as_str()) {
            Err(cause) => {
                return Err(InlineError::Io { path: module_name, cause });
            },
            Ok(true) => {
                return Ok(Some((module, false)));
            },
            Ok(false) => {},
        }
        k += 1;
    }
    Ok(None)
}

/// `prepend` of a head that is itself made of two parts.
pub proof fn lemma_prepend_twice(
    a: Seq<char>,
    b: Seq<char>,
    rest: Option<(Seq<char>, Set<Seq<Seq<char>>>)>,
)
    ensures
        prepend(a, prepend(b, rest)) == prepend(a + b, rest),
{
    match rest {
        Some((text, processed)) => {
            assert(a + (b + text) =~= (a + b) + text);
        },
        None => {},
    }
}

/// What takes the place of the statement `m` of the text `w`, as [`splice`]
/// says: the statement itself, a marker, or the inlined text of the file that
/// the statement names.
fn replacement<FS: FileSystem>(
    fs: &mut FS,
    roots: &Vec<Vec<char>>,
    prefixes: &Vec<Vec<char>>,
    release: bool,
    w: &[char],
    dir: &[char],
    m: &ImportMatch,
    processed: &mut ProcessedSet,
    Ghost(ms): Ghost<Seq<ImportView>>,
    Ghost(pos): Ghost<int>,
) -> (r: Result<Vec<char>, InlineError>)
    requires
        old(fs).inv(),
        old(fs).tree().dom().finite(),
        ms.len() > 0,
        ms[0] == m@,
        m.start <= m.end <= w@.len(),
    ensures
        final(fs).inv(),
        final(fs).tree() == old(fs).tree(),
        old(processed)@.subset_of(final(processed)@),
        final(fs).answers() == old(fs).answers(),
        r matches Err(e) ==> e is Io,
        old(fs).answers() && splice(
            old(fs).tree(),
            settings_of(roots@, prefixes@, release),
            w@,
            dir@,
            ms,
            pos,
            old(processed)@,
        ) is Some ==> r is Ok,
        r matches Ok(piece) ==> splice(
            old(fs).tree(),
            settings_of(roots@, prefixes@, release),
            w@,
            dir@,
            ms,
            pos,
            old(processed)@,
        ) == prepend(
            w@.subrange(pos, m.start as int) + piece@,
            splice(
                old(fs).tree(),
                settings_of(roots@, prefixes@, release),
                w@,
                dir@,
                ms.drop_first(),
                m.end as int,
                final(processed)@,
            ),
        ),
    decreases old(fs).tree().dom().difference(old(processed)@).len(), 0nat,
{
    let ghost tree = fs.tree();
    let ghost st = settings_of(roots@, prefixes@, release);
    let ghost cur = processed@;
    let bases = bases_of(m.module.as_slice(), dir, roots);
    let found = match resolve(fs, &bases) {
        Err(e) => {
            return Err(e);
        },
        Ok(found) => found,
    };
    assert(resolve_module(tree, st, m@.module, dir@) == match found {
        Some((path, is_package)) => Some((path@, is_package)),
        None => None,
    });
    match found {
        None => {
            let mut piece: Vec<char> = Vec::new();
            push_range(&mut piece, w, m.start, m.end);
            assert(piece@ =~= w@.subrange(m.start as int, m.end as int));
            Ok(piece)
        },
        Some((path, is_package)) => {
            let name = to_string(path.as_slice());
            let ghost key = segments(path@);
            if processed.contains(name.as_str()) {
                let mut piece: Vec<char> = Vec::new();
                push_repeated_marker(
                    &mut piece,
                    m.indent.as_slice(),
                    m.module.as_slice(),
                    release,
                );
                assert(piece@ =~= repeated_marker(m@.indent, m@.module, release));
                Ok(piece)
            } else {
                let text = match fs.read_to_string(name.as_str()) {
                    Err(cause) => {
                        return Err(InlineError::Io { path: name, cause });
                    },
                    Ok(text) => text,
                };
                processed.insert(name.as_str());
                let body_in = to_chars(text.as_str());
                let sub_dir = parent_of(path.as_slice());
                proof {
                    lemma_new_key_shrinks(tree.dom(), cur, key);
                }
                let body = match inline_chars(
                    fs,
                    roots,
                    prefixes,
                    release,
                    body_in.as_slice(),
                    sub_dir.as_slice(),
                    processed,
                ) {
                    Err(e) => {
                        return Err(e);
                    },
                    Ok(body) => body,
                };
                let mut piece: Vec<char> = Vec::new();
                push_inlined_block(
                    &mut piece,
                    m.indent.as_slice(),
                    m.module.as_slice(),
                    is_package,
                    body.as_slice(),
                    release,
                );
                proof {
                    let inner = processed@;
                    assert(inner.union(cur.insert(key)) =~= inner);
                    assert(piece@ =~= inlined_block(
                        m@.indent,
                        m@.module,
                        is_package,
                        body@,
                        release,
                    ));
                    assert(tree[key]->File_0 == text@);
                }
                Ok(piece)
            }
        },
    }
}

/// Inlines the local imports of the text `content` of a file in the directory
/// `dir`, as [`inline_text`] says. The store is only read.
///
/// A text without import statements of local modules comes back without its
/// dead blocks, and the store is not asked. Any failure is a failure of the
/// store. A store that answers fails only where an import resolves to what is
/// no regular file.
pub fn inline_chars<FS: FileSystem>(
    fs: &mut FS,
    roots: &Vec<Vec<char>>,
    prefixes: &Vec<Vec<char>>,
    release: bool,
    content: &[char],
    dir: &[char],
    processed: &mut ProcessedSet,
) -> (r: Result<Vec<char>, InlineError>)
    requires
        old(fs).inv(),
        old(fs).tree().dom().finite(),
    ensures
        final(fs).inv(),
        final(fs).tree() == old(fs).tree(),
        old(processed)@.subset_of(final(processed)@),
        final(fs).answers() == old(fs).answers(),
        r matches Err(e) ==> e is Io,
        imports(live_text(content@), views_of(prefixes@)).len() == 0 ==> (r matches Ok(text)
            && text@ == live_text(content@) && final(processed)@ == old(processed)@),
        old(fs).answers() && inline_text(
            old(fs).tree(),
            settings_of(roots@, prefixes@, release),
            content@,
            dir@,
            old(processed)@,
        ) is Some ==> r is Ok,
        r matches Ok(text) ==> inline_text(
            old(fs).tree(),
            settings_of(roots@, prefixes@, release),
            content@,
            dir@,
            old(processed)@,
        ) == Some((text@, final(processed)@)),
    decreases old(fs).tree().dom().difference(old(processed)@).len(), 1nat,
{
    let ghost tree = fs.tree();
    let ghost st = settings_of(roots@, prefixes@, release);
    let ghost entry = processed@;
    let w = strip_dead_blocks(content);
    let ms = find_imports(w.as_slice(), prefixes);
    let ghost all = match_views(ms@);
    let ghost goal = splice(tree, st, w@, dir@, all, 0, entry);
    let mut out: Vec<char> = Vec::new();
    let mut pos: usize = 0;
    let mut k: usize = 0;
    proof {
        assert(all.skip(0) =~= all);
        lemma_prepend_empty(goal);
    }
    while k < ms.len()
        invariant
            k <= ms@.len(),
            pos <= w@.len(),
            fs.inv(),
            fs.tree() == tree,
            tree == old(fs).tree(),
            fs.answers() == old(fs).answers(),
            tree.dom().finite(),
            st == settings_of(roots@, prefixes@, release),
            all == match_views(ms@),
            entry == old(processed)@,
            entry.subset_of(processed@),
            imports_ordered(all.skip(k as int), pos as int, w@.len() as int),
            prepend(out@, splice(tree, st, w@, dir@, all.skip(k as int), pos as int, processed@))
                == goal,
            goal == inline_text(tree, st, content@, dir@, entry),
            ms@.len() == imports(live_text(content@), views_of(prefixes@)).len(),
        decreases ms@.len() - k,
    {
        let m = &ms[k];
        let ghost here = all.skip(k as int);
        let ghost cur = processed@;
        let ghost before = out@;
        proof {
            assert(here[0] == m@);
            assert(here.drop_first() =~= all.skip(k + 1));
            lemma_superset_shrinks(tree.dom(), entry, cur);
        }
        let piece = match replacement(
            fs,
            roots,
            prefixes,
            release,
            w.as_slice(),
            dir,
            m,
            processed,
            Ghost(here),
            Ghost(pos as int),
        ) {
            Err(e) => {
                proof {
                    let rest = splice(tree, st, w@, dir@, here, pos as int, cur);
                    assert(rest is None ==> goal is None);
                }
                return Err(e);
            },
            Ok(piece) => piece,
        };
        push_range(&mut out, w.as_slice(), pos, m.start);
        push_all(&mut out, piece.as_slice());
        proof {
            let gap = w@.subrange(pos as int, m.start as int);
            let tail = splice(tree, st, w@, dir@, all.skip(k + 1), m.end as int, processed@);
            lemma_prepend_twice(before, gap + piece@, tail);
            assert(out@ =~= before + (gap + piece@));
        }
        pos = m.end;
        k += 1;
    }
    push_range(&mut out, w.as_slice(), pos, w.len());
    proof {
        assert(all.skip(k as int) =~= Seq::<ImportView>::empty());
    }
    Ok(out)
}

/// `prepend` of the empty head changes nothing.
pub proof fn lemma_prepend_empty(rest: Option<(Seq<char>, Set<Seq<Seq<char>>>)>)
    ensures
        prepend(Seq::<char>::empty(), rest) == rest,
{
    match rest {
        Some((text, processed)) => {
            assert(Seq::<char>::empty() + text =~= text);
        },
        None => {},
    }
}

/// The processed set only grows: what [`inline_text`] gives holds every file
/// that was in the set before.
pub proof fn lemma_inline_grows(
    tree: Tree,
    st: Settings,
    content: Seq<char>,
    dir: Seq<char>,
    processed: Set<Seq<Seq<char>>>,
)
    requires
        tree.dom().finite(),
    ensures
        inline_text(tree, st, content, dir, processed) matches Some((text, after))
            ==> processed.subset_of(after),
    decreases tree.dom().difference(processed).len(), 1nat, 0nat,
{
    lemma_splice_grows(
        tree,
        st,
        live_text(content),
        dir,
        imports(live_text(content), st.prefixes),
        0,
        processed,
    );
}

/// The processed set only grows, and every file that a statement resolves to
/// is in it afterwards: it was there before, or it was inlined.
pub proof fn lemma_splice_grows(
    tree: Tree,
    st: Settings,
    w: Seq<char>,
    dir: Seq<char>,
    ms: Seq<ImportView>,
    pos: int,
    processed: Set<Seq<Seq<char>>>,
)
    requires
        tree.dom().finite(),
    ensures
        splice(tree, st, w, dir, ms, pos, processed) matches Some((text, after)) ==> (
        processed.subset_of(after) && forall|i: int|
            0 <= i < ms.len() ==> (#[trigger] resolve_module(tree, st, ms[i].module, dir)
                matches Some((path, is_package)) ==> after.contains(segments(path)))),
    decreases tree.dom().difference(processed).len(), 0nat, ms.len(),
{
    if ms.len() > 0 {
        let m = ms[0];
        let rest = ms.drop_first();
        let next = match resolve_module(tree, st, m.module, dir) {
            None => Some(processed),
            Some((path, is_package)) => {
                let key = segments(path);
                if processed.contains(key) {
                    Some(processed)
                } else if tree.dom().contains(key) && tree[key] is File {
                    lemma_new_key_shrinks(tree.dom(), processed, key);
                    let entered = processed.insert(key);
                    lemma_inline_grows(tree, st, tree[key]->File_0, parent_dir(path), entered);
                    match inline_text(tree, st, tree[key]->File_0, parent_dir(path), entered) {
                        None => None,
                        Some((body, inner)) => {
                            lemma_superset_shrinks(tree.dom(), entered, inner.union(entered));
                            Some(inner.union(entered))
                        },
                    }
                } else {
                    None
                }
            },
        };
        if next is Some {
            lemma_splice_grows(tree, st, w, dir, rest, m.end, next->0);
            match splice(tree, st, w, dir, rest, m.end, next->0) {
                Some((text, after)) => {
                    lemma_resolved_later(tree, st, dir, ms, after);
                },
                None => {},
            }
        }
    }
}

/// What holds of the files that the statements after the first resolve to
/// holds of the files that all statements resolve to, where it holds of the
/// first.
proof fn lemma_resolved_later(
    tree: Tree,
    st: Settings,
    dir: Seq<char>,
    ms: Seq<ImportView>,
    after: Set<Seq<Seq<char>>>,
)
    requires
        ms.len() > 0,
        resolve_module(tree, st, ms[0].module, dir) matches Some((path, is_package))
            ==> after.contains(segments(path)),
        forall|i: int|
            0 <= i < ms.drop_first().len() ==> (#[trigger] resolve_module(
                tree,
                st,
                ms.drop_first()[i].module,
                dir,
            ) matches Some((path, is_package)) ==> after.contains(segments(path))),
    ensures
        forall|i: int|
            0 <= i < ms.len() ==> (#[trigger] resolve_module(tree, st, ms[i].module, dir)
                matches Some((path, is_package)) ==> after.contains(segments(path))),
{
    assert forall|i: int| 0 <= i < ms.len() implies (#[trigger] resolve_module(
        tree,
        st,
        ms[i].module,
        dir,
    ) matches Some((path, is_package)) ==> after.contains(segments(path))) by {
        if i > 0 {
            assert(ms.drop_first()[i - 1] == ms[i]);
        }
    }
}

/// A file is inlined once: where the module of a statement resolves to a file
/// that is in the processed set, the statement leaves [`repeated_marker`], a
/// single line or nothing, and the set stays as it is.
pub proof fn lemma_second_import_leaves_marker(
    tree: Tree,
    st: Settings,
    w: Seq<char>,
    dir: Seq<char>,
    ms: Seq<ImportView>,
    pos: int,
    processed: Set<Seq<Seq<char>>>,
    path: Seq<char>,
    is_package: bool,
)
    requires
        tree.dom().finite(),
        ms.len() > 0,
        resolve_module(tree, st, ms[0].module, dir) == Some((path, is_package)),
        processed.contains(segments(path)),
    ensures
        splice(tree, st, w, dir, ms, pos, processed) == prepend(
            w.subrange(pos, ms[0].start) + repeated_marker(
                ms[0].indent,
                ms[0].module,
                st.release,
            ),
            splice(tree, st, w, dir, ms.drop_first(), ms[0].end, processed),
        ),
{
}

/// A statement whose module resolves to no file stays as it is, character for
/// character.
pub proof fn lemma_unresolved_statement_stays(
    tree: Tree,
    st: Settings,
    w: Seq<char>,
    dir: Seq<char>,
    ms: Seq<ImportView>,
    pos: int,
    processed: Set<Seq<Seq<char>>>,
)
    requires
        tree.dom().finite(),
        ms.len() > 0,
        resolve_module(tree, st, ms[0].module, dir) is None,
    ensures
        splice(tree, st, w, dir, ms, pos, processed) == prepend(
            w.subrange(pos, ms[0].start) + w.subrange(ms[0].start, ms[0].end),
            splice(tree, st, w, dir, ms.drop_first(), ms[0].end, processed),
        ),
{
}

/// A statement whose module resolves to no file stays as it is: where no
/// statement of `ms` resolves, the text is left unchanged, and so is the
/// processed set.
pub proof fn lemma_unresolved_unchanged(
    tree: Tree,
    st: Settings,
    w: Seq<char>,
    dir: Seq<char>,
    ms: Seq<ImportView>,
    pos: int,
    processed: Set<Seq<Seq<char>>>,
)
    requires
        tree.dom().finite(),
        imports_ordered(ms, pos, w.len() as int),
        forall|i: int| 0 <= i < ms.len() ==> #[trigger] resolve_module(tree, st, ms[i].module, dir)
            is None,
    ensures
        splice(tree, st, w, dir, ms, pos, processed) == Some(
            (w.subrange(pos, w.len() as int), processed),
        ),
    decreases ms.len(),
{
    if ms.len() > 0 {
        let m = ms[0];
        let rest = ms.drop_first();
        assert(resolve_module(tree, st, ms[0].module, dir) is None);
        assert forall|i: int| 0 <= i < rest.len() implies #[trigger] resolve_module(
            tree,
            st,
            rest[i].module,
            dir,
        ) is None by {
            assert(rest[i] == ms[i + 1]);
            assert(resolve_module(tree, st, ms[i + 1].module, dir) is None);
        }
        lemma_unresolved_unchanged(tree, st, w, dir, rest, m.end, processed);
        assert(w.subrange(pos, m.start) + w.subrange(m.start, m.end) + w.subrange(
            m.end,
            w.len() as int,
        ) =~= w.subrange(pos, w.len() as int));
    }
}

/// A text without dead blocks whose import statements all resolve to no file
/// is left as it is.
pub proof fn lemma_nothing_to_inline(
    tree: Tree,
    st: Settings,
    content: Seq<char>,
    dir: Seq<char>,
    processed: Set<Seq<Seq<char>>>,
)
    requires
        tree.dom().finite(),
        dead_blocks(content).len() == 0,
        forall|i: int|
            0 <= i < imports(content, st.prefixes).len() ==> #[trigger] resolve_module(
                tree,
                st,
                imports(content, st.prefixes)[i].module,
                dir,
            ) is None,
    ensures
        inline_text(tree, st, content, dir, processed) == Some((content, processed)),
{
    assert(live_text(content) =~= content);
    lemma_imports_ordered(content, 0, st.prefixes);
    lemma_unresolved_unchanged(
        tree,
        st,
        content,
        dir,
        imports(content, st.prefixes),
        0,
        processed,
    );
    assert(content.subrange(0, content.len() as int) =~= content);
}

} // verus!

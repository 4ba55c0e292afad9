//! One run: from the entry file to the written output.

use crate::blank_lines::{strip_blank_lines_chars, without_blank_lines};
use crate::comments::{strip_comments_chars, without_comments};
use crate::consolidate::{after_spaces, consolidate_chars, consolidated, skip_spaces};
use crate::docstrings::{strip_docstrings_chars, without_docstrings};
use crate::error::InlineError;
use crate::fs::{can_hold, is_file_at, same_outside, FileSystem, Node, Tree};
use crate::imports::{find_last_solid, last_solid};
use crate::inline::{inline_chars, inline_text, Settings};
use crate::path::{parent_dir, parent_of, segments};
use crate::processed::ProcessedSet;
use crate::text::{chars_of_all, copy_range, string_views, to_chars, to_string, views_of};
use vstd::prelude::*;

verus! {

/// What a run is asked to do.
#[derive(Debug, Clone)]
pub struct Opt {
    /// The entry file.
    pub input_file: String,
    /// The file to write.
    pub output_file: String,
    /// The prefixes of the local modules, separated by commas.
    pub module_names: String,
    /// Whether to tidy the output and leave the markers out.
    pub release: bool,
}

/// The index of the first comma at or after `i`, or the length of `s`.
pub open spec fn comma_end(s: Seq<char>, i: int) -> int
    decreases s.len() - i,
{
    if i < 0 || i >= s.len() {
        s.len() as int
    } else if s[i] == ',' {
        i
    } else {
        comma_end(s, i + 1)
    }
}

/// What [`comma_end`] returns lies between `i` and the end.
pub proof fn lemma_comma_end(s: Seq<char>, i: int)
    requires
        0 <= i <= s.len(),
    ensures
        i <= comma_end(s, i) <= s.len(),
    decreases s.len() - i,
{
    if i < s.len() && s[i] != ',' {
        lemma_comma_end(s, i + 1);
    }
}

/// The text `t` without the white space at its start and at its end.
pub open spec fn trimmed(t: Seq<char>) -> Seq<char> {
    t.subrange(skip_spaces(t, 0), last_solid(t, skip_spaces(t, 0), t.len() as int))
}

/// The names that the commas of `s` separate from index `i` on, each without
/// the white space around it. Nothing between two commas is the empty name,
/// and so is nothing after the last.
pub open spec fn names_from(s: Seq<char>, i: int) -> Seq<Seq<char>>
    decreases s.len() - i,
{
    if i < 0 || i > s.len() {
        Seq::empty()
    } else {
        proof {
            lemma_comma_end(s, i);
        }
        if comma_end(s, i) >= s.len() {
            seq![trimmed(s.subrange(i, comma_end(s, i)))]
        } else {
            seq![trimmed(s.subrange(i, comma_end(s, i)))] + names_from(s, comma_end(s, i) + 1)
        }
    }
}

/// The prefixes that make a module reference local in a run with the module
/// names `names`: the dot of relative references first, then each name. The
/// empty name is the empty prefix, with which every reference starts.
pub open spec fn module_prefixes(names: Seq<char>) -> Seq<Seq<char>> {
    seq![seq!['.']] + names_from(names, 0)
}

/// Executable form of [`module_prefixes`].
pub fn prefixes_of(names: &str) -> (v: Vec<Vec<char>>)
    ensures
        views_of(v@) == module_prefixes(names@),
{
    let s_vec = to_chars(names);
    let s = s_vec.as_slice();
    let mut v: Vec<Vec<char>> = Vec::new();
    let mut dot: Vec<char> = Vec::new();
    dot.push('.');
    assert(dot@ =~= seq!['.']);
    v.push(dot);
    let mut i: usize = 0;
    proof {
        assert(views_of(v@) =~= seq![seq!['.']]);
    }
    loop
        invariant
            i <= s@.len(),
            s@ == names@,
            views_of(v@) + names_from(s@, i as int) == module_prefixes(s@),
        decreases s@.len() - i,
    {
        let mut e: usize = i;
        while e < s.len() && s[e] != ','
            invariant
                i <= e <= s@.len(),
                comma_end(s@, e as int) == comma_end(s@, i as int),
            decreases s@.len() - e,
        {
            e += 1;
        }
        let piece_vec = copy_range(s, i, e);
        let piece = piece_vec.as_slice();
        let a = after_spaces(piece, 0);
        let b = find_last_solid(piece, a, piece.len());
        let name = copy_range(piece, a, b);
        proof {
            assert(name@ == trimmed(s@.subrange(i as int, e as int)));
            assert(views_of(v@.push(name)) =~= views_of(v@) + seq![name@]);
        }
        v.push(name);
        if e >= s.len() {
            proof {
                assert(views_of(v@) =~= module_prefixes(s@));
            }
            return v;
        }
        i = e + 1;
    }
}

/// What a text becomes in release mode: its import lines are gathered, then
/// its documentation strings, its comments and its blank lines are dropped.
pub open spec fn release_text(t: Seq<char>) -> Seq<char> {
    without_blank_lines(without_comments(without_docstrings(consolidated(t))))
}

/// Tidies `text` for release.
pub fn tidy_chars(text: &[char]) -> (out: Vec<char>)
    ensures
        out@ == release_text(text@),
{
    let gathered = consolidate_chars(text);
    let undocumented = strip_docstrings_chars(gathered.as_slice());
    let uncommented = strip_comments_chars(undocumented.as_slice());
    strip_blank_lines_chars(uncommented.as_slice())
}

/// The text `content` tidied for release.
pub fn post_process(content: &str) -> (out: String)
    ensures
        out@ == release_text(content@),
{
    let chars = to_chars(content);
    let out = tidy_chars(chars.as_slice());
    to_string(out.as_slice())
}

/// The settings of a run with the search roots `roots`.
pub open spec fn settings_for(roots: Seq<Seq<char>>, prefixes: Seq<Seq<char>>, release: bool)
    -> Settings {
    Settings { roots, prefixes, release }
}

/// Inlines the local imports of the file at `file`.
///
/// The file is read from `fs`, which is left as it is. A module is local
/// where its reference starts with one of `module_names`, and is sought in
/// `python_sys_path`, or from the directory of the importing file where the
/// reference is relative. The files in `processed` count as inlined already,
/// and those that this call inlines are added to it.
///
/// A failure of the store ends the work. Where it does not fail, the result
/// is what [`inline_text`] says of the text of the file. A store that answers
/// fails only where the file, or a file that an import resolves to, is no
/// regular file.
pub fn inline_imports<FS: FileSystem>(
    fs: &mut FS,
    python_sys_path: &Vec<String>,
    file: &str,
    module_names: &Vec<String>,
    processed: &mut ProcessedSet,
    opt: &Opt,
) -> (r: Result<String, InlineError>)
    requires
        old(fs).inv(),
        old(fs).tree().dom().finite(),
    ensures
        final(fs).inv(),
        final(fs).tree() == old(fs).tree(),
        old(processed)@.subset_of(final(processed)@),
        final(fs).answers() == old(fs).answers(),
        r matches Err(e) ==> e is Io,
        old(fs).answers() && is_file_at(old(fs).tree(), segments(file@)) && inline_text(
            old(fs).tree(),
            settings_for(string_views(python_sys_path@), string_views(module_names@), opt.release),
            old(fs).tree()[segments(file@)]->File_0,
            parent_dir(file@),
            old(processed)@,
        ) is Some ==> r is Ok,
        !is_file_at(old(fs).tree(), segments(file@)) ==> (r matches Err(
            InlineError::Io { path, cause },
        ) && path@ == file@ && (old(fs).answers() ==> cause == old(fs).read_failure(
            segments(file@),
        ))),
        r matches Ok(text) ==> (is_file_at(old(fs).tree(), segments(file@))) && inline_text(
            old(fs).tree(),
            settings_for(string_views(python_sys_path@), string_views(module_names@), opt.release),
            old(fs).tree()[segments(file@)]->File_0,
            parent_dir(file@),
            old(processed)@,
        ) == Some((text@, final(processed)@)),
{
    let content = match fs.read_to_string(file) {
        Err(cause) => {
            return Err(InlineError::Io { path: String::from_str(file), cause });
        },
        Ok(content) => content,
    };
    let roots = chars_of_all(python_sys_path);
    let prefixes = chars_of_all(module_names);
    let chars = to_chars(content.as_str());
    let name = to_chars(file);
    let dir = parent_of(name.as_slice());
    match inline_chars(
        fs,
        &roots,
        &prefixes,
        opt.release,
        chars.as_slice(),
        dir.as_slice(),
        processed,
    ) {
        Err(e) => Err(e),
        Ok(text) => Ok(to_string(text.as_slice())),
    }
}

/// The text that a run writes: the inlined text of the entry file, tidied in
/// release mode. The directory of the entry file, in the absolute form
/// `canonical_input` of its path, is the first search root. `None` where the
/// entry file, or a file that an import resolves to, is no regular file.
pub open spec fn run_output(
    tree: Tree,
    canonical_input: Seq<char>,
    sys_path: Seq<Seq<char>>,
    opt: Opt,
) -> Option<Seq<char>> {
    let key = segments(opt.input_file@);
    let st = settings_for(
        seq![parent_dir(canonical_input)] + sys_path,
        module_prefixes(opt.module_names@),
        opt.release,
    );
    if !tree.dom().finite() || !is_file_at(tree, key) {
        None
    } else {
        match inline_text(
            tree,
            st,
            tree[key]->File_0,
            parent_dir(opt.input_file@),
            Set::<Seq<Seq<char>>>::empty(),
        ) {
            None => None,
            Some((text, processed)) => Some(
                if opt.release {
                    release_text(text)
                } else {
                    text
                },
            ),
        }
    }
}

/// Inlines the entry file of `opt` and writes the result to its output file.
///
/// A failure of the store ends the run. Where the run succeeds, the output
/// file holds what [`run_output`] says, and every place of the store that is
/// neither the output file nor below it is as before. A run that fails before
/// it writes leaves the store as it was. On a store that answers, the run
/// succeeds if and only if [`run_output`] gives a text and the directory that
/// is to hold the output file exists.
pub fn run<FS: FileSystem>(opt: Opt, fs: &mut FS, python_sys_path: &Vec<String>) -> (r: Result<
    (),
    InlineError,
>)
    requires
        old(fs).inv(),
        old(fs).tree().dom().finite(),
    ensures
        final(fs).inv(),
        final(fs).answers() == old(fs).answers(),
        r matches Err(e) ==> e is Io,
        old(fs).answers() ==> (r is Ok <==> run_output(
            old(fs).tree(),
            old(fs).canonical(opt.input_file@),
            string_views(python_sys_path@),
            opt,
        ) is Some && can_hold(old(fs).tree(), segments(opt.output_file@))),
        r is Ok ==> same_outside(old(fs).tree(), final(fs).tree(), segments(opt.output_file@)),
        r matches Err(e) ==> final(fs).tree() == old(fs).tree() || (e matches InlineError::Io {
            path,
            cause,
        } && path@ == opt.output_file@),
        !is_file_at(old(fs).tree(), segments(opt.input_file@)) ==> (r matches Err(
            InlineError::Io { path, cause },
        ) && path@ == opt.input_file@ && final(fs).tree() == old(fs).tree() && (old(
            fs,
        ).answers() ==> cause == old(fs).read_failure(segments(opt.input_file@)))),
        r is Ok ==> (run_output(
            old(fs).tree(),
            old(fs).canonical(opt.input_file@),
            string_views(python_sys_path@),
            opt,
        ) matches Some(text) && final(fs).tree().contains_pair(
            segments(opt.output_file@),
            Node::File(text),
        )),
{
    let canonical = match fs.canonicalize(opt.input_file.as_str()) {
        Err(cause) => {
            return Err(InlineError::Io { path: opt.input_file.clone(), cause });
        },
        Ok(canonical) => canonical,
    };
    let canonical_chars = to_chars(canonical.as_str());
    let working_dir = parent_of(canonical_chars.as_slice());
    let mut roots: Vec<Vec<char>> = Vec::new();
    roots.push(working_dir);
    let rest = chars_of_all(python_sys_path);
    let mut k: usize = 0;
    while k < rest.len()
        invariant
            k <= rest@.len(),
            roots@.len() == k + 1,
            roots@[0]@ == parent_dir(canonical@),
            forall|j: int| 0 <= j < k ==> roots@[j + 1]@ == rest@[j]@,
        decreases rest@.len() - k,
    {
        let root = copy_range(rest[k].as_slice(), 0, rest[k].len());
        assert(root@ =~= rest@[k as int]@);
        roots.push(root);
        k += 1;
    }
    proof {
        assert(views_of(roots@) =~= seq![parent_dir(canonical@)] + string_views(python_sys_path@));
    }
    let prefixes = prefixes_of(opt.module_names.as_str());
    let content = match fs.read_to_string(opt.input_file.as_str()) {
        Err(cause) => {
            return Err(InlineError::Io { path: opt.input_file.clone(), cause });
        },
        Ok(content) => content,
    };
    let chars = to_chars(content.as_str());
    let name = to_chars(opt.input_file.as_str());
    let dir = parent_of(name.as_slice());
    let mut processed = ProcessedSet::new();
    let inlined = match inline_chars(
        fs,
        &roots,
        &prefixes,
        opt.release,
        chars.as_slice(),
        dir.as_slice(),
        &mut processed,
    ) {
        Err(e) => {
            return Err(e);
        },
        Ok(inlined) => inlined,
    };
    let text = if opt.release {
        tidy_chars(inlined.as_slice())
    } else {
        inlined
    };
    let written = to_string(text.as_slice());
    match fs.write(opt.output_file.as_str(), written.as_str()) {
        Err(cause) => Err(InlineError::Io { path: opt.output_file.clone(), cause }),
        Ok(_) => Ok(()),
    }
}

} // verus!

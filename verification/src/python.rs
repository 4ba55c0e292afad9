//! What the Python interpreter says of its module search path.
//!
//! The interpreter prints one directory per line. Running it is left to the
//! caller; what it printed is read here.

use crate::fs::{is_dir_at, FileSystem, FsError, Tree};
use crate::path::segments;
use crate::text::{
    copy_range, find_line_end, lemma_line_end, line_end, string_views, to_chars, to_string,
};
use vstd::prelude::*;

verus! {

/// The failure to learn the search path from the interpreter, with its
/// description.
#[derive(Debug, Clone)]
pub struct CommandError(pub String);

impl CommandError {
    /// The description of the failure.
    pub fn message(&self) -> (s: String)
        ensures
            s@ == self.0@,
    {
        self.0.clone()
    }
}

/// The line `l` without the carriage return at its end, if it has one.
pub open spec fn without_carriage_return(l: Seq<char>) -> Seq<char> {
    if l.len() > 0 && l.last() == '\r' {
        l.drop_last()
    } else {
        l
    }
}

/// The entries that the text `s` names from index `i` on, one for each line.
/// A line that a line feed ends loses the carriage return before it; what
/// follows the last line feed is an entry as it stands, unless it is empty.
pub open spec fn entries_from(s: Seq<char>, i: int) -> Seq<Seq<char>>
    decreases s.len() - i,
{
    if i < 0 || i >= s.len() {
        Seq::empty()
    } else {
        proof {
            lemma_line_end(s, i);
        }
        if line_end(s, i) >= s.len() {
            seq![s.subrange(i, line_end(s, i))]
        } else {
            seq![without_carriage_return(s.subrange(i, line_end(s, i)))] + entries_from(
                s,
                line_end(s, i) + 1,
            )
        }
    }
}

/// The search path that the output `output` of the interpreter names: one
/// entry for each line, without the line's end.
pub open spec fn sys_path_of(output: Seq<char>) -> Seq<Seq<char>> {
    entries_from(output, 0)
}

/// Reads the search path from the output of the interpreter.
pub fn parse_sys_path(output: &str) -> (path: Vec<String>)
    ensures
        string_views(path@) == sys_path_of(output@),
{
    let chars = to_chars(output);
    let s = chars.as_slice();
    let mut path: Vec<String> = Vec::new();
    let mut i: usize = 0;
    proof {
        assert(string_views(path@) =~= Seq::<Seq<char>>::empty());
    }
    while i < s.len()
        invariant
            i <= s.len(),
            s@ == output@,
            string_views(path@) + entries_from(s@, i as int) == sys_path_of(s@),
        decreases s.len() - i,
    {
        let e = find_line_end(s, i);
        let mut end = e;
        if e < s.len() && end > i && s[end - 1] == '\r' {
            end -= 1;
        }
        let entry = to_string(copy_range(s, i, end).as_slice());
        proof {
            let line = s@.subrange(i as int, e as int);
            if e < s.len() {
                if end < e {
                    assert(line.drop_last() =~= s@.subrange(i as int, end as int));
                }
                assert(entry@ == without_carriage_return(line));
            }
            assert(string_views(path@.push(entry)) =~= string_views(path@) + seq![entry@]);
        }
        path.push(entry);
        if e < s.len() {
            i = e + 1;
        } else {
            i = e;
        }
    }
    proof {
        assert(entries_from(s@, i as int) =~= Seq::<Seq<char>>::empty());
    }
    path
}

/// How the run of the interpreter ended.
pub enum Outcome {
    /// The interpreter could not be started; the text says why.
    NotStarted(String),
    /// The interpreter ran and ended.
    Exited {
        /// Whether it reported success.
        success: bool,
        /// Its exit status as a text.
        status: String,
        /// What it wrote to its standard output, where that is valid UTF-8.
        stdout: Option<String>,
        /// What it wrote to its standard error.
        stderr: String,
    },
}

/// What stands for an output that is no valid UTF-8.
pub open spec fn invalid_output() -> Seq<char> {
    "<invalid utf-8>"@
}

/// The description of the failure to learn the search path from `outcome`.
pub open spec fn failure_text(outcome: Outcome) -> Seq<char> {
    match outcome {
        Outcome::NotStarted(why) => "Command failed with error: "@ + why@,
        Outcome::Exited { success, status, stdout, stderr } => if success {
            "Error converting output to string: "@ + invalid_output()
        } else {
            "Command failed with status: "@ + status@ + "\nstdout: "@ + (match stdout {
                Some(text) => text@,
                None => invalid_output(),
            }) + "\nstderr: "@ + stderr@
        },
    }
}

/// The search path that the run of the interpreter gives. A run that ended
/// with success and wrote valid UTF-8 gives the entries of what it wrote;
/// any other is a failure, whose description holds the status and what was
/// written.
pub fn sys_path_from(outcome: &Outcome) -> (r: Result<Vec<String>, CommandError>)
    ensures
        match *outcome {
            Outcome::Exited { success: true, stdout: Some(text), .. } => r matches Ok(v)
                && string_views(v@) == sys_path_of(text@),
            _ => r matches Err(e) && e.0@ == failure_text(*outcome),
        },
{
    match outcome {
        Outcome::NotStarted(why) => {
            let mut text = String::from_str("Command failed with error: ");
            text.append(why.as_str());
            Err(CommandError(text))
        },
        Outcome::Exited { success, status, stdout, stderr } => {
            if *success {
                match stdout {
                    Some(written) => Ok(parse_sys_path(written.as_str())),
                    None => {
                        let mut text = String::from_str("Error converting output to string: ");
                        text.append("<invalid utf-8>");
                        Err(CommandError(text))
                    },
                }
            } else {
                let mut text = String::from_str("Command failed with status: ");
                text.append(status.as_str());
                text.append("\nstdout: ");
                match stdout {
                    Some(written) => {
                        text.append(written.as_str());
                    },
                    None => {
                        text.append("<invalid utf-8>");
                    },
                }
                text.append("\nstderr: ");
                text.append(stderr.as_str());
                Err(CommandError(text))
            }
        },
    }
}

/// Whether `answer` is the answer yes of a store; a failure counts as no.
pub fn is_yes(answer: &Result<bool, FsError>) -> (b: bool)
    ensures
        b == (*answer == Ok::<bool, FsError>(true)),
{
    match answer {
        Ok(true) => true,
        _ => false,
    }
}

/// Whether the store says that a directory stands at `path`; a failure of the
/// store counts as no.
fn directory_at<FS: FileSystem>(fs: &mut FS, path: &str) -> (b: bool)
    requires
        old(fs).inv(),
    ensures
        final(fs).inv(),
        final(fs).tree() == old(fs).tree(),
        final(fs).answers() == old(fs).answers(),
        b ==> is_dir_at(old(fs).tree(), segments(path@)),
        old(fs).answers() ==> b == is_dir_at(old(fs).tree(), segments(path@)),
{
    let answer = fs.is_dir(path);
    is_yes(&answer)
}

/// The entries of `paths` whose mark in `marks` is set, in order.
pub open spec fn marked(paths: Seq<Seq<char>>, marks: Seq<bool>) -> Seq<Seq<char>>
    decreases paths.len(),
{
    if paths.len() == 0 || marks.len() != paths.len() {
        Seq::empty()
    } else if marks.last() {
        marked(paths.drop_last(), marks.drop_last()).push(paths.last())
    } else {
        marked(paths.drop_last(), marks.drop_last())
    }
}

/// The marks that pick the entries of `paths` at which `tree` holds a
/// directory.
pub open spec fn directory_marks(tree: Tree, paths: Seq<Seq<char>>) -> Seq<bool> {
    Seq::new(paths.len(), |j: int| is_dir_at(tree, segments(paths[j])))
}

/// Keeps the entries of `paths` at which the store finds a directory, in
/// order. An entry on which the store fails is left out, so what is kept is
/// what some marks pick, and a directory stands at each entry that is picked.
/// On a store that answers, every entry at which a directory stands is kept.
pub fn existing_directories<FS: FileSystem>(fs: &mut FS, paths: &Vec<String>) -> (kept: Vec<String>)
    requires
        old(fs).inv(),
    ensures
        final(fs).inv(),
        final(fs).tree() == old(fs).tree(),
        exists|marks: Seq<bool>|
            marks.len() == paths@.len() && string_views(kept@) == #[trigger] marked(
                string_views(paths@),
                marks,
            ) && forall|j: int|
                0 <= j < marks.len() && #[trigger] marks[j] ==> is_dir_at(
                    old(fs).tree(),
                    segments(paths@[j]@),
                ),
        final(fs).answers() == old(fs).answers(),
        old(fs).answers() ==> string_views(kept@) == marked(
            string_views(paths@),
            directory_marks(old(fs).tree(), string_views(paths@)),
        ),
{
    let mut kept: Vec<String> = Vec::new();
    let mut k: usize = 0;
    let ghost all = string_views(paths@);
    let ghost mut marks = Seq::<bool>::empty();
    proof {
        assert(all.take(0) =~= Seq::<Seq<char>>::empty());
        assert(string_views(kept@) =~= Seq::<Seq<char>>::empty());
    }
    while k < paths.len()
        invariant
            k <= paths@.len(),
            fs.inv(),
            fs.tree() == old(fs).tree(),
            fs.answers() == old(fs).answers(),
            all == string_views(paths@),
            marks.len() == k,
            old(fs).answers() ==> forall|j: int|
                0 <= j < k ==> #[trigger] marks[j] == is_dir_at(
                    old(fs).tree(),
                    segments(paths@[j]@),
                ),
            string_views(kept@) == marked(all.take(k as int), marks),
            forall|j: int|
                0 <= j < k && #[trigger] marks[j] ==> is_dir_at(
                    old(fs).tree(),
                    segments(paths@[j]@),
                ),
        decreases paths@.len() - k,
    {
        let found = directory_at(fs, paths[k].as_str());
        proof {
            assert(all.take(k + 1).drop_last() =~= all.take(k as int));
            assert(all.take(k + 1).last() == paths@[k as int]@);
            assert(marks.push(found).drop_last() =~= marks);
        }
        if found {
            let path = paths[k].clone();
            proof {
                assert(string_views(kept@.push(path)) =~= string_views(kept@).push(path@));
            }
            kept.push(path);
        }
        proof {
            marks = marks.push(found);
        }
        k += 1;
    }
    proof {
        assert(all.take(k as int) =~= all);
        if old(fs).answers() {
            assert(marks =~= directory_marks(old(fs).tree(), all));
        }
    }
    kept
}

} // verus!

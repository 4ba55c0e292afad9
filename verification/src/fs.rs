//! The storage that the inliner reads from and writes to.
//!
//! A store is modelled as a tree: a map from segment lists (see
//! [`crate::path::segments`]) to nodes. The empty list is the root.

use crate::path::segments;
use crate::text::string_views;
use vstd::prelude::*;

verus! {

/// Why an operation on a store failed.
#[derive(Debug, Clone, PartialEq, Eq)]
pub enum FsError {
    /// Nothing is at the path, or at one of the directories on the way to it.
    NotFound,
    /// A regular file stands where a directory is needed.
    NotADirectory,
    /// A directory stands where a regular file is needed.
    IsADirectory,
    /// A regular file stands where a directory was to be made.
    AlreadyExists,
    /// The path names no entry that could be written or removed: it has no
    /// segment.
    InvalidInput,
    /// The directory to remove still holds entries.
    DirectoryNotEmpty,
    /// Any other failure, with the text that the store gave for it.
    Other(String),
}

impl FsError {
    /// The text that describes the failure.
    pub open spec fn text(self) -> Seq<char> {
        match self {
            FsError::NotFound => "Path not found"@,
            FsError::NotADirectory => "Not a directory"@,
            FsError::IsADirectory => "Is a directory"@,
            FsError::AlreadyExists => "File exists"@,
            FsError::InvalidInput => "Invalid path"@,
            FsError::DirectoryNotEmpty => "Directory not empty"@,
            FsError::Other(t) => t@,
        }
    }

    /// A short description of the failure.
    pub fn message(&self) -> (s: String)
        ensures
            s@ == self.text(),
    {
        match self {
            FsError::NotFound => String::from_str("Path not found"),
            FsError::NotADirectory => String::from_str("Not a directory"),
            FsError::IsADirectory => String::from_str("Is a directory"),
            FsError::AlreadyExists => String::from_str("File exists"),
            FsError::InvalidInput => String::from_str("Invalid path"),
            FsError::DirectoryNotEmpty => String::from_str("Directory not empty"),
            FsError::Other(t) => t.clone(),
        }
    }
}

/// What stands at one place of a store.
pub enum Node {
    /// A directory.
    Directory,
    /// A regular file with its text.
    File(Seq<char>),
}

/// A store as a tree: each place that exists, with what stands there.
pub type Tree = Map<Seq<Seq<char>>, Node>;

/// Whether a regular file stands at `key`.
pub open spec fn is_file_at(tree: Tree, key: Seq<Seq<char>>) -> bool {
    tree.dom().contains(key) && tree[key] is File
}

/// Whether a directory stands at `key`.
pub open spec fn is_dir_at(tree: Tree, key: Seq<Seq<char>>) -> bool {
    tree.dom().contains(key) && tree[key] is Directory
}

/// Whether `q` is an entry of the directory `key`: one segment longer, and
/// `key` without it.
pub open spec fn is_child(key: Seq<Seq<char>>, q: Seq<Seq<char>>) -> bool {
    q.len() == key.len() + 1 && q.drop_last() == key
}

/// Whether the paths `listed` name the entries of the directory `key` of
/// `tree`: each names one, and each entry is named.
pub open spec fn lists_children(tree: Tree, key: Seq<Seq<char>>, listed: Seq<Seq<char>>) -> bool {
    &&& forall|j: int|
        0 <= j < listed.len() ==> tree.dom().contains(segments(#[trigger] listed[j])) && is_child(
            key,
            segments(listed[j]),
        )
    &&& forall|q: Seq<Seq<char>>|
        tree.dom().contains(q) && is_child(key, q) ==> exists|j: int|
            0 <= j < listed.len() && segments(#[trigger] listed[j]) == q
}

/// Whether `q` is `key` or lies below it: `key` is a prefix of `q`.
pub open spec fn is_under(key: Seq<Seq<char>>, q: Seq<Seq<char>>) -> bool {
    q.len() >= key.len() && q.take(key.len() as int) == key
}

/// Whether a regular file can be put at `key`: `key` has a segment, and a
/// directory stands where `key` without its last segment points.
pub open spec fn can_hold(tree: Tree, key: Seq<Seq<char>>) -> bool {
    key.len() > 0 && is_dir_at(tree, key.drop_last())
}

/// Whether `after` is as `before` at every place that is neither `key` nor
/// below it.
pub open spec fn same_outside(before: Tree, after: Tree, key: Seq<Seq<char>>) -> bool {
    forall|q: Seq<Seq<char>>|
        !is_under(key, q) ==> (#[trigger] after.dom().contains(q) == before.dom().contains(q)) && (
        before.dom().contains(q) ==> after[q] == before[q])
}

/// Some tree with finitely many entries: the tree of a store of which no more
/// is known.
pub open spec fn unknown_tree() -> Tree {
    choose|tree: Tree| tree.dom().finite()
}

/// The unknown tree holds finitely many entries.
pub proof fn lemma_unknown_tree_finite()
    ensures
        unknown_tree().dom().finite(),
{
    assert(Map::<Seq<Seq<char>>, Node>::empty().dom().finite());
}

/// A hierarchical store of directories and text files.
///
/// An implementation promises that its operations agree with one tree, which
/// only `write`, `mkdir_p`, `remove_file` and `remove_dir` change. A store may
/// fail for reasons of its own, unless it says of itself that it answers: such
/// a store fails on no question that its tree can answer.
///
/// The tree, the well-formedness and the absolute form of a path are ghost. A
/// store that is verified defines them. A store that is written in plain Rust
/// leaves them as they stand here: its tree is some finite tree, of which no
/// more is known, and the store is trusted to keep the promise.
pub trait FileSystem {
    /// Whether the store is well formed: what each operation asks for and
    /// keeps.
    open spec fn inv(&self) -> bool {
        true
    }

    /// The tree that the store holds.
    open spec fn tree(&self) -> Tree {
        unknown_tree()
    }

    /// Whether the store answers: whether it succeeds wherever its tree alone
    /// decides. A store that may fail for other reasons does not answer.
    open spec fn answers(&self) -> bool {
        false
    }

    /// The failure with which a store that answers refuses to read what
    /// stands at `key`, where no regular file stands there.
    open spec fn read_failure(&self, key: Seq<Seq<char>>) -> FsError {
        arbitrary()
    }

    /// The absolute form that the store gives the path `path`.
    open spec fn canonical(&self, path: Seq<char>) -> Seq<char> {
        arbitrary()
    }

    /// The absolute form of `path`.
    fn canonicalize(&self, path: &str) -> (r: Result<String, FsError>)
        requires
            self.inv(),
        ensures
            r matches Ok(p) ==> p@ == self.canonical(path@),
            self.answers() ==> r is Ok,
    ;

    /// Makes `contents` the text of the regular file at `path`.
    fn write(&mut self, path: &str, contents: &str) -> (r: Result<(), FsError>)
        requires
            old(self).inv(),
        ensures
            final(self).inv(),
            final(self).answers() == old(self).answers(),
            r is Ok ==> final(self).tree().contains_pair(segments(path@), Node::File(contents@)),
            r is Ok ==> can_hold(old(self).tree(), segments(path@)),
            r is Ok ==> same_outside(old(self).tree(), final(self).tree(), segments(path@)),
            old(self).answers() && can_hold(old(self).tree(), segments(path@)) ==> r is Ok,
    ;

    /// The text of the regular file at `path`.
    fn read_to_string(&mut self, path: &str) -> (r: Result<String, FsError>)
        requires
            old(self).inv(),
        ensures
            final(self).inv(),
            final(self).tree() == old(self).tree(),
            final(self).answers() == old(self).answers(),
            r matches Ok(s) ==> old(self).tree().contains_pair(segments(path@), Node::File(s@)),
            old(self).answers() && is_file_at(old(self).tree(), segments(path@)) ==> r is Ok,
            old(self).answers() ==> (r matches Err(e) ==> e == old(self).read_failure(
                segments(path@),
            )),
    ;

    /// The paths of the entries of the directory at `path`.
    fn read_dir(&mut self, path: &str) -> (r: Result<Vec<String>, FsError>)
        requires
            old(self).inv(),
        ensures
            final(self).inv(),
            final(self).tree() == old(self).tree(),
            r matches Ok(v) ==> is_dir_at(old(self).tree(), segments(path@)) && lists_children(
                old(self).tree(),
                segments(path@),
                string_views(v@),
            ),
            final(self).answers() == old(self).answers(),
            old(self).answers() && is_dir_at(old(self).tree(), segments(path@)) ==> r is Ok,
    ;

    /// Makes the directory at `path`, and those on the way to it.
    fn mkdir_p(&mut self, path: &str) -> (r: Result<(), FsError>)
        requires
            old(self).inv(),
        ensures
            final(self).inv(),
            final(self).answers() == old(self).answers(),
            r is Ok ==> is_dir_at(final(self).tree(), segments(path@)),
    ;

    /// Removes the regular file at `path`.
    fn remove_file(&mut self, path: &str) -> (r: Result<(), FsError>)
        requires
            old(self).inv(),
        ensures
            final(self).inv(),
            final(self).answers() == old(self).answers(),
            r is Ok ==> !final(self).tree().dom().contains(segments(path@)),
    ;

    /// Removes the empty directory at `path`.
    fn remove_dir(&mut self, path: &str) -> (r: Result<(), FsError>)
        requires
            old(self).inv(),
        ensures
            final(self).inv(),
            final(self).answers() == old(self).answers(),
            r is Ok ==> !final(self).tree().dom().contains(segments(path@)),
    ;

    /// Whether a regular file stands at `path`.
    fn is_file(&mut self, path: &str) -> (r: Result<bool, FsError>)
        requires
            old(self).inv(),
        ensures
            final(self).inv(),
            final(self).tree() == old(self).tree(),
            final(self).answers() == old(self).answers(),
            r matches Ok(b) ==> b == is_file_at(old(self).tree(), segments(path@)),
            old(self).answers() ==> r is Ok,
    ;

    /// Whether a directory stands at `path`.
    fn is_dir(&mut self, path: &str) -> (r: Result<bool, FsError>)
        requires
            old(self).inv(),
        ensures
            final(self).inv(),
            final(self).tree() == old(self).tree(),
            final(self).answers() == old(self).answers(),
            r matches Ok(b) ==> b == is_dir_at(old(self).tree(), segments(path@)),
            old(self).answers() ==> r is Ok,
    ;

    /// Whether anything stands at `path`.
    fn path_exists(&mut self, path: &str) -> (r: Result<bool, FsError>)
        requires
            old(self).inv(),
        ensures
            final(self).inv(),
            final(self).tree() == old(self).tree(),
            final(self).answers() == old(self).answers(),
            r matches Ok(b) ==> b == old(self).tree().dom().contains(segments(path@)),
            old(self).answers() ==> r is Ok,
    ;
}

} // verus!

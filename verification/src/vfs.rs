//! A store kept in memory: a table of entries, one for each directory and
//! regular file, keyed by the segments of its path.

use crate::fs::{
    can_hold, is_child, is_dir_at, is_file_at, is_under, lists_children, same_outside, FileSystem,
    FsError, Node, Tree,
};
use crate::path::{
    absolute_path, are_segments, is_segment, lemma_segments_are_segments,
    lemma_segments_of_absolute_path, make_absolute_path, same_segments, segments, split_path,
};
use crate::text::{copy_range, same_chars, string_views, to_chars, to_string, views_of};
use vstd::prelude::*;

verus! {

/// A regular file of a [`VirtualFileSystem`].
pub struct VirtualFile {
    pub contents: String,
}

/// What an entry of a [`VirtualFileSystem`] is.
pub enum VirtualNode {
    Directory,
    File(VirtualFile),
}

/// One entry of a [`VirtualFileSystem`]: the segments of its path, and what
/// stands there.
pub struct VirtualEntry {
    pub key: Vec<Vec<char>>,
    pub node: VirtualNode,
}

/// A store kept in memory.
pub struct VirtualFileSystem {
    entries: Vec<VirtualEntry>,
}

/// What `n` is in the tree of its store.
pub open spec fn node_view(n: VirtualNode) -> Node {
    match n {
        VirtualNode::Directory => Node::Directory,
        VirtualNode::File(f) => Node::File(f.contents@),
    }
}

/// The keys of `entries`, in order.
pub open spec fn keys_of(entries: Seq<VirtualEntry>) -> Seq<Seq<Seq<char>>> {
    Seq::new(entries.len(), |i: int| views_of(entries[i].key@))
}

/// The tree that `entries` hold: a place exists where an entry has its key,
/// and the first such entry says what stands there.
pub open spec fn tree_of(entries: Seq<VirtualEntry>) -> Tree {
    Map::new(
        |k: Seq<Seq<char>>| keys_of(entries).contains(k),
        |k: Seq<Seq<char>>| node_view(entries[keys_of(entries).index_of(k)].node),
    )
}

/// Whether `entries` are a well-formed table: no key occurs twice, every key
/// is made of segments, the root is a directory, and every other entry lies
/// in a directory of the table.
pub open spec fn table_ok(entries: Seq<VirtualEntry>) -> bool {
    &&& keys_of(entries).no_duplicates()
    &&& forall|i: int| 0 <= i < entries.len() ==> are_segments(#[trigger] keys_of(entries)[i])
    &&& is_dir_at(tree_of(entries), Seq::<Seq<char>>::empty())
    &&& forall|i: int|
        0 <= i < entries.len() && (#[trigger] keys_of(entries)[i]).len() > 0 ==> is_dir_at(
            tree_of(entries),
            keys_of(entries)[i].drop_last(),
        )
}

/// In a table without duplicate keys, the tree holds at each entry's key what
/// that entry is.
pub proof fn lemma_tree_at(entries: Seq<VirtualEntry>, i: int)
    requires
        keys_of(entries).no_duplicates(),
        0 <= i < entries.len(),
    ensures
        tree_of(entries).dom().contains(keys_of(entries)[i]),
        tree_of(entries)[keys_of(entries)[i]] == node_view(entries[i].node),
{
    let keys = keys_of(entries);
    assert(keys.contains(keys[i]));
    let j = keys.index_of(keys[i]);
    assert(0 <= j < keys.len() && keys[j] == keys[i]);
}

/// Where the walk from the root to `key` ends, started after `k` segments: at
/// what stands at `key`, at a regular file on the way (`NotADirectory`), or
/// where the next segment names nothing (`NotFound`).
pub open spec fn walk(tree: Tree, key: Seq<Seq<char>>, k: int) -> Result<Node, FsError>
    decreases key.len() - k,
{
    if k < 0 || k >= key.len() {
        Ok(tree[key])
    } else if tree[key.take(k)] is File {
        Err(FsError::NotADirectory)
    } else if !tree.dom().contains(key.take(k + 1)) {
        Err(FsError::NotFound)
    } else {
        walk(tree, key, k + 1)
    }
}

/// What a look-up of `key` in `tree` gives.
pub open spec fn lookup(tree: Tree, key: Seq<Seq<char>>) -> Result<Node, FsError> {
    walk(tree, key, 0)
}

/// A walk that succeeds ends at a place of the tree.
pub proof fn lemma_walk_ok(tree: Tree, key: Seq<Seq<char>>, k: int)
    requires
        0 <= k <= key.len(),
        tree.dom().contains(key.take(k)),
        walk(tree, key, k) is Ok,
    ensures
        tree.dom().contains(key),
        walk(tree, key, k) == Ok::<Node, FsError>(tree[key]),
    decreases key.len() - k,
{
    if k < key.len() {
        lemma_walk_ok(tree, key, k + 1);
    } else {
        assert(key.take(k) == key);
    }
}

/// A walk that ends with `NotFound` or `NotADirectory` shows that nothing
/// stands at `key`, in a tree whose entries all lie in directories.
pub proof fn lemma_walk_err(tree: Tree, key: Seq<Seq<char>>, k: int)
    requires
        0 <= k <= key.len(),
        walk(tree, key, k) is Err,
        forall|q: Seq<Seq<char>>| #[trigger]
            tree.dom().contains(q) && q.len() > 0 ==> is_dir_at(tree, q.drop_last()),
    ensures
        !tree.dom().contains(key),
    decreases key.len() - k,
{
    if k < key.len() {
        if tree[key.take(k)] is File {
            lemma_prefixes_are_dirs(tree, key, k);
        } else if !tree.dom().contains(key.take(k + 1)) {
            if k + 1 < key.len() {
                lemma_prefixes_are_dirs(tree, key, k + 1);
            } else {
                assert(key.take(k + 1) == key);
            }
        } else {
            lemma_walk_err(tree, key, k + 1);
        }
    }
}

/// Where something stands at `key`, a directory stands at each proper prefix
/// of `key`, in a tree whose entries all lie in directories.
pub proof fn lemma_prefixes_are_dirs(tree: Tree, key: Seq<Seq<char>>, k: int)
    requires
        0 <= k < key.len(),
        forall|q: Seq<Seq<char>>| #[trigger]
            tree.dom().contains(q) && q.len() > 0 ==> is_dir_at(tree, q.drop_last()),
    ensures
        tree.dom().contains(key) ==> is_dir_at(tree, key.take(k)),
    decreases key.len() - k,
{
    if tree.dom().contains(key) {
        if k + 1 == key.len() {
            assert(key.take(k) == key.drop_last());
        } else {
            lemma_prefixes_are_dirs(tree, key, k + 1);
            assert(key.take(k + 1).drop_last() == key.take(k));
        }
    }
}

/// Every entry of a well-formed table lies in a directory of its tree.
pub proof fn lemma_table_closed(entries: Seq<VirtualEntry>)
    requires
        table_ok(entries),
    ensures
        tree_of(entries).dom().contains(Seq::<Seq<char>>::empty()),
        is_dir_at(tree_of(entries), Seq::<Seq<char>>::empty()),
        forall|q: Seq<Seq<char>>| #[trigger]
            tree_of(entries).dom().contains(q) && q.len() > 0 ==> is_dir_at(
                tree_of(entries),
                q.drop_last(),
            ),
        forall|q: Seq<Seq<char>>| #[trigger] tree_of(entries).dom().contains(q) ==> are_segments(q),
{
    let keys = keys_of(entries);
    assert forall|q: Seq<Seq<char>>| #[trigger] tree_of(entries).dom().contains(q) implies are_segments(
        q,
    ) by {
        let i = keys.index_of(q);
        assert(keys[i] == q);
    }
    assert forall|q: Seq<Seq<char>>| #[trigger]
        tree_of(entries).dom().contains(q) && q.len() > 0 implies is_dir_at(
        tree_of(entries),
        q.drop_last(),
    ) by {
        let i = keys.index_of(q);
        assert(keys[i] == q);
    }
}

/// The places that are `key` or lie below it.
pub open spec fn under_set(key: Seq<Seq<char>>) -> Set<Seq<Seq<char>>> {
    Set::new(|q: Seq<Seq<char>>| is_under(key, q))
}

/// Whether the directory `key` of `tree` holds no entry.
pub open spec fn is_empty_dir(tree: Tree, key: Seq<Seq<char>>) -> bool {
    forall|q: Seq<Seq<char>>| #[trigger] tree.dom().contains(q) ==> !is_child(key, q)
}

/// Executable form of [`is_under`].
pub fn has_prefix(q: &Vec<Vec<char>>, key: &Vec<Vec<char>>) -> (r: bool)
    ensures
        r == is_under(views_of(key@), views_of(q@)),
{
    if q.len() < key.len() {
        return false;
    }
    let mut i: usize = 0;
    while i < key.len()
        invariant
            i <= key@.len() <= q@.len(),
            forall|j: int| 0 <= j < i ==> q@[j]@ == key@[j]@,
        decreases key@.len() - i,
    {
        if !same_chars(q[i].as_slice(), key[i].as_slice()) {
            assert(views_of(q@).take(key@.len() as int)[i as int] != views_of(key@)[i as int]);
            return false;
        }
        i += 1;
    }
    assert(views_of(q@).take(key@.len() as int) =~= views_of(key@));
    true
}

/// A copy of the segment list `key`.
pub fn copy_key(key: &Vec<Vec<char>>) -> (c: Vec<Vec<char>>)
    ensures
        views_of(c@) == views_of(key@),
{
    let mut c: Vec<Vec<char>> = Vec::new();
    let mut i: usize = 0;
    while i < key.len()
        invariant
            i <= key@.len(),
            c@.len() == i,
            forall|j: int| 0 <= j < i ==> c@[j]@ == key@[j]@,
        decreases key@.len() - i,
    {
        let seg = copy_range(key[i].as_slice(), 0, key[i].len());
        assert(seg@ == key@[i as int]@);
        c.push(seg);
        i += 1;
    }
    assert(views_of(c@) =~= views_of(key@));
    c
}

/// Adding an entry under a new key, in a directory of the table, keeps the
/// table well formed and adds that one place to its tree.
pub proof fn lemma_push_entry(entries: Seq<VirtualEntry>, e: VirtualEntry)
    requires
        table_ok(entries),
        !tree_of(entries).dom().contains(views_of(e.key@)),
        e.key@.len() > 0,
        are_segments(views_of(e.key@)),
        is_dir_at(tree_of(entries), views_of(e.key@).drop_last()),
    ensures
        table_ok(entries.push(e)),
        tree_of(entries.push(e)) == tree_of(entries).insert(views_of(e.key@), node_view(e.node)),
{
    let after = entries.push(e);
    let keys = keys_of(entries);
    let keys2 = keys_of(after);
    let key = views_of(e.key@);
    assert(keys2 =~= keys.push(key));
    assert(!keys.contains(key));
    assert(keys2.no_duplicates());
    assert forall|q: Seq<Seq<char>>| #[trigger] tree_of(after).dom().contains(q) implies tree_of(
        after,
    )[q] == tree_of(entries).insert(key, node_view(e.node))[q] by {
        let i = keys2.index_of(q);
        lemma_tree_at(after, i);
        if i < entries.len() {
            assert(keys[i] == q);
            lemma_tree_at(entries, i);
        }
    }
    assert forall|q: Seq<Seq<char>>|
        tree_of(entries).insert(key, node_view(e.node)).dom().contains(q) implies #[trigger] tree_of(
        after,
    ).dom().contains(q) by {
        if q == key {
            assert(keys2[entries.len() as int] == key);
        } else {
            let i = keys.index_of(q);
            assert(keys2[i] == q);
        }
    }
    assert(tree_of(after) =~= tree_of(entries).insert(key, node_view(e.node)));
    assert forall|i: int| 0 <= i < after.len() && (#[trigger] keys2[i]).len() > 0 implies is_dir_at(
        tree_of(after),
        keys2[i].drop_last(),
    ) by {
        if i < entries.len() {
            assert(keys[i] == keys2[i]);
        }
    }
    assert forall|i: int| 0 <= i < after.len() implies are_segments(#[trigger] keys2[i]) by {
        if i < entries.len() {
            assert(keys[i] == keys2[i]);
        }
    }
}

/// The entries of `entries` from index `m` on that are neither `key` nor
/// below it, last first.
pub open spec fn survivors(entries: Seq<VirtualEntry>, m: int, key: Seq<Seq<char>>) -> Seq<
    VirtualEntry,
>
    decreases entries.len() - m,
{
    if m < 0 || m >= entries.len() {
        Seq::empty()
    } else if is_under(key, keys_of(entries)[m]) {
        survivors(entries, m + 1, key)
    } else {
        survivors(entries, m + 1, key).push(entries[m])
    }
}

/// Whether `x` is the key of an entry of `entries` at index `m` or later.
pub open spec fn in_tail(entries: Seq<VirtualEntry>, m: int, x: Seq<Seq<char>>) -> bool {
    exists|j: int| m <= j < entries.len() && #[trigger] keys_of(entries)[j] == x
}

/// What [`survivors`] keeps: the keys from index `m` on that are not under
/// `key`, each once and with the node it had.
pub proof fn lemma_survivors(entries: Seq<VirtualEntry>, m: int, key: Seq<Seq<char>>)
    requires
        keys_of(entries).no_duplicates(),
        0 <= m <= entries.len(),
    ensures
        keys_of(survivors(entries, m, key)).no_duplicates(),
        forall|x: Seq<Seq<char>>| #[trigger]
            keys_of(survivors(entries, m, key)).contains(x) <==> in_tail(entries, m, x)
                && !is_under(key, x),
        forall|i: int|
            0 <= i < survivors(entries, m, key).len() ==> tree_of(entries)[#[trigger] keys_of(
                survivors(entries, m, key),
            )[i]] == node_view(survivors(entries, m, key)[i].node),
    decreases entries.len() - m,
{
    let s = survivors(entries, m, key);
    if m < entries.len() {
        lemma_survivors(entries, m + 1, key);
        let rest = survivors(entries, m + 1, key);
        let km = keys_of(entries)[m];
        lemma_tree_at(entries, m);
        assert forall|x: Seq<Seq<char>>| in_tail(entries, m, x) <==> (in_tail(entries, m + 1, x)
            || x == km) by {
            if in_tail(entries, m, x) {
                let j = choose|j: int| m <= j < entries.len() && #[trigger] keys_of(entries)[j] == x;
                if j > m {
                    assert(in_tail(entries, m + 1, x));
                }
            }
            if in_tail(entries, m + 1, x) {
                let j = choose|j: int|
                    m + 1 <= j < entries.len() && #[trigger] keys_of(entries)[j] == x;
                assert(m <= j < entries.len() && keys_of(entries)[j] == x);
            }
            if x == km {
                assert(keys_of(entries)[m] == x);
            }
        }
        if is_under(key, km) {
            assert(s == rest);
        } else {
            assert(s == rest.push(entries[m]));
            assert(keys_of(s) =~= keys_of(rest).push(km));
            if keys_of(rest).contains(km) {
                assert(in_tail(entries, m + 1, km));
                let j = choose|j: int|
                    m + 1 <= j < entries.len() && #[trigger] keys_of(entries)[j] == km;
                assert(false);
            }
            assert(keys_of(s).no_duplicates());
            assert forall|x: Seq<Seq<char>>| #[trigger]
                keys_of(s).contains(x) <==> in_tail(entries, m, x) && !is_under(key, x) by {
                if keys_of(s).contains(x) {
                    let i = keys_of(s).index_of(x);
                    if i < rest.len() {
                        assert(keys_of(rest)[i] == x);
                        assert(keys_of(rest).contains(x));
                    }
                }
                if in_tail(entries, m, x) && !is_under(key, x) {
                    if x == km {
                        assert(keys_of(s)[rest.len() as int] == x);
                    } else {
                        assert(keys_of(rest).contains(x));
                        let i = keys_of(rest).index_of(x);
                        assert(keys_of(s)[i] == x);
                    }
                }
            }
            assert forall|i: int| 0 <= i < s.len() implies tree_of(entries)[#[trigger] keys_of(
                s,
            )[i]] == node_view(s[i].node) by {
                if i < rest.len() {
                    assert(keys_of(rest)[i] == keys_of(s)[i]);
                }
            }
        }
    } else {
        assert(keys_of(s) =~= Seq::<Seq<Seq<char>>>::empty());
    }
}

/// Leaving out what is under a key other than the root keeps a table well
/// formed, and takes those places, and no others, out of its tree.
pub proof fn lemma_survivors_table(entries: Seq<VirtualEntry>, key: Seq<Seq<char>>)
    requires
        table_ok(entries),
        key.len() > 0,
    ensures
        table_ok(survivors(entries, 0, key)),
        tree_of(survivors(entries, 0, key)) == tree_of(entries).remove_keys(under_set(key)),
{
    let s = survivors(entries, 0, key);
    let old_tree = tree_of(entries);
    let want = old_tree.remove_keys(under_set(key));
    lemma_survivors(entries, 0, key);
    lemma_table_closed(entries);
    assert forall|x: Seq<Seq<char>>| in_tail(entries, 0, x) <==> keys_of(entries).contains(x) by {
        if keys_of(entries).contains(x) {
            let j = keys_of(entries).index_of(x);
            assert(0 <= j < entries.len() && keys_of(entries)[j] == x);
        }
    }
    assert forall|x: Seq<Seq<char>>| #[trigger] tree_of(s).dom().contains(x) <==> want.dom().contains(
        x,
    ) by {}
    assert forall|x: Seq<Seq<char>>| #[trigger] tree_of(s).dom().contains(x) implies tree_of(s)[x]
        == want[x] by {
        let i = keys_of(s).index_of(x);
        lemma_tree_at(s, i);
    }
    assert(tree_of(s) =~= want);
    let root = Seq::<Seq<char>>::empty();
    assert(!is_under(key, root));
    assert(want.dom().contains(root));
    assert forall|i: int| 0 <= i < s.len() && (#[trigger] keys_of(s)[i]).len() > 0 implies is_dir_at(
        tree_of(s),
        keys_of(s)[i].drop_last(),
    ) by {
        let q = keys_of(s)[i];
        assert(keys_of(s).contains(q));
        assert(old_tree.dom().contains(q));
        let parent = q.drop_last();
        if is_under(key, parent) {
            assert(q.take(key.len() as int) =~= parent.take(key.len() as int));
            assert(false);
        }
        assert(want.dom().contains(parent));
    }
    assert forall|i: int| 0 <= i < s.len() implies are_segments(#[trigger] keys_of(s)[i]) by {
        let q = keys_of(s)[i];
        assert(keys_of(s).contains(q));
        assert(old_tree.dom().contains(q));
    }
}

/// What making the directories of `key` from its segment `k` on does to
/// `tree`, and how it ends: each missing directory is made, and a regular file
/// on the way stops the work with `AlreadyExists`.
pub open spec fn mkdir_from(tree: Tree, key: Seq<Seq<char>>, k: int) -> (Tree, Result<(), FsError>)
    decreases key.len() - k,
{
    if k < 0 || k >= key.len() {
        (tree, Ok(()))
    } else if !tree.dom().contains(key.take(k + 1)) {
        mkdir_from(tree.insert(key.take(k + 1), Node::Directory), key, k + 1)
    } else if tree[key.take(k + 1)] is File {
        (tree, Err(FsError::AlreadyExists))
    } else {
        mkdir_from(tree, key, k + 1)
    }
}

/// Why an entry cannot be put at or taken from `key`, if it cannot: the path
/// has no segment (`InvalidInput`), the walk to the directory that is to hold
/// the entry fails, or a regular file stands where that directory should be.
pub open spec fn parent_failure(tree: Tree, key: Seq<Seq<char>>) -> Option<FsError> {
    if key.len() == 0 {
        Some(FsError::InvalidInput)
    } else {
        match lookup(tree, key.drop_last()) {
            Err(e) => Some(e),
            Ok(Node::File(_)) => Some(FsError::NotADirectory),
            Ok(Node::Directory) => None,
        }
    }
}

/// What `write` does to `tree`: whatever stood at `key` or below it goes, and
/// the regular file with `text` stands at `key`.
pub open spec fn write_tree(tree: Tree, key: Seq<Seq<char>>, text: Seq<char>) -> Tree {
    tree.remove_keys(under_set(key)).insert(key, Node::File(text))
}

/// Why the regular file at `key` cannot be removed, if it cannot.
pub open spec fn remove_file_failure(tree: Tree, key: Seq<Seq<char>>) -> Option<FsError> {
    if parent_failure(tree, key) is Some {
        parent_failure(tree, key)
    } else if !tree.dom().contains(key) {
        Some(FsError::NotFound)
    } else if tree[key] is Directory {
        Some(FsError::IsADirectory)
    } else {
        None
    }
}

/// Why the directory at `key` cannot be removed, if it cannot.
pub open spec fn remove_dir_failure(tree: Tree, key: Seq<Seq<char>>) -> Option<FsError> {
    if parent_failure(tree, key) is Some {
        parent_failure(tree, key)
    } else if !tree.dom().contains(key) {
        Some(FsError::NotFound)
    } else if tree[key] is File {
        Some(FsError::NotADirectory)
    } else if !is_empty_dir(tree, key) {
        Some(FsError::DirectoryNotEmpty)
    } else {
        None
    }
}

/// Whether `p` is the absolute path of an entry of the directory `key` of
/// `tree`.
pub open spec fn names_child(tree: Tree, key: Seq<Seq<char>>, p: Seq<char>) -> bool {
    exists|q: Seq<Seq<char>>|
        #![trigger absolute_path(q)]
        tree.dom().contains(q) && is_child(key, q) && p == absolute_path(q)
}

/// Where nothing but `key` itself is under `key` in a tree, leaving out what
/// is under `key` is removing `key`.
pub proof fn lemma_remove_single(tree: Tree, key: Seq<Seq<char>>)
    requires
        forall|q: Seq<Seq<char>>| #[trigger] tree.dom().contains(q) && is_under(key, q) ==> q == key,
    ensures
        tree.remove_keys(under_set(key)) == tree.remove(key),
{
    assert(is_under(key, key)) by {
        assert(key.take(key.len() as int) =~= key);
    }
    assert(tree.remove_keys(under_set(key)) =~= tree.remove(key));
}

/// In a tree whose entries all lie in directories, what is below `key` shows
/// that `key` is a directory with an entry.
pub proof fn lemma_below_has_child(tree: Tree, key: Seq<Seq<char>>, q: Seq<Seq<char>>)
    requires
        forall|x: Seq<Seq<char>>| #[trigger]
            tree.dom().contains(x) && x.len() > 0 ==> is_dir_at(tree, x.drop_last()),
        tree.dom().contains(q),
        is_under(key, q),
        q != key,
    ensures
        is_dir_at(tree, key),
        tree.dom().contains(q.take(key.len() as int + 1)),
        is_child(key, q.take(key.len() as int + 1)),
{
    assert(q.len() > key.len()) by {
        if q.len() == key.len() {
            assert(q.take(key.len() as int) =~= q);
        }
    }
    lemma_prefixes_are_dirs(tree, q, key.len() as int);
    let c = q.take(key.len() as int + 1);
    assert(c.drop_last() =~= q.take(key.len() as int));
    if key.len() + 1 < q.len() {
        lemma_prefixes_are_dirs(tree, q, key.len() as int + 1);
    } else {
        assert(c =~= q);
    }
}

/// The text of the regular file at `key`, or why there is none to read.
pub open spec fn read_result(tree: Tree, key: Seq<Seq<char>>) -> Result<Seq<char>, FsError> {
    match lookup(tree, key) {
        Ok(Node::File(text)) => Ok(text),
        Ok(Node::Directory) => Err(FsError::IsADirectory),
        Err(e) => Err(e),
    }
}

/// Where something stands at `key`, the walk to `key` ends there, in a tree
/// whose root is a directory and whose entries all lie in directories.
pub proof fn lemma_lookup_found(tree: Tree, key: Seq<Seq<char>>)
    requires
        tree.dom().contains(Seq::<Seq<char>>::empty()),
        forall|q: Seq<Seq<char>>| #[trigger]
            tree.dom().contains(q) && q.len() > 0 ==> is_dir_at(tree, q.drop_last()),
        tree.dom().contains(key),
    ensures
        lookup(tree, key) == Ok::<Node, FsError>(tree[key]),
{
    if lookup(tree, key) is Err {
        lemma_walk_err(tree, key, 0);
    } else {
        assert(key.take(0) =~= Seq::<Seq<char>>::empty());
        lemma_walk_ok(tree, key, 0);
    }
}

impl VirtualFileSystem {
    /// A store that holds the root directory and nothing else.
    pub fn new() -> (fs: Self)
        ensures
            fs.inv(),
            fs.tree() == Map::<Seq<Seq<char>>, Node>::empty().insert(
                Seq::<Seq<char>>::empty(),
                Node::Directory,
            ),
    {
        let mut entries: Vec<VirtualEntry> = Vec::new();
        entries.push(VirtualEntry { key: Vec::new(), node: VirtualNode::Directory });
        let fs = VirtualFileSystem { entries };
        proof {
            let keys = keys_of(fs.entries@);
            assert(keys[0] =~= Seq::<Seq<char>>::empty());
            assert(keys.contains(keys[0]));
            assert(keys.index_of(keys[0]) == 0);
            assert(tree_of(fs.entries@).dom() =~= Map::<Seq<Seq<char>>, Node>::empty().insert(
                Seq::<Seq<char>>::empty(),
                Node::Directory,
            ).dom());
            assert(tree_of(fs.entries@) =~= Map::<Seq<Seq<char>>, Node>::empty().insert(
                Seq::<Seq<char>>::empty(),
                Node::Directory,
            ));
        }
        fs
    }

    /// A store in memory holds finitely many entries.
    pub proof fn lemma_tree_finite(&self)
        ensures
            self.tree().dom().finite(),
    {
        let keys = keys_of(self.entries@);
        vstd::seq_lib::seq_to_set_is_finite(keys);
        assert(self.tree().dom() =~= keys.to_set());
    }

    /// The segments of `path`: the key of the place that it names. A relative
    /// path is taken from the root, and no path is refused.
    pub fn resolve_path(&self, path: &str) -> (r: Result<Vec<Vec<char>>, FsError>)
        ensures
            r matches Ok(key) && views_of(key@) == segments(path@),
    {
        let chars = to_chars(path);
        Ok(split_path(chars.as_slice()))
    }

    /// The index of the entry with the key `key`, if there is one.
    fn find(&self, key: &Vec<Vec<char>>) -> (r: Option<usize>)
        ensures
            match r {
                Some(i) => i < self.entries@.len() && keys_of(self.entries@)[i as int] == views_of(
                    key@,
                ),
                None => !keys_of(self.entries@).contains(views_of(key@)),
            },
    {
        let mut i: usize = 0;
        while i < self.entries.len()
            invariant
                i <= self.entries@.len(),
                forall|j: int| 0 <= j < i ==> keys_of(self.entries@)[j] != views_of(key@),
            decreases self.entries@.len() - i,
        {
            if same_segments(&self.entries[i].key, key) {
                return Some(i);
            }
            i += 1;
        }
        None
    }

    /// Walks from the root to `key` and gives the index of the entry there.
    fn get_node(&self, key: &Vec<Vec<char>>) -> (r: Result<usize, FsError>)
        requires
            self.inv(),
        ensures
            match r {
                Ok(i) => i < self.entries@.len() && keys_of(self.entries@)[i as int] == views_of(
                    key@,
                ) && lookup(self.tree(), views_of(key@)) == Ok::<Node, FsError>(
                    node_view(self.entries@[i as int].node),
                ),
                Err(e) => lookup(self.tree(), views_of(key@)) == Err::<Node, FsError>(e),
            },
    {
        let ghost tree = self.tree();
        let ghost target = views_of(key@);
        let mut prefix: Vec<Vec<char>> = Vec::new();
        proof {
            assert(views_of(prefix@) =~= target.take(0));
            assert(target.take(0) =~= Seq::<Seq<char>>::empty());
        }
        let mut cur: usize = match self.find(&prefix) {
            Some(j) => j,
            None => {
                return Err(FsError::NotFound);
            },
        };
        let mut k: usize = 0;
        while k < key.len()
            invariant
                k <= key@.len(),
                self.inv(),
                tree == self.tree(),
                target == views_of(key@),
                views_of(prefix@) == target.take(k as int),
                cur < self.entries@.len(),
                keys_of(self.entries@)[cur as int] == target.take(k as int),
                walk(tree, target, k as int) == walk(tree, target, 0),
            decreases key@.len() - k,
        {
            proof {
                lemma_tree_at(self.entries@, cur as int);
            }
            match &self.entries[cur].node {
                VirtualNode::File(_) => {
                    return Err(FsError::NotADirectory);
                },
                VirtualNode::Directory => {},
            }
            let seg = copy_range(key[k].as_slice(), 0, key[k].len());
            proof {
                assert(seg@ == key@[k as int]@);
                assert(views_of(prefix@.push(seg)) =~= target.take(k + 1));
            }
            prefix.push(seg);
            match self.find(&prefix) {
                None => {
                    return Err(FsError::NotFound);
                },
                Some(j) => {
                    cur = j;
                },
            }
            k += 1;
        }
        proof {
            assert(target.take(k as int) == target);
            lemma_tree_at(self.entries@, cur as int);
        }
        Ok(cur)
    }
}

impl VirtualFileSystem {
    /// Takes out every entry that is `key` or below it.
    fn remove_under(&mut self, key: &Vec<Vec<char>>)
        requires
            old(self).inv(),
            key@.len() > 0,
        ensures
            final(self).inv(),
            final(self).tree() == old(self).tree().remove_keys(under_set(views_of(key@))),
    {
        let ghost before = self.entries@;
        let ghost target = views_of(key@);
        let mut kept: Vec<VirtualEntry> = Vec::new();
        while self.entries.len() > 0
            invariant
                self.entries@ == before.take(self.entries@.len() as int),
                self.entries@.len() <= before.len(),
                target == views_of(key@),
                kept@ == survivors(before, self.entries@.len() as int, target),
            decreases self.entries@.len(),
        {
            let ghost m = self.entries@.len() as int;
            let e = self.entries.pop().unwrap();
            proof {
                assert(e == before[m - 1]);
                assert(self.entries@ =~= before.take(m - 1));
            }
            if !has_prefix(&e.key, key) {
                kept.push(e);
            }
        }
        proof {
            lemma_survivors_table(before, target);
        }
        self.entries = kept;
    }

    /// Looks `key` up: the index of the entry there, or `None` where nothing
    /// stands there.
    fn probe(&self, key: &Vec<Vec<char>>) -> (r: Option<usize>)
        requires
            self.inv(),
        ensures
            match r {
                Some(i) => i < self.entries@.len() && keys_of(self.entries@)[i as int] == views_of(
                    key@,
                ) && self.tree().contains_pair(
                    views_of(key@),
                    node_view(self.entries@[i as int].node),
                ),
                None => !self.tree().dom().contains(views_of(key@)),
            },
    {
        match self.get_node(key) {
            Ok(i) => {
                proof {
                    lemma_tree_at(self.entries@, i as int);
                }
                Some(i)
            },
            Err(_) => {
                proof {
                    lemma_table_closed(self.entries@);
                    lemma_walk_err(self.tree(), views_of(key@), 0);
                }
                None
            },
        }
    }

    /// Checks that an entry can be put at or taken from `key`: that `key` has
    /// a segment and that a directory stands where `key` without its last
    /// segment points.
    fn check_parent(&self, key: &Vec<Vec<char>>) -> (r: Result<(), FsError>)
        requires
            self.inv(),
        ensures
            match r {
                Ok(_) => parent_failure(self.tree(), views_of(key@)) is None && key@.len() > 0
                    && is_dir_at(self.tree(), views_of(key@).drop_last()),
                Err(e) => parent_failure(self.tree(), views_of(key@)) == Some(e),
            },
    {
        if key.len() == 0 {
            return Err(FsError::InvalidInput);
        }
        let mut parent = copy_key(key);
        parent.pop();
        proof {
            assert(views_of(parent@) =~= views_of(key@).drop_last());
        }
        match self.get_node(&parent) {
            Err(e) => Err(e),
            Ok(i) => {
                proof {
                    lemma_tree_at(self.entries@, i as int);
                }
                match &self.entries[i].node {
                    VirtualNode::File(_) => Err(FsError::NotADirectory),
                    VirtualNode::Directory => Ok(()),
                }
            },
        }
    }
}

impl FileSystem for VirtualFileSystem {
    closed spec fn inv(&self) -> bool {
        table_ok(self.entries@)
    }

    closed spec fn tree(&self) -> Tree {
        tree_of(self.entries@)
    }

    /// A store in memory answers: it fails only where its tree says so.
    open spec fn answers(&self) -> bool {
        true
    }

    /// Reading fails as the walk fails, or with `IsADirectory`.
    open spec fn read_failure(&self, key: Seq<Seq<char>>) -> FsError {
        match read_result(self.tree(), key) {
            Err(e) => e,
            Ok(_) => FsError::NotFound,
        }
    }

    open spec fn canonical(&self, path: Seq<char>) -> Seq<char> {
        absolute_path(segments(path))
    }

    /// The absolute path with the segments of `path`; this never fails.
    fn canonicalize(&self, path: &str) -> (r: Result<String, FsError>)
        ensures
            r is Ok,
    {
        let chars = to_chars(path);
        let key = split_path(chars.as_slice());
        let abs = make_absolute_path(&key);
        Ok(to_string(abs.as_slice()))
    }

    /// Puts the regular file with `contents` at `path`, in place of whatever
    /// stood there; the directory that is to hold it must exist.
    fn write(&mut self, path: &str, contents: &str) -> (r: Result<(), FsError>)
        ensures
            match parent_failure(old(self).tree(), segments(path@)) {
                Some(e) => r == Err::<(), FsError>(e) && final(self).tree() == old(self).tree(),
                None => r is Ok && final(self).tree() == write_tree(
                    old(self).tree(),
                    segments(path@),
                    contents@,
                ),
            },
    {
        let chars = to_chars(path);
        let key = split_path(chars.as_slice());
        proof {
            lemma_table_closed(self.entries@);
            if can_hold(self.tree(), segments(path@)) {
                lemma_lookup_found(self.tree(), segments(path@).drop_last());
            }
        }
        match self.check_parent(&key) {
            Err(e) => {
                return Err(e);
            },
            Ok(_) => {},
        }
        let ghost before = self.tree();
        let ghost target = views_of(key@);
        self.remove_under(&key);
        let entry = VirtualEntry {
            key,
            node: VirtualNode::File(VirtualFile { contents: contents.to_string() }),
        };
        proof {
            assert(is_under(target, target)) by {
                assert(target.take(target.len() as int) =~= target);
            }
            let parent = target.drop_last();
            if is_under(target, parent) {
                assert(false);
            }
            lemma_segments_are_segments(path@, 0);
            lemma_push_entry(self.entries@, entry);
            let after = before.remove_keys(under_set(target)).insert(target, node_view(entry.node));
            assert(same_outside(before, after, target));
        }
        self.entries.push(entry);
        Ok(())
    }

    /// Reads the regular file at `path`: its text, `IsADirectory` where a
    /// directory stands there, else the failure of the look-up.
    fn read_to_string(&mut self, path: &str) -> (r: Result<String, FsError>)
        ensures
            match r {
                Ok(s) => read_result(old(self).tree(), segments(path@)) == Ok::<
                    Seq<char>,
                    FsError,
                >(s@),
                Err(e) => read_result(old(self).tree(), segments(path@)) == Err::<
                    Seq<char>,
                    FsError,
                >(e),
            },
    {
        let chars = to_chars(path);
        let key = split_path(chars.as_slice());
        proof {
            lemma_table_closed(self.entries@);
            if self.tree().dom().contains(segments(path@)) {
                lemma_lookup_found(self.tree(), segments(path@));
            }
        }
        match self.get_node(&key) {
            Err(e) => Err(e),
            Ok(i) => {
                proof {
                    lemma_tree_at(self.entries@, i as int);
                }
                match &self.entries[i].node {
                    VirtualNode::Directory => Err(FsError::IsADirectory),
                    VirtualNode::File(f) => Ok(f.contents.clone()),
                }
            },
        }
    }

    /// Lists the directory at `path`: the absolute path of each of its
    /// entries, in no stated order. A regular file there gives
    /// `NotADirectory`, and a failed look-up its own failure.
    fn read_dir(&mut self, path: &str) -> (r: Result<Vec<String>, FsError>)
        ensures
            match lookup(old(self).tree(), segments(path@)) {
                Err(e) => r == Err::<Vec<String>, FsError>(e),
                Ok(Node::File(_)) => r == Err::<Vec<String>, FsError>(FsError::NotADirectory),
                Ok(Node::Directory) => r matches Ok(v) && (forall|q: Seq<Seq<char>>|
                    old(self).tree().dom().contains(q) && is_child(segments(path@), q)
                        ==> string_views(v@).contains(#[trigger] absolute_path(q))) && (forall|
                    j: int,
                |
                    0 <= j < v@.len() ==> names_child(
                        old(self).tree(),
                        segments(path@),
                        #[trigger] v@[j]@,
                    )),
            },
    {
        let chars = to_chars(path);
        let key = split_path(chars.as_slice());
        let ghost target = views_of(key@);
        let ghost tree = self.tree();
        proof {
            lemma_table_closed(self.entries@);
            if tree.dom().contains(target) {
                lemma_lookup_found(tree, target);
            }
        }
        match self.get_node(&key) {
            Err(e) => {
                return Err(e);
            },
            Ok(i) => {
                proof {
                    lemma_tree_at(self.entries@, i as int);
                }
                match &self.entries[i].node {
                    VirtualNode::File(_) => {
                        return Err(FsError::NotADirectory);
                    },
                    VirtualNode::Directory => {},
                }
            },
        }
        let mut out: Vec<String> = Vec::new();
        let mut n: usize = 0;
        while n < self.entries.len()
            invariant
                n <= self.entries@.len(),
                self.inv(),
                tree == self.tree(),
                self.entries@ == old(self).entries@,
                target == views_of(key@),
                target == segments(path@),
                forall|e: int|
                    0 <= e < n && is_child(target, keys_of(self.entries@)[e]) ==> string_views(
                        out@,
                    ).contains(#[trigger] absolute_path(keys_of(self.entries@)[e])),
                forall|j: int| 0 <= j < out@.len() ==> names_child(tree, target, #[trigger] out@[j]@),
            decreases self.entries@.len() - n,
        {
            let entry_key = &self.entries[n].key;
            if entry_key.len() > 0 && entry_key.len() - 1 == key.len() && has_prefix(entry_key, &key) {
                let abs = make_absolute_path(entry_key);
                let name = to_string(abs.as_slice());
                proof {
                    let q = keys_of(self.entries@)[n as int];
                    lemma_tree_at(self.entries@, n as int);
                    assert(q.drop_last() =~= q.take(target.len() as int));
                    assert(is_child(target, q));
                    let grown = out@.push(name);
                    assert(string_views(grown) =~= string_views(out@).push(name@));
                    assert(string_views(grown)[out@.len() as int] == absolute_path(q));
                    assert(names_child(tree, target, name@));
                    assert forall|e: int|
                        0 <= e < n + 1 && is_child(
                            target,
                            keys_of(self.entries@)[e],
                        ) implies string_views(grown).contains(
                        #[trigger] absolute_path(keys_of(self.entries@)[e]),
                    ) by {
                        if e < n {
                            let w = string_views(out@).index_of(
                                absolute_path(keys_of(self.entries@)[e]),
                            );
                            assert(string_views(grown)[w] == absolute_path(
                                keys_of(self.entries@)[e],
                            ));
                        }
                    }
                }
                out.push(name);
            } else {
                proof {
                    let q = keys_of(self.entries@)[n as int];
                    if is_child(target, q) {
                        assert(q.drop_last() =~= q.take(target.len() as int));
                        assert(false);
                    }
                }
            }
            n += 1;
        }
        proof {
            assert forall|q: Seq<Seq<char>>|
                tree.dom().contains(q) && is_child(target, q) implies string_views(out@).contains(
                #[trigger] absolute_path(q),
            ) by {
                let e = keys_of(self.entries@).index_of(q);
                assert(keys_of(self.entries@)[e] == q);
            }
            lemma_table_closed(self.entries@);
            let listed = string_views(out@);
            assert forall|j: int| 0 <= j < listed.len() implies tree.dom().contains(
                segments(#[trigger] listed[j]),
            ) && is_child(target, segments(listed[j])) by {
                assert(names_child(tree, target, out@[j]@));
                let q = choose|q: Seq<Seq<char>>|
                    #![trigger absolute_path(q)]
                    tree.dom().contains(q) && is_child(target, q) && out@[j]@ == absolute_path(q);
                lemma_segments_of_absolute_path(q);
            }
            assert forall|q: Seq<Seq<char>>|
                tree.dom().contains(q) && is_child(target, q) implies exists|j: int|
                0 <= j < listed.len() && segments(#[trigger] listed[j]) == q by {
                let j = listed.index_of(absolute_path(q));
                lemma_segments_of_absolute_path(q);
                assert(segments(listed[j]) == q);
            }
            assert(lists_children(tree, target, listed));
        }
        Ok(out)
    }

    /// Makes the directory at `path` and each missing directory on the way
    /// to it, as [`mkdir_from`] says.
    fn mkdir_p(&mut self, path: &str) -> (r: Result<(), FsError>)
        ensures
            (final(self).tree(), r) == mkdir_from(old(self).tree(), segments(path@), 0),
    {
        let chars = to_chars(path);
        let key = split_path(chars.as_slice());
        let ghost target = views_of(key@);
        let ghost before = self.tree();
        let mut prefix: Vec<Vec<char>> = Vec::new();
        let mut k: usize = 0;
        proof {
            assert(views_of(prefix@) =~= target.take(0));
            assert(target.take(0) =~= Seq::<Seq<char>>::empty());
        }
        while k < key.len()
            invariant
                k <= key@.len(),
                self.inv(),
                target == views_of(key@),
                target == segments(path@),
                before == old(self).tree(),
                views_of(prefix@) == target.take(k as int),
                is_dir_at(self.tree(), target.take(k as int)),
                mkdir_from(self.tree(), target, k as int) == mkdir_from(before, target, 0),
            decreases key@.len() - k,
        {
            let seg = copy_range(key[k].as_slice(), 0, key[k].len());
            proof {
                assert(seg@ == key@[k as int]@);
                assert(views_of(prefix@.push(seg)) =~= target.take(k + 1));
                assert(target.take(k + 1).drop_last() =~= target.take(k as int));
            }
            prefix.push(seg);
            match self.find(&prefix) {
                Some(j) => {
                    proof {
                        lemma_tree_at(self.entries@, j as int);
                    }
                    match &self.entries[j].node {
                        VirtualNode::File(_) => {
                            return Err(FsError::AlreadyExists);
                        },
                        VirtualNode::Directory => {},
                    }
                },
                None => {
                    let entry = VirtualEntry { key: copy_key(&prefix), node: VirtualNode::Directory };
                    proof {
                        lemma_segments_are_segments(path@, 0);
                        assert(are_segments(target.take(k + 1))) by {
                            assert forall|j: int| 0 <= j < k + 1 implies is_segment(
                                #[trigger] target.take(k + 1)[j],
                            ) by {
                                assert(target.take(k + 1)[j] == target[j]);
                            }
                        }
                        lemma_push_entry(self.entries@, entry);
                    }
                    self.entries.push(entry);
                },
            }
            k += 1;
        }
        proof {
            assert(target.take(k as int) =~= target);
        }
        Ok(())
    }

    /// Removes the regular file at `path`, unless [`remove_file_failure`]
    /// names a reason against it.
    fn remove_file(&mut self, path: &str) -> (r: Result<(), FsError>)
        ensures
            match remove_file_failure(old(self).tree(), segments(path@)) {
                Some(e) => r == Err::<(), FsError>(e) && final(self).tree() == old(self).tree(),
                None => r is Ok && final(self).tree() == old(self).tree().remove(segments(path@)),
            },
    {
        let chars = to_chars(path);
        let key = split_path(chars.as_slice());
        match self.check_parent(&key) {
            Err(e) => {
                return Err(e);
            },
            Ok(_) => {},
        }
        match self.find(&key) {
            None => Err(FsError::NotFound),
            Some(j) => {
                proof {
                    lemma_tree_at(self.entries@, j as int);
                }
                match &self.entries[j].node {
                    VirtualNode::Directory => Err(FsError::IsADirectory),
                    VirtualNode::File(_) => {
                        proof {
                            let tree = self.tree();
                            let target = views_of(key@);
                            lemma_table_closed(self.entries@);
                            assert forall|q: Seq<Seq<char>>| #[trigger]
                                tree.dom().contains(q) && is_under(target, q) implies q
                                == target by {
                                if q != target {
                                    lemma_below_has_child(tree, target, q);
                                }
                            }
                            lemma_remove_single(tree, target);
                        }
                        self.remove_under(&key);
                        Ok(())
                    },
                }
            },
        }
    }

    /// Removes the directory at `path`, unless [`remove_dir_failure`] names a
    /// reason against it.
    fn remove_dir(&mut self, path: &str) -> (r: Result<(), FsError>)
        ensures
            match remove_dir_failure(old(self).tree(), segments(path@)) {
                Some(e) => r == Err::<(), FsError>(e) && final(self).tree() == old(self).tree(),
                None => r is Ok && final(self).tree() == old(self).tree().remove(segments(path@)),
            },
    {
        let chars = to_chars(path);
        let key = split_path(chars.as_slice());
        let ghost target = views_of(key@);
        let ghost tree = self.tree();
        match self.check_parent(&key) {
            Err(e) => {
                return Err(e);
            },
            Ok(_) => {},
        }
        match self.find(&key) {
            None => {
                return Err(FsError::NotFound);
            },
            Some(j) => {
                proof {
                    lemma_tree_at(self.entries@, j as int);
                }
                match &self.entries[j].node {
                    VirtualNode::File(_) => {
                        return Err(FsError::NotADirectory);
                    },
                    VirtualNode::Directory => {},
                }
            },
        }
        let mut n: usize = 0;
        while n < self.entries.len()
            invariant
                n <= self.entries@.len(),
                self.inv(),
                tree == self.tree(),
                self.entries@ == old(self).entries@,
                target == views_of(key@),
                target == segments(path@),
                parent_failure(tree, target) is None,
                is_dir_at(tree, target),
                forall|e: int| 0 <= e < n ==> !is_child(target, #[trigger] keys_of(self.entries@)[e]),
            decreases self.entries@.len() - n,
        {
            let entry_key = &self.entries[n].key;
            if entry_key.len() > 0 && entry_key.len() - 1 == key.len() && has_prefix(entry_key, &key) {
                proof {
                    let q = keys_of(self.entries@)[n as int];
                    lemma_tree_at(self.entries@, n as int);
                    assert(q.drop_last() =~= q.take(target.len() as int));
                    assert(tree.dom().contains(q) && is_child(target, q));
                }
                return Err(FsError::DirectoryNotEmpty);
            }
            proof {
                let q = keys_of(self.entries@)[n as int];
                if is_child(target, q) {
                    assert(q.drop_last() =~= q.take(target.len() as int));
                    assert(false);
                }
            }
            n += 1;
        }
        proof {
            lemma_table_closed(self.entries@);
            assert forall|q: Seq<Seq<char>>| #[trigger] tree.dom().contains(q) implies !is_child(
                target,
                q,
            ) by {
                let e = keys_of(self.entries@).index_of(q);
                assert(keys_of(self.entries@)[e] == q);
            }
            assert forall|q: Seq<Seq<char>>| #[trigger]
                tree.dom().contains(q) && is_under(target, q) implies q == target by {
                if q != target {
                    lemma_below_has_child(tree, target, q);
                }
            }
            lemma_remove_single(tree, target);
        }
        self.remove_under(&key);
        Ok(())
    }

    /// Whether a regular file stands at `path`; this never fails.
    fn is_file(&mut self, path: &str) -> (r: Result<bool, FsError>)
        ensures
            r == Ok::<bool, FsError>(is_file_at(old(self).tree(), segments(path@))),
    {
        let chars = to_chars(path);
        let key = split_path(chars.as_slice());
        match self.probe(&key) {
            None => Ok(false),
            Some(i) => match &self.entries[i].node {
                VirtualNode::File(_) => Ok(true),
                VirtualNode::Directory => Ok(false),
            },
        }
    }

    /// Whether a directory stands at `path`; this never fails.
    fn is_dir(&mut self, path: &str) -> (r: Result<bool, FsError>)
        ensures
            r == Ok::<bool, FsError>(is_dir_at(old(self).tree(), segments(path@))),
    {
        let chars = to_chars(path);
        let key = split_path(chars.as_slice());
        match self.probe(&key) {
            None => Ok(false),
            Some(i) => match &self.entries[i].node {
                VirtualNode::File(_) => Ok(false),
                VirtualNode::Directory => Ok(true),
            },
        }
    }

    /// Whether anything stands at `path`; this never fails.
    fn path_exists(&mut self, path: &str) -> (r: Result<bool, FsError>)
        ensures
            r == Ok::<bool, FsError>(old(self).tree().dom().contains(segments(path@))),
    {
        let chars = to_chars(path);
        let key = split_path(chars.as_slice());
        match self.probe(&key) {
            None => Ok(false),
            Some(_) => Ok(true),
        }
    }
}

} // verus!

//! Search roots of packages that are installed in editable mode.
//!
//! Such a package leaves, in a directory of installed packages, a directory
//! whose name ends in `.dist-info` with a record `direct_url.json`. Where the
//! record says that the installation is editable and gives a `file://` URL,
//! the directory that the URL names holds the package's source and becomes a
//! search root.

use crate::error::InlineError;
use crate::fs::{is_child, is_dir_at, is_file_at, lists_children, FileSystem, Tree};
use crate::path::{
    is_segment, join, join_path, lemma_segments_of_join, lemma_segments_of_segment, segments,
    split_path,
};
use crate::text::{
    copy_range, has_at, occurs_at, same_chars, string_views, to_chars, to_string, views_of,
};
use vstd::prelude::*;

verus! {

/// `serde_json::Error`, the error of the JSON parser. A value of it is only
/// handed on; nothing is known of what it holds.
#[verifier::external_type_specification]
#[verifier::external_body]
pub struct ExJsonError(serde_json::Error);

/// What the inliner reads of an installation record.
pub struct DirectUrl {
    /// The member `url` of the record, where it is a string.
    pub url: Option<String>,
    /// The member `editable` of the member `dir_info` of the record, where it
    /// is a boolean.
    pub editable: Option<bool>,
}

/// What `serde_json` reads from the JSON text `text`: `None` where the text
/// is no well-formed JSON value, else the string member `url` and the boolean
/// member `editable` of the member `dir_info`, each where the value has it.
pub uninterp spec fn direct_url_record(text: Seq<char>) -> Option<(Option<Seq<char>>, Option<bool>)>;

/// `serde_json::from_str` on `text`, and `Value::get` on the members that the
/// inliner reads. The result is [`direct_url_record`] of the text: an error
/// of the parser where that is `None`, else the two members.
#[verifier::external_body]
fn parse_direct_url(text: &str) -> (r: Result<DirectUrl, serde_json::Error>)
    ensures
        match r {
            Ok(d) => direct_url_record(text@) == Some(
                (
                    match d.url {
                        Some(u) => Some(u@),
                        None => None,
                    },
                    d.editable,
                ),
            ),
            Err(_) => direct_url_record(text@) is None,
        },
{
    let json: serde_json::Value = serde_json::from_str(text)?;
    let url = match json.get("url") {
        Some(serde_json::Value::String(s)) => Some(s.clone()),
        _ => None,
    };
    let dir_info = json.get("dir_info").unwrap_or(&serde_json::Value::Null);
    let editable = match dir_info.get("editable") {
        Some(serde_json::Value::Bool(b)) => Some(*b),
        _ => None,
    };
    Ok(DirectUrl { url, editable })
}

/// The text in which `serde_json` describes the error `e`; nothing is
/// claimed of it.
#[verifier::external_body]
fn json_error_text(e: &serde_json::Error) -> String {
    format!("{}", e)
}

/// The scheme of a URL that names a local file.
pub open spec fn file_scheme() -> Seq<char> {
    seq!['f', 'i', 'l', 'e', ':', '/', '/']
}

/// What is left of `url` from index `i` on when every `file://` at its start
/// is taken off.
pub open spec fn without_scheme(url: Seq<char>, i: int) -> Seq<char>
    decreases url.len() - i,
{
    if occurs_at(url, i, file_scheme()) {
        without_scheme(url, i + 7)
    } else if 0 <= i <= url.len() {
        url.subrange(i, url.len() as int)
    } else {
        Seq::empty()
    }
}

/// The directory that a record makes a search root, if it makes one: the
/// record must call the installation editable, and its URL must start with
/// `file://`; the directory is the URL without the scheme.
pub open spec fn editable_root_of(url: Option<Seq<char>>, editable: Option<bool>) -> Option<
    Seq<char>,
> {
    match url {
        Some(u) => if editable == Some(true) && occurs_at(u, 0, file_scheme()) {
            Some(without_scheme(u, 0))
        } else {
            None
        },
        None => None,
    }
}

/// Executable form of [`editable_root_of`].
pub fn editable_root(record: &DirectUrl) -> (r: Option<String>)
    ensures
        match r {
            Some(p) => editable_root_of(
                match record.url {
                    Some(u) => Some(u@),
                    None => None,
                },
                record.editable,
            ) == Some(p@),
            None => editable_root_of(
                match record.url {
                    Some(u) => Some(u@),
                    None => None,
                },
                record.editable,
            ) is None,
        },
{
    let url = match &record.url {
        Some(u) => to_chars(u.as_str()),
        None => {
            return None;
        },
    };
    match record.editable {
        Some(true) => {},
        _ => {
            return None;
        },
    }
    let scheme_vec = vec!['f', 'i', 'l', 'e', ':', '/', '/'];
    let scheme = scheme_vec.as_slice();
    let u = url.as_slice();
    assert(scheme@ =~= file_scheme());
    if !has_at(u, 0, scheme) {
        return None;
    }
    let mut i: usize = 0;
    loop
        invariant
            i <= u.len(),
            scheme@ == file_scheme(),
            scheme@.len() == 7,
            without_scheme(u@, i as int) == without_scheme(u@, 0),
        ensures
            !occurs_at(u@, i as int, file_scheme()),
        decreases u.len() - i,
    {
        let more = has_at(u, i, scheme);
        if !more {
            break ;
        }
        i += 7;
    }
    let rest = copy_range(u, i, u.len());
    Some(to_string(rest.as_slice()))
}

/// Whether `pat` occurs somewhere in `s`.
pub open spec fn contains_text(s: Seq<char>, pat: Seq<char>) -> bool {
    exists|i: int| #[trigger] occurs_at(s, i, pat)
}

/// Executable form of [`contains_text`].
pub fn has_text(s: &[char], pat: &[char]) -> (b: bool)
    ensures
        b == contains_text(s@, pat@),
{
    let mut i: usize = 0;
    while i < s.len()
        invariant
            i <= s@.len(),
            forall|j: int| 0 <= j < i ==> !occurs_at(s@, j, pat@),
        decreases s@.len() - i,
    {
        if has_at(s, i, pat) {
            return true;
        }
        i += 1;
    }
    has_at(s, i, pat)
}

/// Whether the name `name` ends in `.dist-info`.
pub open spec fn is_dist_info_name(name: Seq<char>) -> bool {
    name.len() >= ".dist-info"@.len() && occurs_at(
        name,
        name.len() - ".dist-info"@.len(),
        ".dist-info"@,
    )
}

/// Whether the name of the entry at `path` ends in `.dist-info`.
pub open spec fn is_dist_info(path: Seq<char>) -> bool {
    segments(path).len() > 0 && is_dist_info_name(segments(path).last())
}

/// Executable form of [`is_dist_info`].
pub fn dist_info(path: &[char]) -> (b: bool)
    ensures
        b == is_dist_info(path@),
{
    let segs = split_path(path);
    if segs.len() == 0 {
        return false;
    }
    let name = segs[segs.len() - 1].as_slice();
    let suffix = to_chars(".dist-info");
    proof {
        assert(views_of(segs@).last() == name@);
    }
    if name.len() < suffix.len() {
        return false;
    }
    has_at(name, name.len() - suffix.len(), suffix.as_slice())
}

/// The name of an installation record.
pub open spec fn record_name() -> Seq<char> {
    "direct_url.json"@
}

/// The name of an installation record is one segment of a path.
pub proof fn lemma_record_name()
    ensures
        segments(record_name()) == seq![record_name()],
{
    reveal_strlit("direct_url.json");
    let name = record_name();
    assert(is_segment(name)) by {
        assert(name.len() == 15);
        assert(name != seq!['.']);
        assert(name != seq!['.', '.']);
    }
    lemma_segments_of_segment(name);
}

/// The directory that the installation record at `key` of `tree` makes a
/// search root, if a record stands there and names one.
pub open spec fn record_at(tree: Tree, key: Seq<Seq<char>>) -> Option<Seq<char>> {
    if is_file_at(tree, key) {
        match direct_url_record(tree[key]->File_0) {
            Some(record) => editable_root_of(record.0, record.1),
            None => None,
        }
    } else {
        None
    }
}

/// Whether the installation record at `key` of `tree` can be read: if
/// anything stands there, it is a regular file whose text is a well-formed
/// JSON value.
pub open spec fn record_sound(tree: Tree, key: Seq<Seq<char>>) -> bool {
    tree.dom().contains(key) ==> is_file_at(tree, key) && direct_url_record(tree[key]->File_0)
        is Some
}

/// Whether `q` is a directory of `tree` whose name ends in `.dist-info`.
pub open spec fn is_dist_dir(tree: Tree, q: Seq<Seq<char>>) -> bool {
    is_dir_at(tree, q) && q.len() > 0 && is_dist_info_name(q.last())
}

/// Whether `site` is a directory of installed packages of `tree`: its path
/// holds `site-packages`, and a directory stands there.
pub open spec fn is_site(tree: Tree, site: Seq<char>) -> bool {
    contains_text(site, "site-packages"@) && is_dir_at(tree, segments(site))
}

/// Whether the directory `q` of `tree` names `root`: its name ends in
/// `.dist-info`, and its installation record makes `root` a search root.
pub open spec fn entry_names(tree: Tree, q: Seq<Seq<char>>, root: Seq<char>) -> bool {
    is_dist_dir(tree, q) && record_at(tree, q.push(record_name())) == Some(root)
}

/// Whether an entry of the directory at `site` names `root`.
pub open spec fn site_names(tree: Tree, site: Seq<char>, root: Seq<char>) -> bool {
    exists|q: Seq<Seq<char>>|
        #![trigger entry_names(tree, q, root)]
        is_child(segments(site), q) && tree.dom().contains(q) && entry_names(tree, q, root)
}

/// Whether an entry of a directory of installed packages among `sites` names
/// `root`.
pub open spec fn path_names(tree: Tree, sites: Seq<Seq<char>>, root: Seq<char>) -> bool {
    exists|i: int|
        #![trigger sites[i]]
        0 <= i < sites.len() && is_site(tree, sites[i]) && site_names(tree, sites[i], root)
}

/// The directories of `tree` that the installation record at `key` names.
pub open spec fn record_roots(tree: Tree, key: Seq<Seq<char>>) -> Set<Seq<char>> {
    Set::new(|root: Seq<char>| is_dir_at(tree, segments(root)) && record_at(tree, key) == Some(root))
}

/// The directories of `tree` that an entry of the directory at `site` names.
pub open spec fn site_roots(tree: Tree, site: Seq<char>) -> Set<Seq<char>> {
    Set::new(|root: Seq<char>| is_dir_at(tree, segments(root)) && site_names(tree, site, root))
}

/// The directories of `tree` that an entry of a directory of installed
/// packages among `sites` names.
pub open spec fn path_roots(tree: Tree, sites: Seq<Seq<char>>) -> Set<Seq<char>> {
    Set::new(|root: Seq<char>| is_dir_at(tree, segments(root)) && path_names(tree, sites, root))
}

/// Whether the search path `after` is `before` with entries added at its end,
/// each one of `allowed` and none that stands in the path before it.
pub open spec fn grown(before: Seq<Seq<char>>, after: Seq<Seq<char>>, allowed: Set<Seq<char>>)
    -> bool {
    &&& before.len() <= after.len()
    &&& after.take(before.len() as int) == before
    &&& forall|i: int|
        before.len() <= i < after.len() ==> allowed.contains(#[trigger] after[i]) && !after.take(
            i,
        ).contains(after[i])
}

/// A search path has grown from itself.
pub proof fn lemma_grown_not(a: Seq<Seq<char>>, allowed: Set<Seq<char>>)
    ensures
        grown(a, a, allowed),
{
    assert(a.take(a.len() as int) =~= a);
}

/// Growing twice is growing, more may be allowed, and what a search path
/// holds it holds when it has grown.
pub proof fn lemma_grown_twice(
    a: Seq<Seq<char>>,
    b: Seq<Seq<char>>,
    c: Seq<Seq<char>>,
    first: Set<Seq<char>>,
    second: Set<Seq<char>>,
    allowed: Set<Seq<char>>,
)
    requires
        grown(a, b, first),
        grown(b, c, second),
        first.subset_of(allowed),
        second.subset_of(allowed),
    ensures
        grown(a, c, allowed),
        forall|root: Seq<char>| b.contains(root) ==> c.contains(root),
{
    assert(c.take(a.len() as int) =~= b.take(a.len() as int));
    assert forall|i: int| a.len() <= i < c.len() implies allowed.contains(#[trigger] c[i])
        && !c.take(i).contains(c[i]) by {
        if i < b.len() {
            assert(c.take(b.len() as int)[i] == c[i]);
            assert(c.take(i) =~= b.take(i));
            assert(first.contains(b[i]));
        } else {
            assert(second.contains(c[i]));
        }
    }
    assert forall|root: Seq<char>| b.contains(root) implies c.contains(root) by {
        let i = b.index_of(root);
        assert(c.take(b.len() as int)[i] == c[i]);
    }
}

/// Whether the search path `roots` holds what the entry `q` of a directory of
/// installed packages asks for: if `q` is a directory whose name ends in
/// `.dist-info`, its record can be read, and the directory of `tree` that the
/// record names is in `roots`.
pub open spec fn entry_covered(tree: Tree, q: Seq<Seq<char>>, roots: Seq<Seq<char>>) -> bool {
    is_dist_dir(tree, q) ==> record_sound(tree, q.push(record_name())) && (record_at(
        tree,
        q.push(record_name()),
    ) matches Some(root) ==> is_dir_at(tree, segments(root)) ==> roots.contains(root))
}

/// Whether the search path `roots` holds what the directory of installed
/// packages at `site` asks for: what each of its entries asks for.
pub open spec fn site_covered(tree: Tree, site: Seq<char>, roots: Seq<Seq<char>>) -> bool {
    forall|q: Seq<Seq<char>>| #[trigger]
        tree.dom().contains(q) && is_child(segments(site), q) ==> entry_covered(tree, q, roots)
}

/// Whether every installation record in the directory at `site` can be read.
pub open spec fn site_sound(tree: Tree, site: Seq<char>) -> bool {
    forall|q: Seq<Seq<char>>| #[trigger]
        tree.dom().contains(q) && is_child(segments(site), q) && is_dist_dir(tree, q)
            ==> record_sound(tree, q.push(record_name()))
}

/// Whether every installation record in a directory of installed packages
/// among `sites` can be read.
pub open spec fn path_sound(tree: Tree, sites: Seq<Seq<char>>) -> bool {
    forall|i: int| 0 <= i < sites.len() && is_site(tree, #[trigger] sites[i]) ==> site_sound(
        tree,
        sites[i],
    )
}

/// Whether the failure `e` is rightly reported: a failure to read a record
/// names a regular file of `tree` whose text is no well-formed JSON value.
pub open spec fn failure_is_right(tree: Tree, e: InlineError) -> bool {
    e matches InlineError::Metadata { path, message } ==> is_file_at(tree, segments(path@))
        && direct_url_record(tree[segments(path@)]->File_0) is None
}

/// Whether the search path `roots` holds `p`.
fn holds(roots: &Vec<String>, p: &str) -> (b: bool)
    ensures
        b == string_views(roots@).contains(p@),
{
    let mut k: usize = 0;
    while k < roots.len()
        invariant
            k <= roots@.len(),
            forall|j: int| 0 <= j < k ==> string_views(roots@)[j] != p@,
        decreases roots@.len() - k,
    {
        let a = to_chars(roots[k].as_str());
        let b = to_chars(p);
        if same_chars(a.as_slice(), b.as_slice()) {
            assert(string_views(roots@)[k as int] == p@);
            return true;
        }
        k += 1;
    }
    false
}

/// Reads the installation record at `record_path`, if there is one, and adds
/// the directory that it names to `python_sys_path`, unless it is there.
fn add_from_record<FS: FileSystem>(
    fs: &mut FS,
    record_path: &str,
    python_sys_path: &mut Vec<String>,
) -> (r: Result<(), InlineError>)
    requires
        old(fs).inv(),
    ensures
        final(fs).inv(),
        final(fs).tree() == old(fs).tree(),
        final(fs).answers() == old(fs).answers(),
        grown(
            string_views(old(python_sys_path)@),
            string_views(final(python_sys_path)@),
            record_roots(old(fs).tree(), segments(record_path@)),
        ),
        r matches Err(e) ==> failure_is_right(old(fs).tree(), e),
        r is Ok ==> record_sound(old(fs).tree(), segments(record_path@)),
        r is Ok ==> (record_at(old(fs).tree(), segments(record_path@)) matches Some(root)
            ==> is_dir_at(old(fs).tree(), segments(root)) ==> string_views(
            final(python_sys_path)@,
        ).contains(root)),
        old(fs).answers() && record_sound(old(fs).tree(), segments(record_path@)) ==> r is Ok,
{
    let ghost tree = fs.tree();
    let ghost before = string_views(python_sys_path@);
    let ghost key = segments(record_path@);
    proof {
        lemma_grown_not(before, record_roots(tree, key));
    }
    let present = match fs.path_exists(record_path) {
        Err(cause) => {
            return Err(InlineError::Io { path: String::from_str(record_path), cause });
        },
        Ok(present) => present,
    };
    if !present {
        return Ok(());
    }
    let text = match fs.read_to_string(record_path) {
        Err(cause) => {
            return Err(InlineError::Io { path: String::from_str(record_path), cause });
        },
        Ok(text) => text,
    };
    let record = match parse_direct_url(text.as_str()) {
        Err(e) => {
            return Err(
                InlineError::Metadata {
                    path: String::from_str(record_path),
                    message: json_error_text(&e),
                },
            );
        },
        Ok(record) => record,
    };
    let root = match editable_root(&record) {
        None => {
            return Ok(());
        },
        Some(root) => root,
    };
    assert(record_at(tree, key) == Some(root@));
    let is_directory = match fs.is_dir(root.as_str()) {
        Err(cause) => {
            return Err(InlineError::Io { path: root, cause });
        },
        Ok(is_directory) => is_directory,
    };
    if is_directory && !holds(python_sys_path, root.as_str()) {
        proof {
            let after = string_views(python_sys_path@.push(root));
            assert(after =~= before.push(root@));
            assert(after.take(before.len() as int) =~= before);
            assert(after[before.len() as int] == root@);
            assert(record_roots(tree, key).contains(root@));
        }
        python_sys_path.push(root);
    }
    Ok(())
}

/// Seeks installation records in the directory of installed packages `site`,
/// and adds the directories that they name to `python_sys_path`.
fn add_from_site<FS: FileSystem>(fs: &mut FS, site: &str, python_sys_path: &mut Vec<String>) -> (r:
    Result<(), InlineError>)
    requires
        old(fs).inv(),
    ensures
        final(fs).inv(),
        final(fs).tree() == old(fs).tree(),
        final(fs).answers() == old(fs).answers(),
        grown(
            string_views(old(python_sys_path)@),
            string_views(final(python_sys_path)@),
            site_roots(old(fs).tree(), site@),
        ),
        !is_dir_at(old(fs).tree(), segments(site@)) ==> final(python_sys_path)@ == old(
            python_sys_path,
        )@,
        r matches Err(e) ==> failure_is_right(old(fs).tree(), e),
        r is Ok && is_dir_at(old(fs).tree(), segments(site@)) ==> site_covered(
            old(fs).tree(),
            site@,
            string_views(final(python_sys_path)@),
        ),
        old(fs).answers() && (is_dir_at(old(fs).tree(), segments(site@)) ==> site_sound(
            old(fs).tree(),
            site@,
        )) ==> r is Ok,
{
    let ghost tree = fs.tree();
    let ghost before = string_views(python_sys_path@);
    let ghost site_key = segments(site@);
    let ghost allowed = site_roots(tree, site@);
    proof {
        lemma_grown_not(before, allowed);
    }
    let is_directory = match fs.is_dir(site) {
        Err(cause) => {
            return Err(InlineError::Io { path: String::from_str(site), cause });
        },
        Ok(is_directory) => is_directory,
    };
    if !is_directory {
        return Ok(());
    }
    let entries = match fs.read_dir(site) {
        Err(cause) => {
            return Err(InlineError::Io { path: String::from_str(site), cause });
        },
        Ok(entries) => entries,
    };
    let ghost listed = string_views(entries@);
    let mut k: usize = 0;
    while k < entries.len()
        invariant
            k <= entries@.len(),
            fs.inv(),
            fs.tree() == tree,
            tree == old(fs).tree(),
            fs.answers() == old(fs).answers(),
            site_key == segments(site@),
            allowed == site_roots(tree, site@),
            is_dir_at(tree, site_key),
            listed == string_views(entries@),
            lists_children(tree, site_key, listed),
            before == string_views(old(python_sys_path)@),
            grown(before, string_views(python_sys_path@), allowed),
            forall|j: int|
                0 <= j < k ==> entry_covered(
                    tree,
                    segments(#[trigger] listed[j]),
                    string_views(python_sys_path@),
                ),
        decreases entries@.len() - k,
    {
        let entry = to_chars(entries[k].as_str());
        let ghost q = segments(entry@);
        let ghost mid = string_views(python_sys_path@);
        assert(listed[k as int] == entry@);
        assert(tree.dom().contains(q) && is_child(site_key, q));
        let entry_is_directory = match fs.is_dir(entries[k].as_str()) {
            Err(cause) => {
                return Err(InlineError::Io { path: entries[k].clone(), cause });
            },
            Ok(b) => b,
        };
        if entry_is_directory && dist_info(entry.as_slice()) {
            let name = to_chars("direct_url.json");
            let record_path = join(entry.as_slice(), name.as_slice());
            let record_file = to_string(record_path.as_slice());
            let ghost record_key = q.push(record_name());
            proof {
                lemma_segments_of_join(entry@, name@);
                lemma_record_name();
                assert(segments(record_file@) =~= record_key);
                assert(is_dist_dir(tree, q));
            }
            let done = add_from_record(fs, record_file.as_str(), python_sys_path);
            proof {
                assert(record_roots(tree, record_key).subset_of(allowed)) by {
                    assert forall|root: Seq<char>|
                        record_roots(tree, record_key).contains(root) implies allowed.contains(
                        root,
                    ) by {
                        assert(entry_names(tree, q, root));
                    }
                }
                lemma_grown_twice(
                    before,
                    mid,
                    string_views(python_sys_path@),
                    allowed,
                    record_roots(tree, record_key),
                    allowed,
                );
            }
            match done {
                Err(e) => {
                    return Err(e);
                },
                Ok(_) => {},
            }
        }
        proof {
            let now = string_views(python_sys_path@);
            lemma_grown_not(mid, allowed);
            assert(forall|root: Seq<char>| mid.contains(root) ==> now.contains(root)) by {
                if now != mid {
                    lemma_grown_twice(
                        before,
                        mid,
                        now,
                        allowed,
                        record_roots(tree, q.push(record_name())),
                        allowed,
                    );
                }
            }
            assert forall|j: int| 0 <= j < k + 1 implies entry_covered(
                tree,
                segments(#[trigger] listed[j]),
                now,
            ) by {
                if j < k {
                    assert(entry_covered(tree, segments(listed[j]), mid));
                }
            }
        }
        k += 1;
    }
    proof {
        let now = string_views(python_sys_path@);
        assert forall|child: Seq<Seq<char>>| #[trigger]
            tree.dom().contains(child) && is_child(site_key, child) implies entry_covered(
            tree,
            child,
            now,
        ) by {
            let j = choose|j: int| 0 <= j < listed.len() && segments(#[trigger] listed[j]) == child;
            assert(entry_covered(tree, segments(listed[j]), now));
        }
    }
    Ok(())
}

/// What a search path holds for a directory of installed packages it holds
/// when it has grown.
pub proof fn lemma_site_covered_grows(
    tree: Tree,
    site: Seq<char>,
    before: Seq<Seq<char>>,
    after: Seq<Seq<char>>,
)
    requires
        site_covered(tree, site, before),
        forall|root: Seq<char>| before.contains(root) ==> after.contains(root),
    ensures
        site_covered(tree, site, after),
{
    assert forall|q: Seq<Seq<char>>| #[trigger]
        tree.dom().contains(q) && is_child(segments(site), q) implies entry_covered(
        tree,
        q,
        after,
    ) by {
        assert(entry_covered(tree, q, before));
    }
}

/// A directory of installed packages that is covered is sound.
pub proof fn lemma_covered_is_sound(tree: Tree, site: Seq<char>, roots: Seq<Seq<char>>)
    requires
        site_covered(tree, site, roots),
    ensures
        site_sound(tree, site),
{
    assert forall|q: Seq<Seq<char>>| #[trigger]
        tree.dom().contains(q) && is_child(segments(site), q) && is_dist_dir(
            tree,
            q,
        ) implies record_sound(tree, q.push(record_name())) by {
        assert(entry_covered(tree, q, roots));
    }
}

/// Adds to `python_sys_path` the source directories of the packages that are
/// installed in editable mode.
///
/// Each entry of the search path that holds `site-packages` is a directory of
/// installed packages, if it is a directory. Each directory in it whose name
/// ends in `.dist-info` may hold a record `direct_url.json`. The directory
/// that a record names, as [`editable_root_of`] says, is added at the end of
/// the search path if the store holds it as a directory and the search path
/// does not hold it yet.
///
/// A failure of the store, and a record that is no well-formed JSON text,
/// end the work; what was added before stays. Whether the work fails or not,
/// the search path only grows, and by such directories only. Where it does
/// not fail, every record could be read and no such directory is missing. A
/// search path without an entry that holds `site-packages` is left as it is,
/// and the store is not asked. On a store that answers, the work fails only
/// where a record cannot be read.
pub fn handle_editable_installs<FS: FileSystem>(fs: &mut FS, python_sys_path: &mut Vec<String>) -> (r:
    Result<(), InlineError>)
    requires
        old(fs).inv(),
    ensures
        final(fs).inv(),
        final(fs).tree() == old(fs).tree(),
        final(fs).answers() == old(fs).answers(),
        grown(
            string_views(old(python_sys_path)@),
            string_views(final(python_sys_path)@),
            path_roots(old(fs).tree(), string_views(old(python_sys_path)@)),
        ),
        (forall|i: int|
            0 <= i < old(python_sys_path)@.len() ==> !contains_text(
                #[trigger] old(python_sys_path)@[i]@,
                "site-packages"@,
            )) ==> r is Ok && final(python_sys_path)@ == old(python_sys_path)@,
        r matches Err(e) ==> failure_is_right(old(fs).tree(), e),
        r is Ok ==> forall|i: int|
            0 <= i < old(python_sys_path)@.len() && is_site(
                old(fs).tree(),
                #[trigger] old(python_sys_path)@[i]@,
            ) ==> site_covered(
                old(fs).tree(),
                old(python_sys_path)@[i]@,
                string_views(final(python_sys_path)@),
            ),
        old(fs).answers() ==> (r is Ok <==> path_sound(
            old(fs).tree(),
            string_views(old(python_sys_path)@),
        )),
{
    let ghost tree = fs.tree();
    let ghost before = string_views(python_sys_path@);
    let ghost allowed = path_roots(tree, before);
    proof {
        lemma_grown_not(before, allowed);
    }
    let marker = to_chars("site-packages");
    let mut sites: Vec<String> = Vec::new();
    let mut k: usize = 0;
    while k < python_sys_path.len()
        invariant
            k <= python_sys_path@.len(),
            python_sys_path@ == old(python_sys_path)@,
            marker@ == "site-packages"@,
            forall|j: int|
                0 <= j < k && contains_text(#[trigger] python_sys_path@[j]@, marker@)
                    ==> string_views(sites@).contains(python_sys_path@[j]@),
            forall|w: int|
                0 <= w < sites@.len() ==> contains_text(#[trigger] sites@[w]@, marker@)
                    && exists|j: int| 0 <= j < k && #[trigger] python_sys_path@[j]@ == sites@[w]@,
        decreases python_sys_path@.len() - k,
    {
        let chars = to_chars(python_sys_path[k].as_str());
        if has_text(chars.as_slice(), marker.as_slice()) {
            let site = python_sys_path[k].clone();
            proof {
                let more = string_views(sites@.push(site));
                assert(more =~= string_views(sites@).push(site@));
                assert(more[sites@.len() as int] == python_sys_path@[k as int]@);
                assert forall|j: int|
                    0 <= j < k + 1 && contains_text(
                        #[trigger] python_sys_path@[j]@,
                        marker@,
                    ) implies more.contains(python_sys_path@[j]@) by {
                    if j < k {
                        let w = string_views(sites@).index_of(python_sys_path@[j]@);
                        assert(more[w] == python_sys_path@[j]@);
                    }
                }
                assert forall|w: int| 0 <= w < sites@.len() + 1 implies contains_text(
                    #[trigger] sites@.push(site)[w]@,
                    marker@,
                ) && exists|j: int|
                    0 <= j < k + 1 && #[trigger] python_sys_path@[j]@ == sites@.push(site)[w]@ by {
                    if w < sites@.len() {
                        let j = choose|j: int|
                            0 <= j < k && #[trigger] python_sys_path@[j]@ == sites@[w]@;
                        assert(python_sys_path@[j]@ == sites@.push(site)[w]@);
                    } else {
                        assert(python_sys_path@[k as int]@ == sites@.push(site)[w]@);
                    }
                }
            }
            sites.push(site);
        }
        k += 1;
    }
    let ghost found = string_views(sites@);
    proof {
        if sites@.len() > 0 {
            let j = choose|j: int|
                0 <= j < old(python_sys_path)@.len() && #[trigger] old(python_sys_path)@[j]@
                    == sites@[0]@;
            assert(contains_text(old(python_sys_path)@[j]@, "site-packages"@));
        }
    }
    let mut n: usize = 0;
    while n < sites.len()
        invariant
            n <= sites@.len(),
            fs.inv(),
            fs.tree() == tree,
            tree == old(fs).tree(),
            fs.answers() == old(fs).answers(),
            found == string_views(sites@),
            before == string_views(old(python_sys_path)@),
            allowed == path_roots(tree, before),
            forall|w: int|
                0 <= w < sites@.len() ==> contains_text(#[trigger] sites@[w]@, "site-packages"@)
                    && exists|j: int|
                    0 <= j < old(python_sys_path)@.len() && #[trigger] old(python_sys_path)@[j]@
                        == sites@[w]@,
            grown(before, string_views(python_sys_path@), allowed),
            n == 0 ==> python_sys_path@ == old(python_sys_path)@,
            forall|j: int|
                0 <= j < n && is_dir_at(tree, segments(#[trigger] found[j])) ==> site_covered(
                    tree,
                    found[j],
                    string_views(python_sys_path@),
                ),
        decreases sites@.len() - n,
    {
        let ghost mid = string_views(python_sys_path@);
        let ghost site = sites@[n as int]@;
        assert(found[n as int] == site);
        let done = add_from_site(fs, sites[n].as_str(), python_sys_path);
        proof {
            let j = choose|j: int|
                0 <= j < old(python_sys_path)@.len() && #[trigger] old(python_sys_path)@[j]@
                    == sites@[n as int]@;
            assert(before[j] == site);
            assert(site_roots(tree, site).subset_of(allowed) || !is_dir_at(tree, segments(site))) by {
                if is_dir_at(tree, segments(site)) {
                    assert forall|root: Seq<char>|
                        site_roots(tree, site).contains(root) implies allowed.contains(root) by {
                        assert(is_site(tree, before[j]) && site_names(tree, before[j], root));
                    }
                }
            }
            if is_dir_at(tree, segments(site)) {
                lemma_grown_twice(
                    before,
                    mid,
                    string_views(python_sys_path@),
                    allowed,
                    site_roots(tree, site),
                    allowed,
                );
            }
            if done is Err && old(fs).answers() && path_sound(tree, before) {
                assert(is_site(tree, before[j]) ==> site_sound(tree, before[j]));
            }
        }
        match done {
            Err(e) => {
                return Err(e);
            },
            Ok(_) => {},
        }
        proof {
            let now = string_views(python_sys_path@);
            lemma_grown_not(mid, allowed);
            assert(forall|root: Seq<char>| mid.contains(root) ==> now.contains(root)) by {
                if is_dir_at(tree, segments(site)) {
                    lemma_grown_twice(before, mid, now, allowed, site_roots(tree, site), allowed);
                }
            }
            assert forall|j: int|
                0 <= j < n + 1 && is_dir_at(
                    tree,
                    segments(#[trigger] found[j]),
                ) implies site_covered(tree, found[j], now) by {
                if j < n {
                    lemma_site_covered_grows(tree, found[j], mid, now);
                }
            }
        }
        n += 1;
    }
    proof {
        let now = string_views(python_sys_path@);
        assert forall|i: int|
            0 <= i < old(python_sys_path)@.len() && is_site(
                tree,
                #[trigger] old(python_sys_path)@[i]@,
            ) implies site_covered(tree, old(python_sys_path)@[i]@, now) by {
            let site = old(python_sys_path)@[i]@;
            let j = found.index_of(site);
            assert(found[j] == site);
        }
        assert(path_sound(tree, before)) by {
            assert forall|i: int| 0 <= i < before.len() && is_site(
                tree,
                #[trigger] before[i],
            ) implies site_sound(tree, before[i]) by {
                assert(before[i] == old(python_sys_path)@[i]@);
                lemma_covered_is_sound(tree, before[i], now);
            }
        }
    }
    Ok(())
}

} // verus!

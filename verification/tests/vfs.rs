use python_inliner::fs::{FileSystem, FsError};
use python_inliner::mock::{setup_test_env, MockFileSystem};
use python_inliner::vfs::VirtualFileSystem;

fn sample() -> VirtualFileSystem {
    let mut fs = VirtualFileSystem::new();
    fs.mkdir_p("/a/b").unwrap();
    fs.write("/a/file", "text").unwrap();
    fs.write("/a/b/deep", "deep text").unwrap();
    fs
}

fn sorted(mut v: Vec<String>) -> Vec<String> {
    v.sort();
    v
}

#[test]
fn new_store_holds_the_root_only() {
    let mut fs = VirtualFileSystem::new();
    assert_eq!(fs.is_dir("/"), Ok(true));
    assert_eq!(fs.path_exists(""), Ok(true));
    assert_eq!(fs.read_dir("/"), Ok(Vec::new()));
    assert_eq!(fs.path_exists("/a"), Ok(false));
}

#[test]
fn paths_with_the_same_segments_name_the_same_place() {
    let mut fs = sample();
    assert_eq!(fs.read_to_string("/a/file").unwrap(), "text");
    assert_eq!(fs.read_to_string("a/file").unwrap(), "text");
    assert_eq!(fs.read_to_string("//a/./file/").unwrap(), "text");
    assert_eq!(fs.read_to_string("/a/../file").unwrap(), "text");
    assert_eq!(fs.read_to_string("/../a/file").unwrap(), "text");
    assert_eq!(fs.read_to_string("/a/b/../file").unwrap_err(), FsError::NotFound);
}

#[test]
fn canonicalize_gives_the_absolute_path() {
    let fs = VirtualFileSystem::new();
    assert_eq!(fs.canonicalize("a//b/./c/").unwrap(), "/a/b/c");
    assert_eq!(fs.canonicalize("/x/../y").unwrap(), "/x/y");
    assert_eq!(fs.canonicalize("").unwrap(), "/");
    assert_eq!(fs.canonicalize("/").unwrap(), "/");
    assert_eq!(fs.canonicalize("x").unwrap(), "/x");
}

#[test]
fn resolve_path_gives_the_segments() {
    let fs = VirtualFileSystem::new();
    let segs: Vec<String> =
        fs.resolve_path("/a//b/../c/.").unwrap().iter().map(|s| s.iter().collect()).collect();
    assert_eq!(segs, vec!["a", "b", "c"]);
    assert_eq!(fs.resolve_path("/").unwrap().len(), 0);
}

#[test]
fn read_fails_as_the_walk_fails() {
    let mut fs = sample();
    assert_eq!(fs.read_to_string("/a/none"), Err(FsError::NotFound));
    assert_eq!(fs.read_to_string("/none/file"), Err(FsError::NotFound));
    assert_eq!(fs.read_to_string("/a/file/below"), Err(FsError::NotADirectory));
    assert_eq!(fs.read_to_string("/a/file/below/more"), Err(FsError::NotADirectory));
    assert_eq!(fs.read_to_string("/a/b"), Err(FsError::IsADirectory));
    assert_eq!(fs.read_to_string("/"), Err(FsError::IsADirectory));
}

#[test]
fn write_needs_the_directory_and_replaces_what_is_there() {
    let mut fs = sample();
    assert_eq!(fs.write("/none/file", "x"), Err(FsError::NotFound));
    assert_eq!(fs.write("/a/file/below", "x"), Err(FsError::NotADirectory));
    assert_eq!(fs.write("/", "x"), Err(FsError::InvalidInput));
    assert_eq!(fs.write("", "x"), Err(FsError::InvalidInput));
    assert_eq!(fs.write("/top", "one"), Ok(()));
    assert_eq!(fs.write("/top", "two"), Ok(()));
    assert_eq!(fs.read_to_string("/top").unwrap(), "two");
    assert_eq!(fs.read_to_string("/a/file").unwrap(), "text");
    assert_eq!(sorted(fs.read_dir("/").unwrap()), vec!["/a", "/top"]);
}

#[test]
fn write_over_a_directory_takes_what_was_in_it() {
    let mut fs = sample();
    assert_eq!(fs.write("/a", "now a file"), Ok(()));
    assert_eq!(fs.read_to_string("/a").unwrap(), "now a file");
    assert_eq!(fs.path_exists("/a/file"), Ok(false));
    assert_eq!(fs.read_to_string("/a/file"), Err(FsError::NotADirectory));
    assert_eq!(fs.remove_file("/a"), Ok(()));
    assert_eq!(fs.mkdir_p("/a"), Ok(()));
    assert_eq!(fs.read_dir("/a"), Ok(Vec::new()));
    assert_eq!(fs.path_exists("/a/b/deep"), Ok(false));
}

#[test]
fn mkdir_p_makes_what_is_missing() {
    let mut fs = VirtualFileSystem::new();
    assert_eq!(fs.mkdir_p("/x/y/z"), Ok(()));
    assert_eq!(fs.is_dir("/x"), Ok(true));
    assert_eq!(fs.is_dir("/x/y"), Ok(true));
    assert_eq!(fs.is_dir("/x/y/z"), Ok(true));
    assert_eq!(fs.mkdir_p("/x/y"), Ok(()));
    assert_eq!(fs.mkdir_p("/"), Ok(()));
    assert_eq!(fs.read_dir("/x/y").unwrap(), vec!["/x/y/z"]);
}

#[test]
fn mkdir_p_stops_at_a_file() {
    let mut fs = VirtualFileSystem::new();
    fs.mkdir_p("/d").unwrap();
    fs.write("/d/f", "x").unwrap();
    assert_eq!(fs.mkdir_p("/d/f"), Err(FsError::AlreadyExists));
    assert_eq!(fs.mkdir_p("/d/f/g/h"), Err(FsError::AlreadyExists));
    assert_eq!(fs.is_file("/d/f"), Ok(true));
    assert_eq!(fs.read_dir("/d").unwrap(), vec!["/d/f"]);
    assert_eq!(fs.read_to_string("/d/f").unwrap(), "x");
}

#[test]
fn remove_file_removes_files_only() {
    let mut fs = sample();
    assert_eq!(fs.remove_file("/a/file"), Ok(()));
    assert_eq!(fs.path_exists("/a/file"), Ok(false));
    assert_eq!(fs.remove_file("/a/file"), Err(FsError::NotFound));
    assert_eq!(fs.remove_file("/a/b"), Err(FsError::IsADirectory));
    assert_eq!(fs.remove_file("/none/file"), Err(FsError::NotFound));
    assert_eq!(fs.remove_file("/a/b/deep/x"), Err(FsError::NotADirectory));
    assert_eq!(fs.remove_file("/"), Err(FsError::InvalidInput));
    assert_eq!(fs.read_to_string("/a/b/deep").unwrap(), "deep text");
}

#[test]
fn remove_dir_removes_empty_directories_only() {
    let mut fs = sample();
    assert_eq!(fs.remove_dir("/a/b"), Err(FsError::DirectoryNotEmpty));
    assert_eq!(fs.remove_dir("/a"), Err(FsError::DirectoryNotEmpty));
    assert_eq!(fs.remove_dir("/a/file"), Err(FsError::NotADirectory));
    assert_eq!(fs.remove_dir("/a/none"), Err(FsError::NotFound));
    assert_eq!(fs.remove_dir("/none/x"), Err(FsError::NotFound));
    assert_eq!(fs.remove_dir("/a/file/x"), Err(FsError::NotADirectory));
    assert_eq!(fs.remove_dir("/"), Err(FsError::InvalidInput));
    assert_eq!(fs.remove_file("/a/b/deep"), Ok(()));
    assert_eq!(fs.remove_dir("/a/b"), Ok(()));
    assert_eq!(fs.path_exists("/a/b"), Ok(false));
    assert_eq!(fs.read_dir("/a").unwrap(), vec!["/a/file"]);
}

#[test]
fn probes_tell_files_from_directories() {
    let mut fs = sample();
    assert_eq!(fs.is_file("/a/file"), Ok(true));
    assert_eq!(fs.is_dir("/a/file"), Ok(false));
    assert_eq!(fs.path_exists("/a/file"), Ok(true));
    assert_eq!(fs.is_file("/a/b"), Ok(false));
    assert_eq!(fs.is_dir("/a/b"), Ok(true));
    assert_eq!(fs.is_file("/a/none"), Ok(false));
    assert_eq!(fs.is_dir("/none/at/all"), Ok(false));
    assert_eq!(fs.path_exists("/a/none"), Ok(false));
    assert_eq!(fs.is_file("/a/file/x"), Ok(false));
    assert_eq!(fs.is_dir("/a/file/x"), Ok(false));
    assert_eq!(fs.path_exists("/a/file/x"), Ok(false));
}

#[test]
fn read_dir_lists_the_entries_of_one_directory() {
    let mut fs = sample();
    assert_eq!(sorted(fs.read_dir("/a").unwrap()), vec!["/a/b", "/a/file"]);
    assert_eq!(fs.read_dir("a/b/").unwrap(), vec!["/a/b/deep"]);
    assert_eq!(fs.read_dir("/").unwrap(), vec!["/a"]);
    assert_eq!(fs.read_dir("/a/file"), Err(FsError::NotADirectory));
    assert_eq!(fs.read_dir("/none"), Err(FsError::NotFound));
}

#[test]
fn failures_have_their_texts() {
    assert_eq!(FsError::NotFound.message(), "Path not found");
    assert_eq!(FsError::NotADirectory.message(), "Not a directory");
    assert_eq!(FsError::IsADirectory.message(), "Is a directory");
    assert_eq!(FsError::AlreadyExists.message(), "File exists");
    assert_eq!(FsError::InvalidInput.message(), "Invalid path");
    assert_eq!(FsError::DirectoryNotEmpty.message(), "Directory not empty");
    assert_eq!(FsError::Other("disk on fire".to_string()).message(), "disk on fire");
}

#[test]
fn mock_store_keeps_texts_by_path() {
    let mut fs = MockFileSystem::new();
    assert!(!fs.file_exists("/a.py"));
    assert_eq!(fs.read_file("/a.py"), None);
    fs.add_file("/a.py", "one");
    fs.add_file("/dir/b.py", "two");
    assert!(fs.file_exists("/a.py"));
    assert!(fs.file_exists("//a.py"));
    assert!(!fs.file_exists("/dir"));
    assert_eq!(fs.read_file("/a.py"), Some("one".to_string()));
    assert_eq!(fs.read_file("dir/./b.py"), Some("two".to_string()));
    fs.write_file("/a.py", "three");
    assert_eq!(fs.read_file("/a.py"), Some("three".to_string()));
    assert_eq!(fs.read_file("/dir/b.py"), Some("two".to_string()));
    fs.add_file("/dir/b.py", "");
    assert_eq!(fs.read_file("/dir/b.py"), Some(String::new()));
    assert_eq!(fs.read_file("/a.py"), Some("three".to_string()));
}

#[test]
fn mock_store_starts_empty_and_copies_are_apart() {
    let mut fs = setup_test_env();
    assert!(!fs.file_exists("/x"));
    fs.write_file("/x", "1");
    let mut copy = fs.clone();
    copy.write_file("/x", "2");
    copy.add_file("/y", "3");
    assert_eq!(fs.read_file("/x"), Some("1".to_string()));
    assert!(!fs.file_exists("/y"));
    assert_eq!(copy.read_file("/x"), Some("2".to_string()));
    assert_eq!(MockFileSystem::default().read_file("/x"), None);
}

#[test]
fn write_leaves_the_rest_of_the_store_alone() {
    let mut fs = sample();
    assert_eq!(fs.write("/a/b/new", "n"), Ok(()));
    assert_eq!(fs.read_to_string("/a/file").unwrap(), "text");
    assert_eq!(fs.read_to_string("/a/b/deep").unwrap(), "deep text");
    assert_eq!(sorted(fs.read_dir("/a/b").unwrap()), vec!["/a/b/deep", "/a/b/new"]);
    assert_eq!(fs.write("/a/none/new", "n"), Err(FsError::NotFound));
    assert_eq!(sorted(fs.read_dir("/a").unwrap()), vec!["/a/b", "/a/file"]);
}

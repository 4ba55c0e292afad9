use python_inliner::editable::{editable_root, handle_editable_installs, DirectUrl};
use python_inliner::error::InlineError;
use python_inliner::fs::{FileSystem, FsError};
use python_inliner::python::{
    existing_directories, is_yes, parse_sys_path, sys_path_from, CommandError, Outcome,
};
use python_inliner::text::{to_chars, to_string};
use python_inliner::vfs::VirtualFileSystem;

const SITE: &str = "/venv/lib/python3.12/site-packages";

fn site_with(records: &[(&str, &str)]) -> VirtualFileSystem {
    let mut fs = VirtualFileSystem::new();
    fs.mkdir_p(SITE).unwrap();
    for (dist, record) in records {
        let dir = format!("{}/{}", SITE, dist);
        fs.mkdir_p(&dir).unwrap();
        fs.write(&format!("{}/direct_url.json", dir), record).unwrap();
    }
    fs
}

fn roots(v: &[&str]) -> Vec<String> {
    v.iter().map(|s| s.to_string()).collect()
}

#[test]
fn editable_install_adds_its_source_directory() {
    let mut fs = site_with(&[(
        "pkg-1.0.dist-info",
        r#"{"url": "file:///src/pkg", "dir_info": {"editable": true}}"#,
    )]);
    fs.mkdir_p("/src/pkg").unwrap();
    let mut path = roots(&["/usr/lib/python3", SITE]);
    handle_editable_installs(&mut fs, &mut path).unwrap();
    assert_eq!(path, roots(&["/usr/lib/python3", SITE, "/src/pkg"]));
}

#[test]
fn records_that_name_no_root_add_nothing() {
    let mut fs = site_with(&[
        ("a-1.dist-info", r#"{"url": "file:///src/a", "dir_info": {"editable": false}}"#),
        ("b-1.dist-info", r#"{"url": "file:///src/b", "dir_info": {}}"#),
        ("c-1.dist-info", r#"{"url": "file:///src/c"}"#),
        ("d-1.dist-info", r#"{"url": "https://host/src/d", "dir_info": {"editable": true}}"#),
        ("e-1.dist-info", r#"{"url": 7, "dir_info": {"editable": true}}"#),
        ("f-1.dist-info", r#"{"dir_info": {"editable": true}}"#),
        ("g-1.dist-info", r#"{"url": "file:///src/g", "dir_info": {"editable": "true"}}"#),
        ("h-1.dist-info", r#"["file:///src/h"]"#),
        ("i-1.egg-info", r#"{"url": "file:///src/i", "dir_info": {"editable": true}}"#),
        ("j-1.dist-info", r#"{"url": "file:///src/missing", "dir_info": {"editable": true}}"#),
        ("k-1.dist-info", r#"{"url": "file:///src/file", "dir_info": {"editable": true}}"#),
    ]);
    for d in ["a", "b", "c", "d", "e", "f", "g", "h", "i"] {
        fs.mkdir_p(&format!("/src/{}", d)).unwrap();
    }
    fs.write("/src/file", "no directory").unwrap();
    fs.mkdir_p(&format!("{}/empty-1.dist-info", SITE)).unwrap();
    fs.write(&format!("{}/loose.dist-info", SITE), "a file").unwrap();
    let mut path = roots(&[SITE]);
    handle_editable_installs(&mut fs, &mut path).unwrap();
    assert_eq!(path, roots(&[SITE]));
}

#[test]
fn root_that_is_there_is_not_added_again() {
    let record = r#"{"url": "file:///src/pkg", "dir_info": {"editable": true}}"#;
    let mut fs = site_with(&[("one-1.dist-info", record), ("two-2.dist-info", record)]);
    fs.mkdir_p("/src/pkg").unwrap();
    let mut path = roots(&[SITE]);
    handle_editable_installs(&mut fs, &mut path).unwrap();
    assert_eq!(path, roots(&[SITE, "/src/pkg"]));
    let mut path = roots(&["/src/pkg", SITE]);
    handle_editable_installs(&mut fs, &mut path).unwrap();
    assert_eq!(path, roots(&["/src/pkg", SITE]));
}

#[test]
fn only_directories_of_installed_packages_are_searched() {
    let mut fs = VirtualFileSystem::new();
    fs.mkdir_p("/plain/pkg-1.dist-info").unwrap();
    fs.write(
        "/plain/pkg-1.dist-info/direct_url.json",
        r#"{"url": "file:///src", "dir_info": {"editable": true}}"#,
    )
    .unwrap();
    fs.mkdir_p("/src").unwrap();
    fs.write("/file/site-packages", "x").unwrap_err();
    let mut path = roots(&["/plain", "/missing/site-packages", "/src"]);
    handle_editable_installs(&mut fs, &mut path).unwrap();
    assert_eq!(path, roots(&["/plain", "/missing/site-packages", "/src"]));
}

#[test]
fn record_that_is_no_json_ends_the_work() {
    let mut fs = site_with(&[("bad-1.dist-info", "{\"url\": ")]);
    let mut path = roots(&[SITE]);
    let err = handle_editable_installs(&mut fs, &mut path).unwrap_err();
    match err {
        InlineError::Metadata { path, message } => {
            assert_eq!(path, format!("{}/bad-1.dist-info/direct_url.json", SITE));
            assert!(!message.is_empty());
            assert_ne!(message, "{\"url\": ");
        }
        other => panic!("unexpected {:?}", other),
    }
    assert_eq!(path, roots(&[SITE]));
}

#[test]
fn failure_of_the_store_ends_the_work() {
    let mut fs = VirtualFileSystem::new();
    let record = format!("{}/pkg-1.dist-info/direct_url.json", SITE);
    fs.mkdir_p(&record).unwrap();
    let mut path = roots(&[SITE]);
    assert_eq!(
        handle_editable_installs(&mut fs, &mut path),
        Err(InlineError::Io { path: record, cause: FsError::IsADirectory })
    );
    assert_eq!(path, roots(&[SITE]));
}

#[test]
fn search_path_without_a_site_directory_is_left_as_it_is() {
    let mut fs = VirtualFileSystem::new();
    fs.write("/usr", "a file").unwrap();
    let mut path = roots(&["/usr/lib/python3", "", "/nowhere"]);
    assert_eq!(handle_editable_installs(&mut fs, &mut path), Ok(()));
    assert_eq!(path, roots(&["/usr/lib/python3", "", "/nowhere"]));
    let mut none: Vec<String> = Vec::new();
    assert_eq!(handle_editable_installs(&mut fs, &mut none), Ok(()));
    assert!(none.is_empty());
}

#[test]
fn site_directory_below_a_file_is_no_directory() {
    let mut fs = VirtualFileSystem::new();
    fs.write("/site-packages", "a file").unwrap();
    let mut path = roots(&["/site-packages/below", "/site-packages"]);
    assert_eq!(handle_editable_installs(&mut fs, &mut path), Ok(()));
    assert_eq!(path, roots(&["/site-packages/below", "/site-packages"]));
}

#[test]
fn roots_before_a_malformed_record_stay() {
    let mut fs = site_with(&[(
        "a-1.dist-info",
        r#"{"url": "file:///src/a", "dir_info": {"editable": true}}"#,
    )]);
    fs.mkdir_p("/src/a").unwrap();
    fs.mkdir_p("/other/site-packages/bad-1.dist-info").unwrap();
    fs.write("/other/site-packages/bad-1.dist-info/direct_url.json", "not json").unwrap();
    let mut path = roots(&[SITE, "/other/site-packages"]);
    let err = handle_editable_installs(&mut fs, &mut path).unwrap_err();
    assert!(matches!(err, InlineError::Metadata { .. }));
    assert_eq!(path, roots(&[SITE, "/other/site-packages", "/src/a"]));
}

#[test]
fn editable_root_takes_the_scheme_off() {
    let record = |url: Option<&str>, editable: Option<bool>| DirectUrl {
        url: url.map(|u| u.to_string()),
        editable,
    };
    assert_eq!(editable_root(&record(Some("file:///a/b"), Some(true))), Some("/a/b".to_string()));
    assert_eq!(editable_root(&record(Some("file://rel"), Some(true))), Some("rel".to_string()));
    assert_eq!(editable_root(&record(Some("file://"), Some(true))), Some(String::new()));
    assert_eq!(
        editable_root(&record(Some("file://file://file:/x"), Some(true))),
        Some("file:/x".to_string())
    );
    assert_eq!(editable_root(&record(Some("file:///a"), Some(false))), None);
    assert_eq!(editable_root(&record(Some("file:///a"), None)), None);
    assert_eq!(editable_root(&record(Some("File:///a"), Some(true))), None);
    assert_eq!(editable_root(&record(Some(" file:///a"), Some(true))), None);
    assert_eq!(editable_root(&record(None, Some(true))), None);
}

#[test]
fn search_path_is_read_line_by_line() {
    assert_eq!(
        parse_sys_path("/a\n/b c\n\n/d\n"),
        roots(&["/a", "/b c", "", "/d"])
    );
    assert_eq!(parse_sys_path("/a\r\n/b\r\n"), roots(&["/a", "/b"]));
    assert_eq!(parse_sys_path("/a\r\n/b\r"), roots(&["/a", "/b\r"]));
    assert_eq!(parse_sys_path("a\r"), roots(&["a\r"]));
    assert_eq!(parse_sys_path("\r\n\r\r\n"), roots(&["", "\r"]));
    assert_eq!(parse_sys_path("/a"), roots(&["/a"]));
    assert_eq!(parse_sys_path(""), Vec::<String>::new());
    assert_eq!(parse_sys_path("\n"), roots(&[""]));
}

#[test]
fn entries_that_are_no_directories_are_left_out() {
    let mut fs = VirtualFileSystem::new();
    fs.mkdir_p("/a/b").unwrap();
    fs.write("/a/file", "x").unwrap();
    let kept = existing_directories(
        &mut fs,
        &roots(&["/a", "/none", "/a/file", "/a/b", "/a/file/x", "", "/a"]),
    );
    assert_eq!(kept, roots(&["/a", "/a/b", "", "/a"]));
}

#[test]
fn command_error_keeps_its_description() {
    let e = CommandError("Command failed with status: 1".to_string());
    assert_eq!(e.message(), "Command failed with status: 1");
    assert_eq!(e.0, "Command failed with status: 1");
}

#[test]
fn strings_and_characters_convert_both_ways() {
    let s = "a→b\n\tç";
    let v = to_chars(s);
    assert_eq!(v, vec!['a', '→', 'b', '\n', '\t', 'ç']);
    assert_eq!(to_string(&v), s);
    assert_eq!(to_string(&[]), "");
}

#[test]
fn metadata_error_has_its_text() {
    let e = InlineError::Metadata { path: "/r.json".to_string(), message: "EOF".to_string() };
    assert_eq!(e.message(), "/r.json: EOF");
}

#[test]
fn only_the_answer_yes_counts_as_yes() {
    assert!(is_yes(&Ok(true)));
    assert!(!is_yes(&Ok(false)));
    assert!(!is_yes(&Err(FsError::NotFound)));
    assert!(!is_yes(&Err(FsError::Other("busy".to_string()))));
}

#[test]
fn outcome_of_the_interpreter_gives_the_search_path() {
    let good = Outcome::Exited {
        success: true,
        status: "exit status: 0".to_string(),
        stdout: Some("/a\n/b\n".to_string()),
        stderr: "warning".to_string(),
    };
    assert_eq!(sys_path_from(&good).unwrap(), roots(&["/a", "/b"]));
    let empty = Outcome::Exited {
        success: true,
        status: String::new(),
        stdout: Some(String::new()),
        stderr: String::new(),
    };
    assert_eq!(sys_path_from(&empty).unwrap(), Vec::<String>::new());
}

#[test]
fn outcome_that_is_a_failure_is_described() {
    let e = sys_path_from(&Outcome::NotStarted("No such file or directory".to_string()));
    assert_eq!(e.unwrap_err().0, "Command failed with error: No such file or directory");
    let failed = Outcome::Exited {
        success: false,
        status: "exit status: 2".to_string(),
        stdout: Some("/a\n".to_string()),
        stderr: "boom".to_string(),
    };
    assert_eq!(
        sys_path_from(&failed).unwrap_err().0,
        "Command failed with status: exit status: 2\nstdout: /a\n\nstderr: boom"
    );
    let unreadable = Outcome::Exited {
        success: false,
        status: "exit status: 1".to_string(),
        stdout: None,
        stderr: String::new(),
    };
    assert_eq!(
        sys_path_from(&unreadable).unwrap_err().0,
        "Command failed with status: exit status: 1\nstdout: <invalid utf-8>\nstderr: "
    );
    let garbled = Outcome::Exited {
        success: true,
        status: "exit status: 0".to_string(),
        stdout: None,
        stderr: String::new(),
    };
    assert_eq!(
        sys_path_from(&garbled).unwrap_err().0,
        "Error converting output to string: <invalid utf-8>"
    );
}

use python_inliner::dead_blocks::strip_dead_blocks;
use python_inliner::error::InlineError;
use python_inliner::fs::{FileSystem, FsError};
use python_inliner::imports::find_imports;
use python_inliner::processed::ProcessedSet;
use python_inliner::render::reindent;
use python_inliner::run::{inline_imports, prefixes_of, run, Opt};
use python_inliner::vfs::VirtualFileSystem;

fn chars(s: &str) -> Vec<char> {
    s.chars().collect()
}

fn text(v: &[char]) -> String {
    v.iter().collect()
}

fn opt(names: &str, release: bool) -> Opt {
    Opt {
        input_file: "/proj/main.py".to_string(),
        output_file: "/proj/out.py".to_string(),
        module_names: names.to_string(),
        release,
    }
}

fn store(files: &[(&str, &str)]) -> VirtualFileSystem {
    let mut fs = VirtualFileSystem::new();
    for (path, content) in files {
        let dir = match path.rfind('/') {
            Some(k) => &path[..k],
            None => "",
        };
        fs.mkdir_p(dir).unwrap();
        fs.write(path, content).unwrap();
    }
    fs
}

fn run_on(files: &[(&str, &str)], names: &str, release: bool, roots: &[&str]) -> String {
    let mut fs = store(files);
    let sys_path: Vec<String> = roots.iter().map(|r| r.to_string()).collect();
    run(opt(names, release), &mut fs, &sys_path).unwrap();
    fs.read_to_string("/proj/out.py").unwrap()
}

/// The inlined text of `/proj/main.py` in release mode, before it is tidied.
fn bare(files: &[(&str, &str)], names: &str, roots: &[&str]) -> String {
    let mut fs = store(files);
    let mut sys_path = vec!["/proj".to_string()];
    sys_path.extend(roots.iter().map(|r| r.to_string()));
    let prefixes: Vec<String> = prefixes_of(names).iter().map(|p| text(p)).collect();
    let mut processed = ProcessedSet::new();
    inline_imports(&mut fs, &sys_path, "/proj/main.py", &prefixes, &mut processed, &opt(names, true))
        .unwrap()
}

#[test]
fn example_submodule_with_markers() {
    let out = run_on(
        &[
            ("/proj/main.py", "from mylib.util import helper\nhelper()\n"),
            ("/proj/mylib/util.py", "def helper(): pass\n"),
        ],
        "mylib",
        false,
        &[],
    );
    assert_eq!(
        out,
        "# ↓↓↓ inlined submodule: mylib.util\ndef helper(): pass\n\n# ↑↑↑ inlined submodule: mylib.util\nhelper()\n"
    );
}

#[test]
fn markers_stand_at_the_indentation_of_the_statement() {
    let out = run_on(
        &[
            ("/proj/main.py", "def f():\n    from mylib.util import helper\n    helper()\n"),
            ("/proj/mylib/util.py", "def helper(): pass"),
        ],
        "mylib",
        false,
        &[],
    );
    assert_eq!(
        out,
        "def f():\n    # ↓↓↓ inlined submodule: mylib.util\n    def helper(): pass\n    # ↑↑↑ inlined submodule: mylib.util\n    helper()\n"
    );
}

#[test]
fn same_file_by_two_statements_is_inlined_once() {
    let files = [
        ("/proj/main.py", "from lib.a import x\nfrom lib.a import y\nend\n"),
        ("/proj/lib/a.py", "BODY = 1\n"),
    ];
    let out = run_on(&files, "lib", false, &[]);
    assert_eq!(out.matches("BODY = 1").count(), 1);
    assert_eq!(
        out,
        "# ↓↓↓ inlined submodule: lib.a\nBODY = 1\n\n# ↑↑↑ inlined submodule: lib.a\n# →→ lib.a ←← already inlined\nend\n"
    );
}

#[test]
fn second_statement_leaves_nothing_in_release_mode() {
    let mut fs = store(&[
        ("/proj/main.py", "from lib.a import x\nfrom lib.a import y\nend\n"),
        ("/proj/lib/a.py", "BODY = 1\n"),
    ]);
    let mut processed = ProcessedSet::new();
    let out = inline_imports(
        &mut fs,
        &vec!["/proj".to_string()],
        "/proj/main.py",
        &vec!["lib".to_string()],
        &mut processed,
        &opt("lib", true),
    )
    .unwrap();
    assert_eq!(out, "BODY = 1\n\nend\n");
    assert!(processed.contains("/proj/lib/a.py"));
    assert!(processed.contains("/proj//lib/./a.py"));
    assert!(!processed.contains("/proj/main.py"));
}

#[test]
fn cycle_of_imports_ends() {
    let out = run_on(
        &[
            ("/proj/main.py", "from pkg.a import fa\nmain\n"),
            ("/proj/pkg/a.py", "from pkg.b import fb\nA\n"),
            ("/proj/pkg/b.py", "from pkg.a import fa\nB\n"),
        ],
        "pkg",
        false,
        &[],
    );
    assert_eq!(out.matches("\nA\n").count(), 1);
    assert_eq!(out.matches("\nB\n").count(), 1);
    assert_eq!(out.matches("already inlined").count(), 1);
    assert_eq!(
        out,
        "# ↓↓↓ inlined submodule: pkg.a\n# ↓↓↓ inlined submodule: pkg.b\n# →→ pkg.a ←← already inlined\nB\n\n# ↑↑↑ inlined submodule: pkg.b\nA\n\n# ↑↑↑ inlined submodule: pkg.a\nmain\n"
    );
}

#[test]
fn file_that_imports_itself_ends() {
    let out = bare(&[("/proj/main.py", "from .main import f\nX\n")], "", &[]);
    assert_eq!(out.matches("X").count(), 2);
}

#[test]
fn reindent_prefixes_lines_and_keeps_empty_lines_empty() {
    let body = chars("def f():\n    return 1\n\nclass C:\n    pass\n");
    let out = text(&reindent(&body, &chars("    ")));
    assert_eq!(out, "    def f():\n        return 1\n\n    class C:\n        pass\n");
    for line in out.lines() {
        assert!(line.is_empty() || line.starts_with("    "));
        assert!(line.is_empty() || !line.trim().is_empty());
    }
}

#[test]
fn reindent_without_final_newline() {
    assert_eq!(text(&reindent(&chars("a\nb"), &chars("\t"))), "\ta\n\tb");
    assert_eq!(text(&reindent(&chars(""), &chars("  "))), "");
    assert_eq!(text(&reindent(&chars("\n"), &chars("  "))), "\n");
}

#[test]
fn inlined_body_takes_the_indentation() {
    let out = bare(&[
            ("/proj/main.py", "if True:\n    from m import *\n"),
            ("/proj/m.py", "a = 1\n\nb = 2\n"),
        ], "m", &[]);
    assert_eq!(out, "if True:\n    a = 1\n\n    b = 2\n\n");
}

#[test]
fn multi_line_import_goes_as_a_whole() {
    let out = bare(&[
            ("/proj/main.py", "from lib.a import (\n    A,\n    B,\n    C,\n)\nrest\n"),
            ("/proj/lib/a.py", "BODY\n"),
        ], "lib", &[]);
    assert_eq!(out, "BODY\n\nrest\n");
    assert!(!out.contains(')'));
    assert!(!out.contains("A,"));
}

#[test]
fn multi_line_import_with_nested_parentheses() {
    let w = chars("from lib.a import (\n    A,  # (note)\n    B,\n)\nrest\n");
    let found = find_imports(&w, &prefixes_of("lib"));
    assert_eq!(found.len(), 1);
    assert_eq!(found[0].start, 0);
    assert_eq!(found[0].end, w.len() - "rest\n".len());
    assert_eq!(text(&found[0].module), "lib.a");
    assert_eq!(text(&found[0].names), "(");
    assert_eq!(text(&found[0].indent), "");
}

#[test]
fn unclosed_parenthesis_ends_with_its_line() {
    let w = chars("  from lib.a import (\n    A,\n");
    let found = find_imports(&w, &prefixes_of("lib"));
    assert_eq!(found.len(), 1);
    assert_eq!(found[0].end, "  from lib.a import (\n".len());
    assert_eq!(text(&found[0].indent), "  ");
}

#[test]
fn unresolved_import_stays_byte_for_byte() {
    let source = "import os\nfrom lib.missing import thing\n\tfrom lib.gone import (\n\t\ta,\n\t)\nx = 1";
    let out = run_on(&[("/proj/main.py", source)], "lib", false, &["/elsewhere"]);
    assert_eq!(out, source);
}

#[test]
fn only_local_prefixes_are_sought() {
    let files = [
        ("/proj/main.py", "from os import path\nfrom mylib import a\nfrom . import b\n"),
        ("/proj/os.py", "OS\n"),
        ("/proj/mylib.py", "MYLIB\n"),
        ("/proj/__init__.py", "INIT\n"),
    ];
    let out = bare(&files, "mylib", &[]);
    assert_eq!(out, "from os import path\nMYLIB\n\nINIT\n\n");
}

#[test]
fn empty_name_makes_every_module_local() {
    let files = [("/proj/main.py", "from os import path\n"), ("/proj/os.py", "OS\n")];
    assert_eq!(bare(&files, "", &[]), "OS\n\n");
    assert_eq!(bare(&files, "x,", &[]), "OS\n\n");
    assert_eq!(bare(&files, "x", &[]), "from os import path\n");
}

#[test]
fn prefixes_are_split_at_commas_and_trimmed() {
    let got: Vec<String> = prefixes_of(" a.b , c,,d ").iter().map(|p| text(p)).collect();
    assert_eq!(got, vec![".", "a.b", "c", "", "d"]);
    let got: Vec<String> = prefixes_of("").iter().map(|p| text(p)).collect();
    assert_eq!(got, vec![".", ""]);
}

#[test]
fn package_is_found_before_module_and_named_so() {
    let out = run_on(
        &[
            ("/proj/main.py", "from pkg import thing\n"),
            ("/proj/pkg/__init__.py", "PACKAGE\n"),
            ("/proj/pkg.py", "MODULE\n"),
        ],
        "pkg",
        false,
        &[],
    );
    assert_eq!(
        out,
        "# ↓↓↓ inlined package: pkg\nPACKAGE\n\n# ↑↑↑ inlined package: pkg\n"
    );
}

#[test]
fn repeated_package_leaves_the_marker() {
    let out = run_on(
        &[
            ("/proj/main.py", "from pkg import a\nfrom pkg import b\n"),
            ("/proj/pkg/__init__.py", "P"),
        ],
        "pkg",
        false,
        &[],
    );
    assert_eq!(
        out,
        "# ↓↓↓ inlined package: pkg\nP\n# ↑↑↑ inlined package: pkg\n# →→ pkg ←← already inlined\n"
    );
}

#[test]
fn first_search_root_wins() {
    let files = [
        ("/proj/main.py", "from lib import a\n"),
        ("/one/lib.py", "ONE\n"),
        ("/two/lib/__init__.py", "TWO\n"),
    ];
    assert_eq!(bare(&files, "lib", &["/one", "/two"]), "ONE\n\n");
    assert_eq!(bare(&files, "lib", &["/two", "/one"]), "TWO\n\n");
    assert_eq!(bare(&files, "lib", &["/none/", "/two/"]), "TWO\n\n");
}

#[test]
fn directory_of_the_entry_file_is_the_first_root() {
    let files = [
        ("/proj/main.py", "from lib import a\n"),
        ("/proj/lib.py", "HERE\n"),
        ("/one/lib.py", "ONE\n"),
    ];
    assert_eq!(bare(&files, "lib", &["/one"]), "HERE\n\n");
}

#[test]
fn relative_import_is_sought_from_the_importing_file() {
    let out = bare(&[
            ("/proj/main.py", "from sub.a import fa\n"),
            ("/proj/sub/a.py", "from .b import fb\nfrom ..c.d import fd\nA\n"),
            ("/proj/sub/b.py", "B\n"),
            ("/proj/sub/c/d.py", "D\n"),
            ("/proj/b.py", "WRONG\n"),
        ], "sub", &[]);
    assert_eq!(out, "B\n\nD\n\nA\n\n");
}

#[test]
fn type_checking_block_is_cut_out() {
    let source = "import x\nif TYPE_CHECKING:\n    from lib.a import T\n\n    from lib.b import U\ny = 1\n";
    assert_eq!(text(&strip_dead_blocks(&chars(source))), "import x\ny = 1\n");
    let out = bare(&[("/proj/main.py", source), ("/proj/lib/a.py", "A\n"), ("/proj/lib/b.py", "B\n")], "lib", &[]);
    assert_eq!(out, "import x\ny = 1\n");
}

#[test]
fn indented_guard_ends_at_its_own_depth() {
    let source = "def f():\n    if  TYPE_CHECKING :  \n        import a\n    b\nif TYPE_CHECKING:\nc\n";
    assert_eq!(text(&strip_dead_blocks(&chars(source))), "def f():\n    b\nc\n");
}

#[test]
fn guard_at_the_end_and_lookalikes() {
    assert_eq!(text(&strip_dead_blocks(&chars("a\nif TYPE_CHECKING:"))), "a\n");
    assert_eq!(text(&strip_dead_blocks(&chars("if TYPE_CHECKING:\n  x\n\n"))), "");
    let kept = "if TYPE_CHECKINGS:\n  x\nif not TYPE_CHECKING:\n  y\nif TYPE_CHECKING: z\n";
    assert_eq!(text(&strip_dead_blocks(&chars(kept))), kept);
}

#[test]
fn statement_shapes_that_are_no_local_imports() {
    let w = chars("import lib.a\nfrom lib.a\nfrom  import x\nfrom lib.a import\nfrom lib.a import   \nxfrom lib.a import b\nfrom lib.aimport b\n");
    assert_eq!(find_imports(&w, &prefixes_of("lib")).len(), 0);
    let w = chars("\tfrom\tlib.a\timport\tb  \r\nfrom lib.a import c");
    let found = find_imports(&w, &prefixes_of("lib"));
    assert_eq!(found.len(), 2);
    assert_eq!(text(&found[0].indent), "\t");
    assert_eq!(text(&found[0].names), "b  \r");
    assert_eq!((found[0].start, found[0].end), (0, 24));
    assert_eq!((found[1].start, found[1].end), (24, w.len()));
}

#[test]
fn missing_entry_file_is_an_error_that_names_it() {
    let mut fs = VirtualFileSystem::new();
    fs.mkdir_p("/proj").unwrap();
    let err = run(opt("", false), &mut fs, &Vec::new()).unwrap_err();
    assert_eq!(
        err,
        InlineError::Io { path: "/proj/main.py".to_string(), cause: FsError::NotFound }
    );
    assert_eq!(err.message(), "/proj/main.py: Path not found");
    assert_eq!(fs.path_exists("/proj/out.py"), Ok(false));
}

#[test]
fn module_that_is_a_directory_is_an_error() {
    let mut fs = store(&[("/proj/main.py", "from lib import a\n")]);
    fs.mkdir_p("/proj/lib.py").unwrap();
    let err = run(opt("lib", false), &mut fs, &Vec::new()).unwrap_err();
    assert_eq!(
        err,
        InlineError::Io { path: "/proj/lib.py".to_string(), cause: FsError::IsADirectory }
    );
}

#[test]
fn output_directory_must_exist() {
    let mut fs = store(&[("/proj/main.py", "x\n")]);
    let o = Opt {
        input_file: "/proj/main.py".to_string(),
        output_file: "/nowhere/out.py".to_string(),
        module_names: "".to_string(),
        release: false,
    };
    let err = run(o, &mut fs, &Vec::new()).unwrap_err();
    assert_eq!(
        err,
        InlineError::Io { path: "/nowhere/out.py".to_string(), cause: FsError::NotFound }
    );
}

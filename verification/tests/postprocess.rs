use python_inliner::blank_lines::strip_blank_lines;
use python_inliner::comments::strip_comments;
use python_inliner::consolidate::post_process_imports;
use python_inliner::docstrings::strip_docstrings;
use python_inliner::fs::FileSystem;
use python_inliner::run::{post_process, run, Opt};
use python_inliner::vfs::VirtualFileSystem;

#[test]
fn assigned_triple_quoted_string_stays() {
    let source = "MY_VAR = \"\"\"text\"\"\"\n";
    assert_eq!(strip_docstrings(source), source);
    let source = "a.b.c = '''x\ny'''\nobj.name   =   r\"\"\"raw\"\"\"\n";
    assert_eq!(strip_docstrings(source), source);
}

#[test]
fn docstring_of_a_function_goes_without_a_trace() {
    let source = "def f():\n    \"\"\"Doc of f.\"\"\"\n    return 1\n";
    let out = strip_docstrings(source);
    assert_eq!(out, "def f():\n    \n    return 1\n");
    assert!(!out.contains('"'));
}

#[test]
fn docstring_over_several_lines_goes() {
    let source = "class C:\n    '''First.\n\n    More # text \"\"\" here.\n    '''\n    x = 1\n";
    assert_eq!(strip_docstrings(source), "class C:\n    \n    x = 1\n");
}

#[test]
fn strings_whose_value_is_used_stay() {
    let source = "print(f\"\"\"{x}\"\"\")\ny = F'''a'''\nz(Rf\"\"\"b\"\"\")\n@deco(\"\"\"c\"\"\")\nimport x; \"\"\"d\"\"\"\nfrom y import z; '''e'''\n";
    assert_eq!(strip_docstrings(source), source);
}

#[test]
fn other_triple_quoted_strings_count_as_documentation() {
    assert_eq!(strip_docstrings("return \"\"\"x\"\"\"\n"), "return \n");
    assert_eq!(strip_docstrings("x == \"\"\"a\"\"\"\n"), "x == \"\"\"a\"\"\"\n");
    assert_eq!(strip_docstrings("1x = \"\"\"a\"\"\"\n"), "1x = \n");
    assert_eq!(strip_docstrings("a. = \"\"\"a\"\"\"!"), "a. = !");
    assert_eq!(strip_docstrings("important \"\"\"a\"\"\""), "important ");
}

#[test]
fn unterminated_triple_quote_is_ordinary_text() {
    let source = "x\n\"\"\"never closed\ny '' z\n";
    assert_eq!(strip_docstrings(source), source);
    assert_eq!(strip_docstrings("\"\"\"a'''b"), "\"\"\"a'''b");
    assert_eq!(strip_docstrings("\"\"\"a'''b'''"), "\"\"\"a");
}

#[test]
fn four_quotes_open_no_string() {
    assert_eq!(strip_docstrings("\"\"\"\"x\"\"\""), "\"");
    assert_eq!(strip_docstrings("''''''"), "''''''");
    assert_eq!(strip_docstrings("'''a''''"), "'");
}

#[test]
fn text_without_triple_quotes_is_unchanged() {
    let source = "a = \"x\" + 'y'  # \"\" ''\n\n";
    assert_eq!(strip_docstrings(source), source);
    assert_eq!(strip_docstrings(""), "");
}

#[test]
fn comment_after_code_goes_with_the_blanks_before_it() {
    assert_eq!(strip_comments("x = 1  # set x\n    y = 2\t# set y\n"), "x = 1\n    y = 2\n");
    assert_eq!(strip_comments("x # c"), "x");
}

#[test]
fn line_with_a_comment_only_goes() {
    assert_eq!(strip_comments("# one\nx\n   # two\ny\n"), "x\ny\n");
    assert_eq!(strip_comments("# a\n# b\n"), "");
    assert_eq!(strip_comments("#"), "");
}

#[test]
fn line_without_comment_stays_as_it_is() {
    let source = "x = 1   \n\n\ty\r\nz";
    assert_eq!(strip_comments(source), source);
    assert_eq!(strip_comments(""), "");
    assert_eq!(strip_comments("\n"), "\n");
}

#[test]
fn hash_in_a_short_string_is_no_comment() {
    let source = "a = \"x # y\"\nb = 'x # y'\nc = 'it\\'s # here'\nd = \"say \\\"# hi\\\"\"\ne = '#' + \"#\"\n";
    assert_eq!(strip_comments(source), source);
    assert_eq!(strip_comments("a = \"x # y\"  # real\n"), "a = \"x # y\"\n");
    assert_eq!(strip_comments("a = '\"' # \"\n"), "a = '\"'\n");
}

#[test]
fn hash_in_a_long_string_is_no_comment() {
    let source = "t = \"\"\"a # b\"\"\"\nu = '''\n# inside\n  # inside too\n''' + \"\"\"# x\"\"\"\n";
    assert_eq!(strip_comments(source), source);
    assert_eq!(
        strip_comments("t = \"\"\"a\n# in\n\"\"\" # out\n# gone\ny\n"),
        "t = \"\"\"a\n# in\n\"\"\"\ny\n"
    );
}

#[test]
fn short_string_ends_with_its_line() {
    assert_eq!(strip_comments("a = 'open\n# comment\n"), "a = 'open\n");
    assert_eq!(strip_comments("a = 'open\\\n# comment\n"), "a = 'open\\\n");
}

#[test]
fn interpreter_line_stays_only_at_the_top() {
    assert_eq!(strip_comments("#!/usr/bin/env python3\n#!/not/first\nx\n"), "#!/usr/bin/env python3\nx\n");
    assert_eq!(strip_comments("x\n#!/usr/bin/env python3\n"), "x\n");
}

#[test]
fn script_metadata_block_stays() {
    let block = "# /// script\n# requires-python = \">=3.11\"\n# dependencies = [\n#   \"requests\",\n# ]\n# ///\n";
    assert_eq!(strip_comments(block), block);
    let source = format!("#!/x\n{}# gone\nx = 1 # y\n", block);
    assert_eq!(strip_comments(&source), format!("#!/x\n{}x = 1\n", block));
    assert_eq!(strip_comments("# /// script\n# a\nb # c\n"), "# /// script\n# a\nb # c\n");
    assert_eq!(strip_comments("'''\n# /// script\n'''\n# x\n"), "'''\n# /// script\n'''\n");
}

#[test]
fn blank_lines_go() {
    assert_eq!(strip_blank_lines("a\n\n  \n\t\r\nb\n"), "a\nb\n");
    assert_eq!(strip_blank_lines("a\n\nb"), "a\nb");
    assert_eq!(strip_blank_lines("\n\na"), "a");
    assert_eq!(strip_blank_lines("  a  \n"), "  a  \n");
}

#[test]
fn nothing_but_blank_lines_leaves_nothing() {
    assert_eq!(strip_blank_lines("\n\n"), "");
    assert_eq!(strip_blank_lines(" \n\t"), "");
    assert_eq!(strip_blank_lines(""), "");
}

#[test]
fn final_line_feed_is_as_in_the_input() {
    assert_eq!(strip_blank_lines("a\n\n"), "a\n");
    assert_eq!(strip_blank_lines("a\n "), "a");
    assert_eq!(strip_comments("a\n#b"), "a");
    assert_eq!(strip_comments("a\n#b\n"), "a\n");
}

#[test]
fn imports_are_sorted_and_kept_once() {
    assert_eq!(
        post_process_imports("import b\nx = 1\n    import a\nimport b\ny = 2\nimport a\n"),
        "import a\nimport b\nx = 1\ny = 2\n"
    );
    assert_eq!(post_process_imports("import os"), "import os\n\n");
    assert_eq!(post_process_imports("import B\nimport a\nimport _c\nimport A.b\n"), "import A.b\nimport B\nimport _c\nimport a\n\n");
}

#[test]
fn text_without_imports_or_without_rest() {
    assert_eq!(post_process_imports("x\n"), "\nx\n");
    assert_eq!(post_process_imports(""), "\n\n");
    assert_eq!(post_process_imports("#!/bin/sh"), "#!/bin/sh\n\n\n\n");
}

#[test]
fn script_metadata_block_stays_at_the_head() {
    let source = "#!/x\n# /// script\n# requires-python = \">=3.8\"\n# ///\nimport b\nimport a\nx\n";
    assert_eq!(
        post_process_imports(source),
        "#!/x\n# /// script\n# requires-python = \">=3.8\"\n# ///\n\nimport a\nimport b\nx\n"
    );
    assert_eq!(
        post_process_imports("# /// script\n# ///\nx\n"),
        "# /// script\n# ///\n\n\nx\n"
    );
}

#[test]
fn ill_formed_metadata_block_is_ordinary_text() {
    assert_eq!(
        post_process_imports("# /// script\n# dep\nimport a\n"),
        "import a\n# /// script\n# dep\n"
    );
    assert_eq!(
        post_process_imports("# /// script\nx = 1\n# ///\nimport a\n"),
        "import a\n# /// script\nx = 1\n# ///\n"
    );
    assert_eq!(post_process_imports("# ///\nimport a\n"), "import a\n# ///\n");
    assert_eq!(
        post_process_imports("x\n# /// script\n# ///\nimport a\n"),
        "import a\nx\n# /// script\n# ///\n"
    );
}

#[test]
fn import_lines_of_other_languages_stay_in_place() {
    let source = "import React from 'react'\nimport {a} from 'b'\nimport 'x'\nimport os, sys\nimport numpy as np\nfrom . import x\nfrom typing import (\n    List,\n)\nimport a.b  # why\nimported = 1\nfrom x import\nfrom 1x import y\nimport 1x\nimport a as\nimport a \\\n";
    assert_eq!(
        post_process_imports(source),
        "from . import x\nimport a.b  # why\nimport numpy as np\nimport os, sys\nimport React from 'react'\nimport {a} from 'b'\nimport 'x'\nfrom typing import (\n    List,\n)\nimported = 1\nfrom x import\nfrom 1x import y\nimport 1x\nimport a as\nimport a \\\n"
    );
}

#[test]
fn release_pipeline_on_a_text() {
    let source = "#!/x\nimport b  # why\n\"\"\"Doc.\"\"\"\nimport a\n\nX = \"\"\"kept # here\"\"\"  # gone\n";
    assert_eq!(post_process(source), "#!/x\nimport a\nimport b\nX = \"\"\"kept # here\"\"\"\n");
}

#[test]
fn release_run_end_to_end() {
    let mut fs = VirtualFileSystem::new();
    fs.mkdir_p("/proj/mylib").unwrap();
    fs.write(
        "/proj/main.py",
        "#!/usr/bin/env python3\n\"\"\"Module doc.\"\"\"\nimport sys  # system\nfrom mylib.util import helper\n\n# a comment\ndef main():\n    helper()  # call\n\nmain()\n",
    )
    .unwrap();
    fs.write(
        "/proj/mylib/util.py",
        "\"\"\"Util doc.\"\"\"\nimport os\n\ndef helper():\n    pass\n",
    )
    .unwrap();
    let opt = Opt {
        input_file: "/proj/main.py".to_string(),
        output_file: "/proj/out.py".to_string(),
        module_names: "mylib".to_string(),
        release: true,
    };
    run(opt, &mut fs, &Vec::new()).unwrap();
    let out = fs.read_to_string("/proj/out.py").unwrap();
    assert_eq!(
        out,
        "#!/usr/bin/env python3\nimport os\nimport sys\ndef helper():\n    pass\ndef main():\n    helper()\nmain()\n"
    );
    assert!(!out.contains("\"\"\""));
    assert!(!out.contains("\n\n"));
    assert!(!out.contains("mylib"));
    assert_eq!(out.matches('#').count(), 1);
}

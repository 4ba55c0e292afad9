use python_inliner::consolidate::post_process_imports;
use python_inliner::fs::FileSystem;
use python_inliner::run::{run, Opt};
use python_inliner::vfs::VirtualFileSystem;

const MAIN_PY_CONTENT: &str = r#"#!/usr/bin/env python3
from modules.module1 import func1

def main():
    from modules.module1 import func2
    print('Hello')

if __name__ == '__main__':
    main()
"#;

const MODULE1_PY_CONTENT: &str = r#"def func1():
    print('Function 1')
"#;

const INLINED_CONTENT: &str = r#"#!/usr/bin/env python3
# ↓↓↓ inlined submodule: modules.module1
def func1():
    print('Function 1')

# ↑↑↑ inlined submodule: modules.module1

def main():
    # →→ modules.module1 ←← already inlined
    print('Hello')

if __name__ == '__main__':
    main()
"#;

#[test]
fn test_inline_imports_simple() {
    let mut mock_fs = VirtualFileSystem::new();
    mock_fs.mkdir_p("/test/modules").unwrap();
    mock_fs.write("/test/main.py", MAIN_PY_CONTENT).unwrap();
    mock_fs.write("/test/modules/module1.py", MODULE1_PY_CONTENT).unwrap();

    let opt = Opt {
        input_file: "/test/main.py".to_string(),
        output_file: "/test/main_inlined.py".to_string(),
        module_names: "".to_string(),
        release: false,
    };
    let mut python_sys_path = Vec::new();
    python_sys_path.push("/test/modules".to_string());
    run(opt, &mut mock_fs, &python_sys_path).unwrap();

    let result = mock_fs.read_to_string("/test/main_inlined.py").unwrap();
    assert_eq!(result, INLINED_CONTENT);
}

#[test]
fn test_post_process_imports() {
    let input = r#"#!/usr/bin/env python3
import sys
from os import path

def main():
    print('Hello')

import re

if __name__ == '__main__':
    main()
"#;

    let expected = r#"#!/usr/bin/env python3

from os import path
import re
import sys

def main():
    print('Hello')


if __name__ == '__main__':
    main()
"#;

    assert_eq!(post_process_imports(input), expected);
}

#[test]
fn test_virtual_filesystem() {
    let mut fs = VirtualFileSystem::new();
    fs.mkdir_p("/test").unwrap();
    fs.mkdir_p("/test/dir1").unwrap();
    fs.mkdir_p("/test/dir2").unwrap();
    fs.write("/test/file1", "Hello").unwrap();
    fs.write("/test/dir1/file2", "World").unwrap();
    fs.write("/test/dir2/file3", "!").unwrap();

    assert_eq!(fs.read_to_string("/test/file1").unwrap(), "Hello");
    assert_eq!(fs.read_to_string("/test/dir1/file2").unwrap(), "World");
    assert_eq!(fs.read_to_string("/test/dir2/file3").unwrap(), "!");
}

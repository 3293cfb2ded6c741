use grimp::errors::GrimpError;
use grimp::filesystem::{
    decode_source, decoded_text, detect_encoding, lines_of, parse_indented_file_system_string,
    join_path_components, pick_declaration, split_parts, split_path, FakeBasicFileSystem,
    FileSystem,
    FileSystemContents,
};

fn paths_of(description: &str) -> Vec<String> {
    let mut paths = parse_indented_file_system_string(description).paths();
    paths.sort();
    paths
}

fn strings(items: &[&str]) -> Vec<String> {
    items.iter().map(|s| s.to_string()).collect()
}

fn chars(s: &str) -> Vec<char> {
    s.chars().collect()
}

#[test]
fn contents_map_paths_to_texts() {
    let mut contents = FileSystemContents::new();
    assert!(!contents.contains_key("a"));
    contents.insert("a".to_string(), "one".to_string());
    contents.insert("b".to_string(), "two".to_string());
    contents.insert("a".to_string(), "three".to_string());
    assert_eq!(contents.paths().len(), 2);
    assert_eq!(contents.get("a"), Some(&"three".to_string()));
    assert_eq!(contents.get("b"), Some(&"two".to_string()));
    assert_eq!(contents.get("c"), None);
    assert_eq!(contents.paths(), strings(&["a", "b"]));
    contents.insert_trimmed("c".to_string(), "  \n x y \t\n");
    assert_eq!(contents.get("c"), Some(&"x y".to_string()));
}

#[test]
fn indented_description_lays_out_files() {
    let description = "/path/to/mypackage/\n    __init__.py\n    foo/\n        __init__.py\n        one.py\n        two/\n            green.py\n    bar.py\n";
    assert_eq!(
        paths_of(description),
        strings(&[
            "/path/to/mypackage/__init__.py",
            "/path/to/mypackage/bar.py",
            "/path/to/mypackage/foo/__init__.py",
            "/path/to/mypackage/foo/one.py",
            "/path/to/mypackage/foo/two/green.py",
        ])
    );
    let contents = parse_indented_file_system_string(description);
    assert_eq!(contents.get("/path/to/mypackage/foo/one.py"), Some(&String::new()));
}

#[test]
fn indented_description_edge_cases() {
    assert_eq!(paths_of(""), strings(&[]));
    assert_eq!(paths_of("\n   \n"), strings(&[]));
    assert_eq!(paths_of("myfile.txt"), strings(&["myfile.txt"]));
    // Blank lines and white space at the end of lines do not count, and
    // carriage returns before line feeds are dropped.
    assert_eq!(
        paths_of("root/  \r\n\r\n    a.py\t\r\n    sub/\r\n        b.py"),
        strings(&["root/a.py", "root/sub/b.py"])
    );
    // Directories have no entry of their own.
    assert_eq!(paths_of("root/\n    sub/"), strings(&[]));
    assert_eq!(paths_of("/root/"), strings(&[]));
    assert_eq!(
        paths_of("/path/to/mypackage/\n    foo/\n        one.py\n    bar.py"),
        strings(&["/path/to/mypackage/bar.py", "/path/to/mypackage/foo/one.py"])
    );
    // A rooted description roots what falls back to depth zero.
    assert_eq!(paths_of("/root/\n    a.py\nb.py"), strings(&["/b.py", "/root/a.py"]));
    assert_eq!(paths_of("root/\n    a.py\nb.py"), strings(&["b.py", "root/a.py"]));
    // A line of slashes only adds no component.
    assert_eq!(paths_of("root/\n    /\n    a.py"), strings(&["root/a.py"]));
    assert_eq!(paths_of("/\n    a.py"), strings(&["/a.py"]));
    // Depth is counted in fours of leading spaces.
    assert_eq!(
        paths_of("root/\n    sub/\n      a.py\n       b.py\n   c.py"),
        strings(&["c.py", "root/a.py", "root/b.py"])
    );
}

#[test]
fn fake_file_system_from_description_and_texts() {
    let file_system = FakeBasicFileSystem::new(
        Some("/pkg/\n    __init__.py\n    a.py"),
        Some(vec![
            ("/pkg/a.py".to_string(), "\n    import os\n    if x:\n        import sys\n   ".to_string()),
            ("/pkg/new.py".to_string(), "  x = 1  ".to_string()),
        ]),
    );
    assert!(file_system.file_exists("/pkg/__init__.py"));
    assert!(file_system.file_exists("/pkg/new.py"));
    assert!(!file_system.file_exists("/pkg/b.py"));
    assert!(!file_system.file_exists("/pkg/"));
    assert_eq!(file_system.read("/pkg/__init__.py"), Ok(String::new()));
    assert_eq!(file_system.read("/pkg/a.py"), Ok("import os\nif x:\n    import sys".to_string()));
    assert_eq!(file_system.read("/pkg/new.py"), Ok("x = 1".to_string()));
    assert_eq!(
        file_system.read("/pkg/b.py"),
        Err(GrimpError::FileNotFound("/pkg/b.py".to_string()))
    );
    let empty = FakeBasicFileSystem::new(None, None);
    assert!(!empty.file_exists(""));
    let mut contents = FileSystemContents::new();
    contents.insert("x".to_string(), "y".to_string());
    assert_eq!(FakeBasicFileSystem::from_contents(contents).read("x"), Ok("y".to_string()));
}

#[test]
fn fake_file_system_joins_and_splits() {
    let file_system = FakeBasicFileSystem::new(None, None);
    assert_eq!(file_system.sep(), "/");
    assert_eq!(file_system.join(strings(&["/path/to", "pkg", "a.py"])), "/path/to/pkg/a.py");
    assert_eq!(file_system.join(strings(&["/path/to//", "pkg/", "a.py"])), "/path/to/pkg/a.py");
    assert_eq!(file_system.join(strings(&["a"])), "a");
    assert_eq!(file_system.join(strings(&[])), "");
    assert_eq!(file_system.join(strings(&["", "a"])), "/a");
    assert_eq!(
        file_system.split("/path/to/pkg/__init__.py"),
        ("/path/to/pkg".to_string(), "__init__.py".to_string())
    );
    assert_eq!(file_system.split("/path/to/pkg/"), ("/path/to/pkg".to_string(), String::new()));
    assert_eq!(file_system.split("a.py"), (String::new(), "a.py".to_string()));
    assert_eq!(file_system.split(""), (String::new(), String::new()));
    assert_eq!(file_system.split("/"), (String::new(), String::new()));
}

#[test]
fn split_from_parent_and_name() {
    assert_eq!(
        split_parts("a/b", Some("p".to_string()), Some("n".to_string())),
        ("p".to_string(), "n".to_string())
    );
    assert_eq!(split_parts("a/b", None, None), (String::new(), String::new()));
    assert_eq!(
        split_parts("a/b/", Some("p".to_string()), Some("n".to_string())),
        ("a/b".to_string(), String::new())
    );
    assert_eq!(split_parts("a//", None, None), ("a/".to_string(), String::new()));
}

#[test]
fn fake_file_system_writes() {
    let mut file_system = FakeBasicFileSystem::new(Some("a.txt"), None);
    assert_eq!(file_system.write("b.txt", "new"), Ok(()));
    assert_eq!(file_system.write("a.txt", "changed"), Ok(()));
    assert_eq!(file_system.read("a.txt"), Ok("changed".to_string()));
    assert_eq!(file_system.read("b.txt"), Ok("new".to_string()));
}

#[test]
fn lines_of_a_text() {
    let lines = |text: &str| -> Vec<String> {
        lines_of(&chars(text)).into_iter().map(|l| l.into_iter().collect()).collect()
    };
    assert_eq!(lines("a\nb\r\nc"), strings(&["a", "b", "c"]));
    assert_eq!(lines("a\n"), strings(&["a"]));
    assert_eq!(lines("a\n\n"), strings(&["a", ""]));
    assert_eq!(lines(""), strings(&[]));
    assert_eq!(lines("\n"), strings(&[""]));
    assert_eq!(lines("a\r"), strings(&["a\r"]));
    assert_eq!(lines("a\r\r\nb"), strings(&["a\r", "b"]));
    for text in ["x\ny\r\n\r\nz\r", "\r\n", "one", "\n\na"] {
        let expected: Vec<String> = text.lines().map(|l| l.to_string()).collect();
        assert_eq!(lines(text), expected);
    }
}

#[test]
fn encoding_declarations_are_found_on_the_first_two_lines() {
    let declared = |text: &str| detect_encoding(&text.as_bytes().to_vec());
    assert_eq!(declared("# -*- coding: latin-1 -*-\nimport os\n"), Some("latin-1".to_string()));
    assert_eq!(declared("#!/usr/bin/python\n# vim: set fileencoding=utf-8 :\n"), Some("utf-8".to_string()));
    assert_eq!(declared("  \t# coding=iso_8859-1.x\n"), Some("iso_8859-1.x".to_string()));
    assert_eq!(declared("\n\n# coding: latin-1\n"), None);
    assert_eq!(declared("import os  # coding: latin-1\n"), None);
    assert_eq!(declared("# coding: utf-8\n# coding: latin-1\n"), Some("utf-8".to_string()));
    assert_eq!(declared("# encoding\r\n# coding: cp1252\r\n"), Some("cp1252".to_string()));
    assert_eq!(declared(""), None);
    assert_eq!(detect_encoding(&b"# coding: latin1 \xff\n".to_vec()), Some("latin1".to_string()));
    assert_eq!(pick_declaration(None, Some("b".to_string())), Some("b".to_string()));
    assert_eq!(pick_declaration(Some("a".to_string()), Some("b".to_string())), Some("a".to_string()));
    assert_eq!(pick_declaration(None, None), None);
}

#[test]
fn sources_are_decoded() {
    assert_eq!(decode_source("x = '\u{e9}'\n".as_bytes().to_vec(), "a.py"), Ok("x = '\u{e9}'\n".to_string()));
    assert_eq!(decode_source(Vec::new(), "a.py"), Ok(String::new()));
    assert_eq!(
        decode_source(b"# coding: iso-8859-1\nx = '\xe9'\n".to_vec(), "a.py"),
        Ok("# coding: iso-8859-1\nx = '\u{e9}'\n".to_string())
    );
    assert_eq!(
        decode_source(b"x = '\xe9'\n".to_vec(), "a.py"),
        Err(GrimpError::DecodeError("a.py".to_string(), "invalid UTF-8".to_string()))
    );
    assert_eq!(
        decode_source(b"# coding: utf-8\nx = '\xe9'\n".to_vec(), "a.py"),
        Err(GrimpError::DecodeError("a.py".to_string(), "malformed text in encoding utf-8".to_string()))
    );
    assert_eq!(
        decode_source(b"# coding: klingon\nx = 1\n".to_vec(), "a.py"),
        Err(GrimpError::DecodeError("a.py".to_string(), "unknown encoding klingon".to_string()))
    );
    // UTF-16 with a byte order mark, declared as something else.
    let mut utf16 = vec![0xff, 0xfe];
    for unit in "# coding: utf-16\nx".encode_utf16() {
        utf16.extend_from_slice(&unit.to_le_bytes());
    }
    assert!(decode_source(utf16, "a.py").is_err());
}

#[test]
fn decodings_become_texts_or_failures() {
    assert_eq!(decoded_text("f", "l", Some(("text".to_string(), false))), Ok("text".to_string()));
    assert_eq!(
        decoded_text("f", "l", Some(("text".to_string(), true))),
        Err(GrimpError::DecodeError("f".to_string(), "malformed text in encoding l".to_string()))
    );
    assert_eq!(
        decoded_text("f", "l", None),
        Err(GrimpError::DecodeError("f".to_string(), "unknown encoding l".to_string()))
    );
}

#[test]
fn paths_are_split_into_parent_and_name() {
    assert_eq!(split_path("/path/to/file.py"), ("/path/to".to_string(), "file.py".to_string()));
    assert_eq!(split_path("file.py"), (String::new(), "file.py".to_string()));
    assert_eq!(split_path("dir/sub/"), ("dir".to_string(), "sub".to_string()));
    assert_eq!(split_path("/"), (String::new(), String::new()));
    assert_eq!(split_path(""), (String::new(), String::new()));
    assert_eq!(split_path("a/.."), ("a".to_string(), String::new()));
}

#[test]
fn paths_are_joined_as_the_host_joins_them() {
    let join = |items: &[&str]| join_path_components(&strings(items));
    let sep = std::path::MAIN_SEPARATOR;
    assert_eq!(join(&[]), "");
    assert_eq!(join(&["a"]), "a");
    assert_eq!(join(&["a", "b", "c.py"]), format!("a{sep}b{sep}c.py"));
    assert_eq!(join(&["a/", "b"]), format!("a/b"));
    assert_eq!(join(&["a", "/b", "c"]), format!("/b{sep}c"));
}

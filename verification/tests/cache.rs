use grimp::caching::{
    document_from, import_of_row, imports_from_rows, imports_of_rows, parse_json_to_map,
    read_cache_data_map_file, serialize_imports_by_module, triples_from,
    write_cache_data_map_file, Cell,
};
use grimp::errors::GrimpError;
use grimp::filesystem::{FakeBasicFileSystem, FileSystem};
use grimp::import_scanning::{DirectImport, ImportsByModule};
use grimp::module_finding::Module;

fn import(importer: &str, imported: &str, line_number: usize, line_contents: &str) -> DirectImport {
    DirectImport::new(
        importer.to_string(),
        imported.to_string(),
        line_number,
        line_contents.to_string(),
    )
}

fn sample() -> ImportsByModule {
    ImportsByModule::new()
        .with_module(
            Module::new("pkg.a".to_string()),
            vec![
                import("pkg.a", "pkg.b", 1, "from . import b"),
                import("pkg.a", "os", 2, "import os  # \"quoted\" \\ and \u{e9}\t"),
            ],
        )
        .with_module(Module::new("pkg.b".to_string()), vec![])
        .with_module(Module::new("pkg".to_string()), vec![import("pkg", "pkg.a", 7, "")])
}

fn same_imports(left: &ImportsByModule, right: &ImportsByModule) -> bool {
    let covers = |a: &ImportsByModule, b: &ImportsByModule| {
        a.entries().iter().all(|(module, imports)| match b.get(&module.name) {
            Some(others) => imports.iter().all(|i| others.contains(i)),
            None => false,
        })
    };
    left.len() == right.len() && covers(left, right) && covers(right, left)
}

#[test]
fn imports_by_module_is_a_map_of_sets() {
    let imports = sample();
    assert_eq!(imports.len(), 3);
    assert!(imports.contains_module("pkg.b"));
    assert!(!imports.contains_module("pkg.c"));
    assert_eq!(imports.get("pkg.b"), Some(&vec![]));
    assert_eq!(imports.get("pkg.c"), None);
    let replaced = imports.with_module(Module::new("pkg.a".to_string()), vec![]);
    assert_eq!(replaced.len(), 3);
    assert_eq!(replaced.get("pkg.a"), Some(&vec![]));
    assert_eq!(replaced.get("pkg").unwrap().len(), 1);
}

#[test]
fn cache_text_is_a_document_of_triples() {
    let imports = ImportsByModule::new()
        .with_module(Module::new("b".to_string()), vec![])
        .with_module(Module::new("a".to_string()), vec![import("a", "b", 1, "import b")]);
    assert_eq!(serialize_imports_by_module(&imports), r#"{"a":[["b",1,"import b"]],"b":[]}"#);
    assert_eq!(serialize_imports_by_module(&ImportsByModule::new()), "{}");
}

#[test]
fn cache_document_holds_each_triple_once() {
    let twice = vec![
        import("a", "b", 1, "import b"),
        import("other", "b", 1, "import b"),
        import("a", "b", 2, "import b"),
    ];
    assert_eq!(
        triples_from(&twice),
        vec![
            ("b".to_string(), 1, "import b".to_string()),
            ("b".to_string(), 2, "import b".to_string())
        ]
    );
    let document = document_from(&sample());
    let keys: Vec<&str> = document.iter().map(|entry| entry.0.as_str()).collect();
    assert_eq!(keys, vec!["pkg.a", "pkg.b", "pkg"]);
    assert_eq!(document[0].1.len(), 2);
    assert_eq!(document[2].1, vec![("pkg.a".to_string(), 7, "".to_string())]);
}

#[test]
fn cache_round_trip() {
    let imports = sample();
    let text = serialize_imports_by_module(&imports);
    let read = parse_json_to_map(&text, "cache.json").unwrap();
    assert!(same_imports(&imports, &read));
    assert_eq!(read.get("pkg").unwrap(), &vec![import("pkg", "pkg.a", 7, "")]);
    let empty = parse_json_to_map(&serialize_imports_by_module(&ImportsByModule::new()), "c").unwrap();
    assert_eq!(empty.len(), 0);
}

#[test]
fn cache_round_trip_through_a_file_system() {
    let mut file_system = FakeBasicFileSystem::new(None, None);
    let imports = sample();
    assert_eq!(write_cache_data_map_file("/cache/imports.json", &imports, &mut file_system), Ok(()));
    assert!(file_system.file_exists("/cache/imports.json"));
    let read = read_cache_data_map_file("/cache/imports.json", &file_system).unwrap();
    assert!(same_imports(&imports, &read));
    // Writing again overwrites.
    let fewer = ImportsByModule::new().with_module(Module::new("x".to_string()), vec![]);
    assert_eq!(write_cache_data_map_file("/cache/imports.json", &fewer, &mut file_system), Ok(()));
    let read = read_cache_data_map_file("/cache/imports.json", &file_system).unwrap();
    assert!(same_imports(&fewer, &read));
    assert_eq!(
        read_cache_data_map_file("/cache/missing.json", &file_system).err(),
        Some(GrimpError::FileNotFound("/cache/missing.json".to_string()))
    );
}

#[test]
fn importers_are_restored_from_the_keys() {
    let text = r#"{"pkg.a": [["pkg.b", 3, "from . import b"], ["os", 1, "import os"]], "pkg.b": []}"#;
    let read = parse_json_to_map(text, "cache.json").unwrap();
    assert_eq!(read.len(), 2);
    for (module, imports) in read.entries() {
        for import in imports {
            assert_eq!(import.importer, module.name);
        }
    }
    assert_eq!(
        read.get("pkg.a").unwrap(),
        &vec![import("pkg.a", "pkg.b", 3, "from . import b"), import("pkg.a", "os", 1, "import os")]
    );
    assert_eq!(read.get("pkg.b"), Some(&vec![]));
}

#[test]
fn cache_corruption() {
    let corrupt = Err(GrimpError::CorruptCache("cache.json".to_string()));
    for text in [
        "",
        "not a document",
        "{\"a\": [[\"b\", 1, \"import b\"]",
        "[]",
        "{\"a\": 3}",
        "{\"a\": [3]}",
        "{\"a\": [[\"b\", 1]]}",
        "{\"a\": [[\"b\", \"1\", \"import b\"]]}",
        "{\"a\": [[\"b\", -1, \"import b\"]]}",
        "{\"a\": [[\"b\", 1.5, \"import b\"]]}",
        "{\"a\": [[1, 1, \"import b\"]]}",
        "{\"a\": [[\"b\", 1, null]]}",
        "{\"a\": [], \"b\": [[]]}",
    ] {
        assert_eq!(parse_json_to_map(text, "cache.json").map(|m| m.len()), corrupt.clone());
    }
    let mut file_system = FakeBasicFileSystem::new(None, None);
    file_system.write("/cache.json", "\u{0}\u{1} garbage").unwrap();
    assert_eq!(
        read_cache_data_map_file("/cache.json", &file_system).err(),
        Some(GrimpError::CorruptCache("/cache.json".to_string()))
    );
}

#[test]
fn rows_may_hold_more_than_a_triple() {
    let text = r#"{"a": [["b", 1, "import b", "extra", {"more": [1, 2]}]], "later": []}"#;
    let read = parse_json_to_map(text, "cache.json").unwrap();
    assert_eq!(read.get("a").unwrap(), &vec![import("a", "b", 1, "import b")]);
    assert_eq!(read.get("later"), Some(&vec![]));
}

#[test]
fn last_of_equal_keys_and_one_of_equal_rows_count() {
    let text = r#"{"a": [["b", 1, "x"]], "a": [["c", 2, "y"], ["c", 2, "y"]]}"#;
    let read = parse_json_to_map(text, "cache.json").unwrap();
    assert_eq!(read.len(), 1);
    assert_eq!(read.get("a").unwrap(), &vec![import("a", "c", 2, "y")]);
}

#[test]
fn rows_stand_for_imports() {
    let module = "m".to_string();
    let row = vec![Cell::Text("x".to_string()), Cell::Number(Some(4)), Cell::Text("import x".to_string())];
    assert_eq!(import_of_row(&module, &row), Some(import("m", "x", 4, "import x")));
    let zero = vec![Cell::Text("x".to_string()), Cell::Number(Some(0)), Cell::Text("".to_string())];
    assert_eq!(import_of_row(&module, &zero), Some(import("m", "x", 0, "")));
    let short = vec![Cell::Text("x".to_string()), Cell::Number(Some(4))];
    assert_eq!(import_of_row(&module, &short), None);
    let no_number = vec![Cell::Text("x".to_string()), Cell::Number(None), Cell::Text("".to_string())];
    assert_eq!(import_of_row(&module, &no_number), None);
    let other = vec![Cell::Other, Cell::Number(Some(1)), Cell::Text("".to_string())];
    assert_eq!(import_of_row(&module, &other), None);
    assert_eq!(imports_of_rows(&module, &vec![row.clone(), row.clone(), zero.clone()]).unwrap().len(), 2);
    assert_eq!(imports_of_rows(&module, &vec![row.clone(), short]), None);
    assert_eq!(imports_of_rows(&module, &vec![]), Some(vec![]));
    let document = vec![("m".to_string(), vec![row]), ("n".to_string(), vec![other])];
    assert_eq!(
        imports_from_rows(&document, "f").map(|m| m.len()),
        Err(GrimpError::CorruptCache("f".to_string()))
    );
}

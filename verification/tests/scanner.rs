use grimp::errors::GrimpError;
use grimp::filesystem::{FakeBasicFileSystem, FileSystem};
use grimp::import_scanning::{
    _determine_module_filename, _lookup_found_package_for_module, _module_is_package,
    choose_module_file, filename_root_components, is_init_file, scan_for_imports_no_py,
    scan_for_imports_no_py_single_module, DirectImport, ImportParser, ListedImports,
    ParsedImport,
};
use grimp::module_finding::{FoundPackage, Module, ModuleFile};

/// Reads one import from each line of the form `import NAME` or
/// `typing NAME`.
struct LineParser;

impl ImportParser for LineParser {
    fn parse_imports_from_code(
        &self,
        module_contents: &str,
        module_filename: &str,
    ) -> Result<Vec<ParsedImport>, GrimpError> {
        let mut imports = Vec::new();
        for (index, line) in module_contents.lines().enumerate() {
            let words: Vec<&str> = line.split_whitespace().collect();
            match words.as_slice() {
                [] => {}
                ["import", name] | ["typing", name] => imports.push(ParsedImport {
                    name: name.to_string(),
                    line_number: index + 1,
                    line_contents: line.to_string(),
                    typechecking_only: words[0] == "typing",
                }),
                _ => {
                    return Err(GrimpError::ParseError(
                        module_filename.to_string(),
                        format!("line {}", index + 1),
                    ))
                }
            }
        }
        Ok(imports)
    }
}

fn module(name: &str) -> Module {
    Module::new(name.to_string())
}

fn package(name: &str, directory: &str, modules: &[&str]) -> FoundPackage {
    FoundPackage {
        name: name.to_string(),
        directory: directory.to_string(),
        module_files: modules
            .iter()
            .map(|m| ModuleFile { module: module(m), filename: String::new() })
            .collect(),
    }
}

fn file_system() -> FakeBasicFileSystem {
    FakeBasicFileSystem::new(
        Some("/src/pkg/\n    __init__.py\n    sub.py\n    helper.py\n    deep/\n        __init__.py\n        leaf.py\n    broken.py"),
        Some(vec![
            ("/src/pkg/__init__.py".to_string(), "import .sub.thing\nimport .missing".to_string()),
            ("/src/pkg/sub.py".to_string(), "import .helper\nimport os.path\ntyping json.decoder".to_string()),
            ("/src/pkg/deep/__init__.py".to_string(), "import ..helper\nimport .leaf".to_string()),
            ("/src/pkg/deep/leaf.py".to_string(), "import ..sub\nimport pkg".to_string()),
            ("/src/pkg/broken.py".to_string(), "this is no import".to_string()),
        ]),
    )
}

fn packages() -> Vec<FoundPackage> {
    vec![package(
        "pkg",
        "/src/pkg",
        &["pkg", "pkg.sub", "pkg.helper", "pkg.deep", "pkg.deep.leaf", "pkg.broken", "pkg.lost"],
    )]
}

fn import(importer: &str, imported: &str, line_number: usize, line_contents: &str) -> DirectImport {
    DirectImport::new(
        importer.to_string(),
        imported.to_string(),
        line_number,
        line_contents.to_string(),
    )
}

#[test]
fn owner_is_the_first_package_that_lists_the_module() {
    let found = vec![
        package("a", "/a", &["a", "a.x"]),
        package("b", "/b", &["b", "a.x"]),
    ];
    assert_eq!(_lookup_found_package_for_module(&module("a.x"), &found).map(|p| p.name.as_str()), Some("a"));
    assert_eq!(_lookup_found_package_for_module(&module("b"), &found).map(|p| p.name.as_str()), Some("b"));
    assert_eq!(_lookup_found_package_for_module(&module("c"), &found), None);
}

#[test]
fn module_file_names() {
    let found = package("pkg", "/src/pkg", &[]);
    assert_eq!(filename_root_components(&module("pkg"), &found), vec!["/src/pkg"]);
    assert_eq!(filename_root_components(&module("pkg.deep.leaf"), &found), vec!["/src/pkg", "deep", "leaf"]);
    let namespaced = package("ns.pkg", "/src/ns/pkg", &[]);
    assert_eq!(filename_root_components(&module("ns.pkg.a"), &namespaced), vec!["/src/ns/pkg", "a"]);
    assert_eq!(filename_root_components(&module("ns"), &namespaced), vec!["/src/ns/pkg"]);

    let files = file_system();
    assert_eq!(_determine_module_filename(&module("pkg.sub"), &found, &files), Ok("/src/pkg/sub.py".to_string()));
    assert_eq!(_determine_module_filename(&module("pkg"), &found, &files), Ok("/src/pkg/__init__.py".to_string()));
    assert_eq!(
        _determine_module_filename(&module("pkg.deep"), &found, &files),
        Ok("/src/pkg/deep/__init__.py".to_string())
    );
    assert_eq!(
        _determine_module_filename(&module("pkg.lost"), &found, &files),
        Err(GrimpError::ModuleFileNotFound("pkg.lost".to_string()))
    );
    // The plain file wins over the package's.
    let both = FakeBasicFileSystem::new(Some("/src/pkg/\n    a.py\n    a/\n        __init__.py"), None);
    assert_eq!(_determine_module_filename(&module("pkg.a"), &found, &both), Ok("/src/pkg/a.py".to_string()));
}

#[test]
fn packages_are_known_by_their_file() {
    let files = file_system();
    assert!(_module_is_package("/src/pkg/__init__.py", &files));
    assert!(!_module_is_package("/src/pkg/sub.py", &files));
    assert!(!_module_is_package("/src/pkg/__init__.py/", &files));
    assert!(is_init_file("__init__.py"));
    assert!(!is_init_file("__init__.pyc"));
    assert!(!is_init_file(""));
}

#[test]
fn a_module_is_scanned() {
    let files = file_system();
    let found = packages();
    let modules: Vec<Module> = found[0].module_files.iter().map(|f| f.module.clone()).collect();
    let scan = |name: &str, external: bool, no_typing: bool| {
        scan_for_imports_no_py_single_module(
            &module(name),
            &files,
            &LineParser,
            &found,
            &modules,
            external,
            no_typing,
        )
    };
    assert_eq!(
        scan("pkg.sub", false, false),
        Ok(vec![import("pkg.sub", "pkg.helper", 1, "import .helper")])
    );
    assert_eq!(
        scan("pkg.sub", true, false),
        Ok(vec![
            import("pkg.sub", "pkg.helper", 1, "import .helper"),
            import("pkg.sub", "os", 2, "import os.path"),
            import("pkg.sub", "json", 3, "typing json.decoder"),
        ])
    );
    assert_eq!(scan("pkg.sub", true, true).map(|imports| imports.len()), Ok(2));
    // In a package one dot stands for the package itself.
    assert_eq!(
        scan("pkg", false, false),
        Ok(vec![
            import("pkg", "pkg.sub", 1, "import .sub.thing"),
            import("pkg", "pkg", 2, "import .missing"),
        ])
    );
    assert_eq!(
        scan("pkg.deep", false, false),
        Ok(vec![
            import("pkg.deep", "pkg.helper", 1, "import ..helper"),
            import("pkg.deep", "pkg.deep.leaf", 2, "import .leaf"),
        ])
    );
    assert_eq!(
        scan("pkg.deep.leaf", false, false),
        Ok(vec![
            import("pkg.deep.leaf", "pkg.sub", 1, "import ..sub"),
            import("pkg.deep.leaf", "pkg", 2, "import pkg"),
        ])
    );
    assert_eq!(scan("pkg.helper", true, true), Ok(vec![]));
    assert_eq!(scan("other", false, false), Err(GrimpError::MissingOwner("other".to_string())));
    assert_eq!(scan("pkg.lost", false, false), Err(GrimpError::ModuleFileNotFound("pkg.lost".to_string())));
    assert_eq!(
        scan("pkg.broken", false, false),
        Err(GrimpError::ParseError("/src/pkg/broken.py".to_string(), "line 1".to_string()))
    );
}

#[test]
fn modules_are_scanned() {
    let files = file_system();
    let found = packages();
    let modules = vec![module("pkg.sub"), module("pkg.helper"), module("pkg.deep")];
    let scanned = scan_for_imports_no_py(&files, &LineParser, &found, true, &modules, true).unwrap();
    assert_eq!(scanned.len(), 3);
    assert_eq!(scanned.get("pkg.helper"), Some(&vec![]));
    assert_eq!(
        scanned.get("pkg.sub"),
        Some(&vec![
            import("pkg.sub", "pkg.helper", 1, "import .helper"),
            import("pkg.sub", "os", 2, "import os.path"),
        ])
    );
    for (module, imports) in scanned.entries() {
        assert!(imports.iter().all(|i| i.importer == module.name));
    }
    assert_eq!(scanned.get("pkg"), None);
    let none = scan_for_imports_no_py(&files, &LineParser, &found, true, &vec![], true).unwrap();
    assert_eq!(none.len(), 0);
}

#[test]
fn scanning_fails_on_the_first_failure() {
    let files = file_system();
    let found = packages();
    let with_lost = vec![module("pkg.sub"), module("pkg.lost"), module("pkg.broken")];
    assert_eq!(
        scan_for_imports_no_py(&files, &LineParser, &found, false, &with_lost, false).map(|m| m.len()),
        Err(GrimpError::ModuleFileNotFound("pkg.lost".to_string()))
    );
    let with_stranger = vec![module("stranger"), module("pkg.sub")];
    assert_eq!(
        scan_for_imports_no_py(&files, &LineParser, &found, false, &with_stranger, false).map(|m| m.len()),
        Err(GrimpError::MissingOwner("stranger".to_string()))
    );
    let climbing = FakeBasicFileSystem::new(
        Some("/src/pkg/\n    sub.py"),
        Some(vec![("/src/pkg/sub.py".to_string(), "import ...x".to_string())]),
    );
    assert_eq!(
        scan_for_imports_no_py(&climbing, &LineParser, &found, false, &vec![module("pkg.sub")], false)
            .map(|m| m.len()),
        Err(GrimpError::InvariantViolation("...x".to_string()))
    );
}

#[test]
fn the_plain_file_is_chosen_before_the_package_file() {
    let choose = |normal_exists: bool, init_exists: bool| {
        choose_module_file(
            &module("pkg.a"),
            "a.py".to_string(),
            normal_exists,
            "a/__init__.py".to_string(),
            init_exists,
        )
    };
    assert_eq!(choose(true, true), Ok("a.py".to_string()));
    assert_eq!(choose(true, false), Ok("a.py".to_string()));
    assert_eq!(choose(false, true), Ok("a/__init__.py".to_string()));
    assert_eq!(choose(false, false), Err(GrimpError::ModuleFileNotFound("pkg.a".to_string())));
}

#[test]
fn listed_imports_answer_by_file_name() {
    let parsed = |name: &str, line_number: usize| ParsedImport {
        name: name.to_string(),
        line_number,
        line_contents: format!("import {}", name),
        typechecking_only: false,
    };
    let parser = ListedImports {
        listed: vec![
            ("/src/pkg/sub.py".to_string(), vec![parsed(".helper", 4), parsed("os", 9)]),
            ("/src/pkg/helper.py".to_string(), vec![]),
            ("/src/pkg/sub.py".to_string(), vec![parsed("late", 1)]),
        ],
    };
    assert_eq!(
        parser.parse_imports_from_code("whatever", "/src/pkg/sub.py"),
        Ok(vec![parsed(".helper", 4), parsed("os", 9)])
    );
    assert_eq!(parser.parse_imports_from_code("", "/src/pkg/helper.py"), Ok(vec![]));
    assert_eq!(
        parser.parse_imports_from_code("", "/src/pkg/deep/leaf.py"),
        Err(GrimpError::ParseError(
            "/src/pkg/deep/leaf.py".to_string(),
            "no imports listed".to_string()
        ))
    );
    let files = file_system();
    let found = packages();
    let modules = vec![module("pkg.sub"), module("pkg.helper")];
    let scanned = scan_for_imports_no_py(&files, &parser, &found, true, &modules, false).unwrap();
    assert_eq!(
        scanned.get("pkg.sub"),
        Some(&vec![
            import("pkg.sub", "pkg.helper", 4, "import .helper"),
            import("pkg.sub", "os", 9, "import os"),
        ])
    );
    assert_eq!(scanned.get("pkg.helper"), Some(&vec![]));
    let with_leaf = vec![module("pkg.sub"), module("pkg.deep.leaf"), module("pkg.lost")];
    assert_eq!(
        scan_for_imports_no_py(&files, &parser, &found, true, &with_leaf, false).map(|m| m.len()),
        Err(GrimpError::ParseError(
            "/src/pkg/deep/leaf.py".to_string(),
            "no imports listed".to_string()
        ))
    );
}

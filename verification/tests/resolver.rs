use grimp::errors::GrimpError;
use grimp::import_scanning::{
    _distill_external_module, _get_absolute_imported_object_name, _get_internal_module,
    count_leading_dots, import_stays_within, module_is_descendant, resolve_imports, DirectImport,
    ParsedImport,
};
use grimp::module_finding::{
    get_modules_from_found_packages, holds_module, FoundPackage, Module, ModuleFile,
};

fn module(name: &str) -> Module {
    Module::new(name.to_string())
}

fn package(name: &str, modules: &[&str]) -> FoundPackage {
    FoundPackage {
        name: name.to_string(),
        directory: format!("/src/{}", name.replace('.', "/")),
        module_files: modules
            .iter()
            .map(|m| ModuleFile { module: module(m), filename: format!("/src/{}.py", m) })
            .collect(),
    }
}

fn parsed(name: &str, line_number: usize, typechecking_only: bool) -> ParsedImport {
    ParsedImport {
        name: name.to_string(),
        line_number,
        line_contents: format!("import {}", name),
        typechecking_only,
    }
}

fn chars(s: &str) -> Vec<char> {
    s.chars().collect()
}

#[test]
fn leading_dots_are_counted() {
    assert_eq!(count_leading_dots(&chars("")), 0);
    assert_eq!(count_leading_dots(&chars("a.b")), 0);
    assert_eq!(count_leading_dots(&chars(".a")), 1);
    assert_eq!(count_leading_dots(&chars("...a.b")), 3);
    assert_eq!(count_leading_dots(&chars("..")), 2);
}

#[test]
fn descendants_lie_strictly_below() {
    assert!(module_is_descendant(&chars("a.b"), &chars("a")));
    assert!(module_is_descendant(&chars("a.b.c"), &chars("a")));
    assert!(!module_is_descendant(&chars("a"), &chars("a")));
    assert!(!module_is_descendant(&chars("ab.c"), &chars("a")));
    assert!(!module_is_descendant(&chars("a"), &chars("a.b")));
}

#[test]
fn absolute_name_is_unchanged() {
    let name = _get_absolute_imported_object_name(&module("pkg.sub"), false, "other.thing");
    assert_eq!(name, "other.thing");
}

#[test]
fn relative_import_in_a_package() {
    // `from . import helper` in the module pkg.sub, which is no package.
    let name = _get_absolute_imported_object_name(&module("pkg.sub"), false, ".helper");
    assert_eq!(name, "pkg.helper");
    let found = resolve_imports(
        &module("pkg.sub"),
        false,
        &vec![ParsedImport {
            name: ".helper".to_string(),
            line_number: 3,
            line_contents: "from . import helper".to_string(),
            typechecking_only: false,
        }],
        &vec![package("pkg", &["pkg", "pkg.sub", "pkg.helper"])],
        &vec![module("pkg"), module("pkg.sub"), module("pkg.helper")],
        false,
        false,
    );
    assert_eq!(
        found,
        Ok(vec![DirectImport::new(
            "pkg.sub".to_string(),
            "pkg.helper".to_string(),
            3,
            "from . import helper".to_string(),
        )])
    );
}

#[test]
fn relative_from_inside_init() {
    // `from .child import x` in the package pkg.
    let name = _get_absolute_imported_object_name(&module("pkg"), true, ".child.x");
    assert_eq!(name, "pkg.child.x");
    let with_child = vec![module("pkg"), module("pkg.child")];
    assert_eq!(_get_internal_module(&name, &with_child), Some(module("pkg.child")));
    // Without the child the object is taken to be defined in pkg itself
    // only where pkg is what precedes the last dot.
    let direct = _get_absolute_imported_object_name(&module("pkg"), true, ".x");
    assert_eq!(direct, "pkg.x");
    let without_child = vec![module("pkg")];
    assert_eq!(_get_internal_module(&direct, &without_child), Some(module("pkg")));
    assert_eq!(_get_internal_module(&name, &without_child), None);
}

#[test]
fn relative_imports_climb() {
    let deep = module("a.b.c.d");
    assert_eq!(_get_absolute_imported_object_name(&deep, false, ".x"), "a.b.c.x");
    assert_eq!(_get_absolute_imported_object_name(&deep, false, "..x"), "a.b.x");
    assert_eq!(_get_absolute_imported_object_name(&deep, false, "...x.y"), "a.x.y");
    assert_eq!(_get_absolute_imported_object_name(&deep, true, ".x"), "a.b.c.d.x");
    assert_eq!(_get_absolute_imported_object_name(&deep, true, "..x"), "a.b.c.x");
    assert_eq!(_get_absolute_imported_object_name(&deep, true, "...x"), "a.b.x");
    assert_eq!(_get_absolute_imported_object_name(&deep, false, "....x"), ".x");
}

#[test]
fn climbing_is_bounded_by_depth() {
    assert!(import_stays_within(&module("a.b"), "x"));
    assert!(import_stays_within(&module("a.b"), ".x"));
    assert!(import_stays_within(&module("a.b"), "..x"));
    assert!(!import_stays_within(&module("a.b"), "...x"));
}

#[test]
fn internal_module_by_name_or_parent() {
    let modules = vec![module("a"), module("a.b")];
    assert_eq!(_get_internal_module(&"a.b".to_string(), &modules), Some(module("a.b")));
    assert_eq!(_get_internal_module(&"a.b.f".to_string(), &modules), Some(module("a.b")));
    assert_eq!(_get_internal_module(&"a.c".to_string(), &modules), Some(module("a")));
    assert_eq!(_get_internal_module(&"a.c.d".to_string(), &modules), None);
    assert_eq!(_get_internal_module(&"b".to_string(), &modules), None);
    assert_eq!(_get_internal_module(&"".to_string(), &modules), None);
}

#[test]
fn external_distillation() {
    let beta = vec![package("foo.blue.beta", &["foo.blue.beta"])];
    assert_eq!(
        _distill_external_module(&"foo.blue.alpha.one".to_string(), &beta),
        Some("foo.blue.alpha".to_string())
    );
    let green = vec![package("foo.green", &["foo.green"])];
    assert_eq!(
        _distill_external_module(&"foo.blue.alpha.one".to_string(), &green),
        Some("foo.blue".to_string())
    );
}

#[test]
fn namespace_parent_suppression() {
    let packages = vec![package("mylib.sub", &["mylib.sub"])];
    assert_eq!(_distill_external_module(&"mylib".to_string(), &packages), None);
}

#[test]
fn distillation_without_shared_namespace() {
    let packages = vec![package("mypackage", &["mypackage"])];
    assert_eq!(
        _distill_external_module(&"django.db.models".to_string(), &packages),
        Some("django".to_string())
    );
    assert_eq!(_distill_external_module(&"os".to_string(), &vec![]), Some("os".to_string()));
}

#[test]
fn distillation_takes_the_deepest_share() {
    let packages = vec![
        package("foo.green", &["foo.green"]),
        package("foo.blue.beta", &["foo.blue.beta"]),
        package("bar", &["bar"]),
    ];
    assert_eq!(
        _distill_external_module(&"foo.blue.alpha.one".to_string(), &packages),
        Some("foo.blue.alpha".to_string())
    );
    let reversed: Vec<FoundPackage> = packages.into_iter().rev().collect();
    assert_eq!(
        _distill_external_module(&"foo.blue.alpha.one".to_string(), &reversed),
        Some("foo.blue.alpha".to_string())
    );
}

#[test]
fn distillation_below_a_package() {
    let packages = vec![package("foo.blue", &["foo.blue"])];
    assert_eq!(
        _distill_external_module(&"foo.blue.alpha.one".to_string(), &packages),
        Some("foo.blue.alpha".to_string())
    );
    assert_eq!(
        _distill_external_module(&"foo.blue".to_string(), &packages),
        Some("foo.blue".to_string())
    );
}

#[test]
fn distillation_is_idempotent() {
    let packages = vec![
        package("foo.green", &["foo.green"]),
        package("foo.blue.beta", &["foo.blue.beta"]),
    ];
    for name in ["foo.blue.alpha.one", "foo.red.x", "other.thing", "foo.blue.beta.deep.er"] {
        let once = _distill_external_module(&name.to_string(), &packages).unwrap();
        assert_eq!(_distill_external_module(&once, &packages), Some(once.clone()));
    }
    // A distilled name above a package is not recorded.
    let above = vec![package("foo.green", &["foo.green"]), package("foo.blue.x", &["foo.blue.x"])];
    let once = _distill_external_module(&"foo.blue.alpha".to_string(), &above).unwrap();
    assert_eq!(once, "foo.blue.alpha");
    let wide = vec![package("foo.green", &["foo.green"])];
    let blue = _distill_external_module(&"foo.blue.alpha".to_string(), &wide).unwrap();
    assert_eq!(blue, "foo.blue");
    assert_eq!(_distill_external_module(&blue, &above), None);
}

#[test]
fn modules_of_found_packages() {
    let packages = vec![
        package("a", &["a", "a.b", "a.c"]),
        package("d", &["d", "a.b"]),
    ];
    let modules = get_modules_from_found_packages(&packages);
    assert_eq!(modules.len(), 4);
    for name in ["a", "a.b", "a.c", "d"] {
        assert!(holds_module(&modules, &name.to_string()));
    }
    assert!(!holds_module(&modules, &"e".to_string()));
    assert!(get_modules_from_found_packages(&vec![]).is_empty());
}

#[test]
fn resolving_tells_internal_from_external() {
    let packages = vec![package("pkg", &["pkg", "pkg.a", "pkg.b"])];
    let modules = get_modules_from_found_packages(&packages);
    let imports = vec![
        parsed("pkg.b", 1, false),
        parsed("pkg.b.thing", 2, false),
        parsed("os.path", 3, false),
        parsed("typing", 4, true),
        parsed(".b", 5, false),
    ];
    let internal_only =
        resolve_imports(&module("pkg.a"), false, &imports, &packages, &modules, false, false)
            .unwrap();
    let imported: Vec<(&str, usize)> =
        internal_only.iter().map(|i| (i.imported.as_str(), i.line_number)).collect();
    assert_eq!(imported, vec![("pkg.b", 1), ("pkg.b", 2), ("pkg.b", 5)]);
    assert!(internal_only.iter().all(|i| i.importer == "pkg.a"));

    let with_external =
        resolve_imports(&module("pkg.a"), false, &imports, &packages, &modules, true, false)
            .unwrap();
    let imported: Vec<(&str, usize)> =
        with_external.iter().map(|i| (i.imported.as_str(), i.line_number)).collect();
    assert_eq!(
        imported,
        vec![("pkg.b", 1), ("pkg.b", 2), ("os", 3), ("typing", 4), ("pkg.b", 5)]
    );

    let without_type_checking =
        resolve_imports(&module("pkg.a"), false, &imports, &packages, &modules, true, true)
            .unwrap();
    assert_eq!(without_type_checking.len(), 4);
    assert!(without_type_checking.iter().all(|i| i.imported != "typing"));
}

#[test]
fn resolving_keeps_each_import_once() {
    let packages = vec![package("pkg", &["pkg", "pkg.a", "pkg.b"])];
    let modules = get_modules_from_found_packages(&packages);
    let twice = vec![
        ParsedImport {
            name: "pkg.b".to_string(),
            line_number: 1,
            line_contents: "from pkg import b".to_string(),
            typechecking_only: false,
        },
        ParsedImport {
            name: "pkg.b.x".to_string(),
            line_number: 1,
            line_contents: "from pkg import b".to_string(),
            typechecking_only: false,
        },
    ];
    let found =
        resolve_imports(&module("pkg.a"), false, &twice, &packages, &modules, false, false).unwrap();
    assert_eq!(found.len(), 1);
}

#[test]
fn resolving_refuses_to_climb_out() {
    let packages = vec![package("pkg", &["pkg", "pkg.a"])];
    let modules = get_modules_from_found_packages(&packages);
    let imports = vec![parsed("pkg", 1, false), parsed("...x", 2, false)];
    let found =
        resolve_imports(&module("pkg.a"), false, &imports, &packages, &modules, false, false);
    assert_eq!(found, Err(GrimpError::InvariantViolation("...x".to_string())));
    // Passed over, the import does no harm.
    let skipped = vec![parsed("...x", 2, true)];
    let found =
        resolve_imports(&module("pkg.a"), false, &skipped, &packages, &modules, false, true);
    assert_eq!(found, Ok(vec![]));
}

#[test]
fn external_parent_namespace_is_dropped() {
    let packages = vec![package("mylib.sub", &["mylib.sub", "mylib.sub.a"])];
    let modules = get_modules_from_found_packages(&packages);
    let imports = vec![parsed("mylib", 1, false), parsed("mylib.other", 2, false)];
    let found =
        resolve_imports(&module("mylib.sub.a"), false, &imports, &packages, &modules, true, false)
            .unwrap();
    let imported: Vec<&str> = found.iter().map(|i| i.imported.as_str()).collect();
    assert_eq!(imported, vec!["mylib.other"]);
}

use grimp::errors::GrimpError;
use grimp::graph::pathfinding::{find_reach, find_shortest_path};
use grimp::graph::{Graph, ModuleToken};
use grimp::import_scanning::{DirectImport, ImportsByModule};
use grimp::module_finding::Module;
use rustc_hash::{FxHashMap, FxHashSet};

fn set(tokens: &[ModuleToken]) -> FxHashSet<ModuleToken> {
    tokens.iter().copied().collect()
}

fn graph_of(names: &[&str], edges: &[(&str, &str)]) -> Graph {
    let mut graph = Graph::new();
    for name in names {
        graph.add_module(name);
    }
    for (importer, imported) in edges {
        let u = graph.get_module_by_name(importer).unwrap();
        let v = graph.get_module_by_name(imported).unwrap();
        graph.add_import(u, v).unwrap();
    }
    graph
}

fn token(graph: &Graph, name: &str) -> ModuleToken {
    graph.get_module_by_name(name).unwrap()
}

fn names(graph: &Graph, chain: &[ModuleToken]) -> Vec<String> {
    chain.iter().map(|t| graph.get_module_name(*t).unwrap().clone()).collect()
}

#[test]
fn modules_are_interned_densely() {
    let mut graph = Graph::new();
    assert_eq!(graph.module_count(), 0);
    assert_eq!(graph.add_module("a"), 0);
    assert_eq!(graph.add_module("b"), 1);
    assert_eq!(graph.add_module("a"), 0);
    assert_eq!(graph.module_count(), 2);
    assert_eq!(graph.get_module_by_name("b"), Some(1));
    assert_eq!(graph.get_module_by_name("c"), None);
    assert_eq!(graph.get_module_name(1), Some(&"b".to_string()));
    assert_eq!(graph.get_module_name(2), None);
}

#[test]
fn imports_are_held_in_both_directions() {
    let graph = graph_of(&["a", "b", "c"], &[("a", "b"), ("a", "c"), ("c", "b"), ("a", "b")]);
    let count = graph.module_count();
    for u in 0..count {
        for v in 0..count {
            assert_eq!(
                graph.imports()[u].contains(&v),
                graph.reverse_imports()[v].contains(&u)
            );
            assert_eq!(graph.direct_import_exists(u, v), graph.imports()[u].contains(&v));
        }
    }
    assert_eq!(graph.imports()[0], set(&[1, 2]));
    assert_eq!(graph.reverse_imports()[1], set(&[0, 2]));
    assert!(graph.direct_import_exists(0, 1));
    assert!(!graph.direct_import_exists(1, 0));
    assert!(!graph.direct_import_exists(7, 0));
}

#[test]
fn imports_between_unknown_tokens_are_refused() {
    let mut graph = graph_of(&["a", "b"], &[]);
    assert!(matches!(graph.add_import(0, 2), Err(GrimpError::InvariantViolation(_))));
    assert!(matches!(graph.add_import(5, 1), Err(GrimpError::InvariantViolation(_))));
    assert!(graph.imports()[0].is_empty());
    assert_eq!(graph.add_import(0, 1), Ok(()));
    assert_eq!(graph.add_import(0, 1), Ok(()));
    assert_eq!(graph.imports()[0].len(), 1);
}

#[test]
fn descendants_are_found_by_name() {
    let graph = graph_of(&["pkg", "pkg.a", "pkg.a.x", "pkgs", "other", "pkg.b"], &[]);
    let all = graph.with_descendants(&set(&[token(&graph, "pkg")]));
    assert_eq!(
        all,
        set(&[
            token(&graph, "pkg"),
            token(&graph, "pkg.a"),
            token(&graph, "pkg.a.x"),
            token(&graph, "pkg.b")
        ])
    );
    let leaf = graph.with_descendants(&set(&[token(&graph, "other"), token(&graph, "pkg.a")]));
    assert_eq!(
        leaf,
        set(&[token(&graph, "other"), token(&graph, "pkg.a"), token(&graph, "pkg.a.x")])
    );
    assert_eq!(graph.with_descendants(&set(&[])), set(&[]));
    assert_eq!(graph.with_descendants(&set(&[99])), set(&[99]));
}

#[test]
fn reach_leaves_out_the_seeds() {
    // a -> b -> c -> a, c -> d
    let graph = graph_of(&["a", "b", "c", "d", "e"], &[("a", "b"), ("b", "c"), ("c", "a"), ("c", "d")]);
    let adjacency = graph.imports();
    assert_eq!(find_reach(adjacency, &set(&[0])), set(&[1, 2, 3]));
    assert_eq!(find_reach(adjacency, &set(&[3])), set(&[]));
    assert_eq!(find_reach(adjacency, &set(&[4])), set(&[]));
    assert_eq!(find_reach(adjacency, &set(&[])), set(&[]));
    // A seed that another seed reaches is kept.
    assert_eq!(find_reach(adjacency, &set(&[0, 1])), set(&[0, 1, 2, 3]));
    assert_eq!(find_reach(adjacency, &set(&[2, 3])), set(&[0, 1, 3]));
    assert_eq!(find_reach(adjacency, &set(&[0, 4])), set(&[1, 2, 3]));
    // Unknown seeds reach nothing.
    assert_eq!(find_reach(adjacency, &set(&[17])), set(&[]));
}

#[test]
fn reach_grows_with_the_seeds() {
    let graph = graph_of(
        &["a", "b", "c", "d", "e", "f"],
        &[("a", "b"), ("b", "c"), ("c", "a"), ("d", "e"), ("e", "b"), ("f", "f")],
    );
    let adjacency = graph.imports();
    let count = graph.module_count();
    for small in 0u32..(1 << count) {
        for extra in 0..count {
            let fewer: Vec<ModuleToken> = (0..count).filter(|t| small & (1 << t) != 0).collect();
            let mut more = fewer.clone();
            more.push(extra);
            let reached_fewer = find_reach(adjacency, &set(&fewer));
            let reached_more = find_reach(adjacency, &set(&more));
            assert!(reached_fewer.is_subset(&reached_more));
        }
    }
}

#[test]
fn upstream_and_downstream() {
    let graph = graph_of(
        &["pkg", "pkg.a", "pkg.b", "lib", "app"],
        &[("app", "pkg.a"), ("pkg.a", "pkg.b"), ("pkg.b", "lib"), ("pkg", "lib")],
    );
    let t = |name: &str| token(&graph, name);
    assert_eq!(graph.find_upstream_modules(t("app"), false), set(&[t("pkg.a"), t("pkg.b"), t("lib")]));
    assert_eq!(graph.find_downstream_modules(t("lib"), false), set(&[t("pkg"), t("pkg.b"), t("pkg.a"), t("app")]));
    assert_eq!(graph.find_upstream_modules(t("pkg"), false), set(&[t("lib")]));
    assert_eq!(graph.find_upstream_modules(t("pkg"), true), set(&[t("lib"), t("pkg.b")]));
    assert_eq!(graph.find_downstream_modules(t("pkg"), true), set(&[t("app"), t("pkg.a")]));
    assert_eq!(graph.find_downstream_modules(t("pkg"), false), set(&[]));
}

#[test]
fn shortest_chain_is_shortest() {
    // a -> b -> c -> d and a -> e -> d
    let graph = graph_of(
        &["a", "b", "c", "d", "e"],
        &[("a", "b"), ("b", "c"), ("c", "d"), ("a", "e"), ("e", "d")],
    );
    let chain = graph.find_shortest_chain(0, 3, false).unwrap().unwrap();
    assert_eq!(names(&graph, &chain), vec!["a", "e", "d"]);
    assert_eq!(graph.find_shortest_chain(0, 2, false).unwrap().unwrap(), vec![0, 1, 2]);
    assert_eq!(graph.find_shortest_chain(3, 0, false), Ok(None));
    assert_eq!(graph.find_shortest_chain(0, 0, false), Ok(Some(vec![0])));
    assert_eq!(graph.chain_exists(0, 3, false), Ok(true));
    assert_eq!(graph.chain_exists(3, 0, false), Ok(false));
}

#[test]
fn every_step_of_a_chain_is_an_import() {
    let graph = graph_of(
        &["a", "b", "c", "d", "e", "f"],
        &[("a", "b"), ("b", "c"), ("c", "a"), ("c", "d"), ("d", "e"), ("b", "e"), ("e", "f")],
    );
    for from in 0..6 {
        for to in 0..6 {
            if let Some(chain) = graph.find_shortest_chain(from, to, false).unwrap() {
                assert_eq!(chain[0], from);
                assert_eq!(*chain.last().unwrap(), to);
                for pair in chain.windows(2) {
                    assert!(graph.direct_import_exists(pair[0], pair[1]));
                }
            }
        }
    }
    assert_eq!(graph.find_shortest_chain(0, 5, false).unwrap().unwrap().len(), 4);
}

#[test]
fn shortest_chain_on_a_cycle_ends() {
    let graph = graph_of(&["a", "b", "c", "d"], &[("a", "b"), ("b", "c"), ("c", "a")]);
    assert_eq!(graph.find_shortest_chain(0, 3, false), Ok(None));
    assert_eq!(graph.find_shortest_chain(1, 0, false), Ok(Some(vec![1, 2, 0])));
}

#[test]
fn shortest_chain_between_unknown_tokens_fails() {
    let graph = graph_of(&["a", "b"], &[("a", "b")]);
    assert!(matches!(graph.find_shortest_chain(0, 2, false), Err(GrimpError::InvariantViolation(_))));
    assert!(matches!(graph.find_shortest_chain(9, 1, true), Err(GrimpError::InvariantViolation(_))));
    assert!(matches!(graph.chain_exists(0, 2, false), Err(GrimpError::InvariantViolation(_))));
    assert!(matches!(graph.find_shortest_chains(0, 2, false), Err(GrimpError::InvariantViolation(_))));
}

#[test]
fn shortest_chain_as_packages() {
    let graph = graph_of(
        &["blue", "blue.one", "green", "green.two", "mid"],
        &[("blue.one", "mid"), ("mid", "green.two")],
    );
    let t = |name: &str| token(&graph, name);
    assert_eq!(graph.find_shortest_chain(t("blue"), t("green"), false), Ok(None));
    assert_eq!(
        graph.find_shortest_chain(t("blue"), t("green"), true),
        Ok(Some(vec![t("blue.one"), t("mid"), t("green.two")]))
    );
    assert_eq!(graph.chain_exists(t("blue"), t("green"), true), Ok(true));
    assert_eq!(graph.chain_exists(t("green"), t("blue"), true), Ok(false));
}

#[test]
fn excluded_modules_and_imports_are_avoided() {
    // a -> b -> d, a -> c -> d, a -> d
    let graph = graph_of(
        &["a", "b", "c", "d"],
        &[("a", "b"), ("b", "d"), ("a", "c"), ("c", "d"), ("a", "d")],
    );
    let none = set(&[]);
    let mut cut: FxHashMap<ModuleToken, FxHashSet<ModuleToken>> = FxHashMap::default();
    let direct = graph
        .find_shortest_chain_with_excluded_modules_and_imports(&set(&[0]), &set(&[3]), &none, &cut)
        .unwrap();
    assert_eq!(direct, Some(vec![0, 3]));
    cut.insert(0, set(&[3]));
    let around = find_shortest_path(&graph, &set(&[0]), &set(&[3]), &set(&[1]), &cut).unwrap();
    assert_eq!(around, Some(vec![0, 2, 3]));
    let blocked = find_shortest_path(&graph, &set(&[0]), &set(&[3]), &set(&[1, 2]), &cut).unwrap();
    assert_eq!(blocked, None);
    let excluded_end = find_shortest_path(&graph, &set(&[0]), &set(&[3]), &set(&[3]), &cut).unwrap();
    assert_eq!(excluded_end, None);
    let excluded_start =
        find_shortest_path(&graph, &set(&[0]), &set(&[3]), &set(&[0]), &FxHashMap::default())
            .unwrap();
    assert_eq!(excluded_start, None);
    cut.insert(7, set(&[8]));
    let several = find_shortest_path(&graph, &set(&[1, 2]), &set(&[3]), &none, &cut).unwrap().unwrap();
    assert_eq!(several.len(), 2);
    assert_eq!(several[1], 3);
}

#[test]
fn all_shortest_chains() {
    let graph = graph_of(&["A", "B", "C", "D"], &[("A", "B"), ("B", "D"), ("A", "C"), ("C", "D")]);
    let chains = graph.find_shortest_chains(0, 3, false).unwrap();
    assert_eq!(chains.len(), 2);
    assert!(chains.iter().all(|chain| chain.len() == 3));
    let mut found: Vec<Vec<String>> = chains.iter().map(|chain| names(&graph, chain)).collect();
    found.sort();
    assert_eq!(found, vec![vec!["A", "B", "D"], vec!["A", "C", "D"]]);
}

#[test]
fn peeling_shares_no_import() {
    // Two chains share the import c -> d: only one of them is peeled
    // before the import is excluded.
    let graph = graph_of(
        &["a", "b", "c", "d", "e"],
        &[("a", "b"), ("b", "c"), ("a", "e"), ("e", "c"), ("c", "d")],
    );
    let chains = graph.find_shortest_chains(0, 3, false).unwrap();
    assert_eq!(chains.len(), 1);
    assert_eq!(chains[0].len(), 4);
    assert_eq!(graph.find_shortest_chains(3, 0, false), Ok(vec![]));
}

#[test]
fn peeling_ends_on_cycles() {
    let graph = graph_of(
        &["a", "b", "c", "d"],
        &[("a", "b"), ("b", "a"), ("b", "c"), ("c", "b"), ("c", "d"), ("a", "d"), ("d", "a")],
    );
    let chains = graph.find_shortest_chains(0, 3, false).unwrap();
    assert_eq!(chains, vec![vec![0, 3], vec![0, 1, 2, 3]]);
    let back = graph.find_shortest_chains(3, 2, false).unwrap();
    assert_eq!(back, vec![vec![3, 0, 1, 2]]);
}

#[test]
fn peeling_from_a_module_to_itself_fails() {
    let graph = graph_of(&["a", "a.b", "c"], &[("a", "c"), ("c", "a.b")]);
    assert!(matches!(graph.find_shortest_chains(0, 0, false), Err(GrimpError::InvariantViolation(_))));
    assert!(matches!(graph.find_shortest_chains(0, 1, true), Err(GrimpError::InvariantViolation(_))));
    assert_eq!(graph.find_shortest_chains(0, 1, false), Ok(vec![vec![0, 2, 1]]));
    let shared = graph._find_shortest_chains(&set(&[0, 2]), &set(&[2, 1]), &set(&[]));
    assert!(matches!(shared, Err(GrimpError::InvariantViolation(_))));
    let excluded = graph._find_shortest_chains(&set(&[0, 2]), &set(&[2, 1]), &set(&[2]));
    assert_eq!(excluded, Ok(vec![]));
}

#[test]
fn descendants_of_one_module() {
    let graph = graph_of(&["pkg", "pkg.a", "pkg.a.x", "pkgs", "other"], &[]);
    assert_eq!(graph.descendants(0), set(&[1, 2]));
    assert_eq!(graph.descendants(1), set(&[2]));
    assert_eq!(graph.descendants(3), set(&[]));
    assert_eq!(graph.descendants(9), set(&[]));
}

#[test]
fn scanned_imports_are_taken_into_the_graph() {
    let import = |importer: &str, imported: &str, line_number: usize| {
        DirectImport::new(importer.to_string(), imported.to_string(), line_number, String::new())
    };
    let imports = ImportsByModule::new()
        .with_module(
            Module::new("pkg.a".to_string()),
            vec![import("pkg.a", "pkg.b", 1), import("pkg.a", "os", 2), import("pkg.a", "pkg.b", 3)],
        )
        .with_module(Module::new("pkg.b".to_string()), vec![import("pkg.b", "os", 1)])
        .with_module(Module::new("pkg.c".to_string()), vec![]);
    let mut graph = graph_of(&["pkg", "pkg.b"], &[("pkg", "pkg.b")]);
    graph.add_imports_by_module(&imports);
    assert_eq!(graph.module_count(), 5);
    assert_eq!(graph.get_module_by_name("pkg"), Some(0));
    assert_eq!(graph.get_module_by_name("pkg.b"), Some(1));
    let t = |name: &str| token(&graph, name);
    let mut edges: Vec<(String, String)> = Vec::new();
    for u in 0..graph.module_count() {
        for v in 0..graph.module_count() {
            if graph.direct_import_exists(u, v) {
                edges.push((names(&graph, &[u])[0].clone(), names(&graph, &[v])[0].clone()));
            }
        }
    }
    edges.sort();
    let expected: Vec<(String, String)> =
        [("pkg", "pkg.b"), ("pkg.a", "os"), ("pkg.a", "pkg.b"), ("pkg.b", "os")]
            .iter()
            .map(|(a, b)| (a.to_string(), b.to_string()))
            .collect();
    assert_eq!(edges, expected);
    assert_eq!(graph.find_upstream_modules(t("pkg"), false), set(&[t("pkg.b"), t("os")]));
    assert_eq!(graph.find_downstream_modules(t("os"), false), set(&[t("pkg"), t("pkg.a"), t("pkg.b")]));
    assert!(graph.imports()[t("pkg.c")].is_empty());

    let mut alone = Graph::new();
    let a = alone.add_module_imports(&Module::new("a".to_string()), &vec![import("a", "a", 1)]);
    assert_eq!(a, 0);
    assert_eq!(alone.module_count(), 1);
    assert!(alone.direct_import_exists(0, 0));
}

#[test]
fn peeling_finds_no_more_chains_than_imports() {
    // Every graph on four modules without self-imports, by its edges.
    let pairs: Vec<(usize, usize)> =
        (0..4).flat_map(|u| (0..4).filter(move |v| *v != u).map(move |v| (u, v))).collect();
    for chosen in 0u32..(1 << pairs.len()) {
        let mut graph = graph_of(&["a", "b", "c", "d"], &[]);
        let mut edges = 0;
        for (index, (u, v)) in pairs.iter().enumerate() {
            if chosen & (1 << index) != 0 {
                graph.add_import(*u, *v).unwrap();
                edges += 1;
            }
        }
        let chains = graph.find_shortest_chains(0, 3, false).unwrap();
        assert!(chains.len() <= edges);
        let mut seen: Vec<(usize, usize)> = Vec::new();
        let mut longest = 0;
        for chain in &chains {
            assert!(chain.len() >= longest);
            longest = chain.len();
            for pair in chain.windows(2) {
                assert!(graph.direct_import_exists(pair[0], pair[1]));
                assert!(!seen.contains(&(pair[0], pair[1])));
                seen.push((pair[0], pair[1]));
            }
        }
    }
}

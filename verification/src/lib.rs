//! Import-graph analysis for packages of dotted modules: resolving and
//! scanning imports, a cache codec for scan results, and reachability and
//! shortest-chain queries over the resulting directed graph.
pub mod caching;
pub mod errors;
pub mod filesystem;
pub mod graph;
pub mod import_scanning;
pub mod module_finding;
pub mod text;

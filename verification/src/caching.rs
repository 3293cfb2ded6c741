//! The cache of a scan: the imports of each module, as a document that
//! maps every module's name to a list of triples of imported name, line
//! number and line contents. The importer is not stored: it is the key.
use crate::errors::{GrimpError, GrimpErrorView};
use crate::filesystem::{read_from, FileSystem};
use crate::import_scanning::{
    distinct_modules, entries_imports, holds_import, import_set, importers_match,
    lemma_module_entries, DirectImport, DirectImportView, ImportsByModule,
};
use crate::module_finding::Module;
use serde_json::Value;
use std::collections::BTreeMap;
use vstd::prelude::*;

verus! {

/// One value of a row of a cache document, as far as it matters: a text,
/// a number (with its value if it is a natural number that fits 64 bits),
/// or anything else.
#[derive(Debug, Clone, PartialEq, Eq)]
pub enum Cell {
    Text(String),
    Number(Option<u64>),
    Other,
}

/// What a `Cell` stands for.
pub enum CellView {
    Text(Seq<char>),
    Number(Option<u64>),
    Other,
}

impl View for Cell {
    type V = CellView;

    open spec fn view(&self) -> CellView {
        match *self {
            Cell::Text(text) => CellView::Text(text@),
            Cell::Number(number) => CellView::Number(number),
            Cell::Other => CellView::Other,
        }
    }
}

/// The rows under one module of a parsed document.
pub type RowsView = Seq<Seq<CellView>>;

/// An imported name, a line number and the line's contents.
pub type TripleView = (Seq<char>, nat, Seq<char>);

/// What a parsed document holds.
pub open spec fn rows_view(document: Seq<(String, Vec<Vec<Cell>>)>) -> Seq<(Seq<char>, RowsView)> {
    document.map_values(
        |entry: (String, Vec<Vec<Cell>>)|
            (entry.0@, entry.1@.map_values(|row: Vec<Cell>| row@.map_values(|cell: Cell| cell@))),
    )
}

/// What a document to be written holds.
pub open spec fn document_view(document: Seq<(String, Vec<(String, usize, String)>)>) -> Seq<
    (Seq<char>, Seq<TripleView>),
> {
    document.map_values(
        |entry: (String, Vec<(String, usize, String)>)|
            (
                entry.0@,
                entry.1@.map_values(|triple: (String, usize, String)| (triple.0@, triple.1 as nat, triple.2@)),
            ),
    )
}

/// Whether no two entries of a document have the same key.
pub open spec fn distinct_keys(document: Seq<(Seq<char>, Seq<TripleView>)>) -> bool {
    forall|i: int, j: int|
        0 <= i < j < document.len() ==> (#[trigger] document[i]).0 != (#[trigger] document[j]).0
}

/// The rows that serde_json reads from a text as a JSON object whose
/// values are arrays of arrays, by key in ascending order; none if the
/// text is not such a document.
pub uninterp spec fn parsed_cache_rows(text: Seq<char>) -> Option<Seq<(Seq<char>, RowsView)>>;

/// The text that serde_json writes for a document: a JSON object with one
/// array of triples under each key.
pub uninterp spec fn rendered_cache_document(document: Seq<(Seq<char>, Seq<TripleView>)>) -> Seq<
    char,
>;

/// Reads the text with `serde_json::from_str` into a map from strings to
/// lists of lists of JSON values, and hands the map out entry by entry,
/// each value as a cell.
#[verifier::external_body]
fn parse_rows(json_str: &str) -> (document: Option<Vec<(String, Vec<Vec<Cell>>)>>)
    ensures
        match document {
            Some(rows) => parsed_cache_rows(json_str@) == Some(rows_view(rows@)),
            None => parsed_cache_rows(json_str@) is None,
        },
{
    let parsed: BTreeMap<String, Vec<Vec<Value>>> = serde_json::from_str(json_str).ok()?;
    let cell = |value: Value| match value {
        Value::String(text) => Cell::Text(text),
        Value::Number(number) => Cell::Number(number.as_u64()),
        Value::Null => Cell::Other,
        Value::Bool(_) => Cell::Other,
        Value::Array(_) => Cell::Other,
        Value::Object(_) => Cell::Other,
    };
    let row = |cells: Vec<Value>| cells.into_iter().map(cell).collect();
    Some(parsed.into_iter().map(|(k, rows)| (k, rows.into_iter().map(row).collect())).collect())
}

/// Writes the document with `serde_json::to_string`, as a map from its
/// keys to their lists of triples.
#[verifier::external_body]
fn render_document(document: &Vec<(String, Vec<(String, usize, String)>)>) -> (text: String)
    requires
        distinct_keys(document_view(document@)),
    ensures
        text@ == rendered_cache_document(document_view(document@)),
{
    let raw_map: BTreeMap<&str, &Vec<(String, usize, String)>> =
        document.iter().map(|entry| (entry.0.as_str(), &entry.1)).collect();
    serde_json::to_string(&raw_map).unwrap_or_default()
}

/// The import that a row under `module` stands for: its first three
/// values are the imported name, the line number and the line's contents,
/// and what follows them is passed over. None if the row is shorter or a
/// value is of another kind.
pub open spec fn row_import(module: Seq<char>, row: Seq<CellView>) -> Option<DirectImportView> {
    if row.len() >= 3 {
        match (row[0], row[1], row[2]) {
            (
                CellView::Text(imported),
                CellView::Number(Some(line_number)),
                CellView::Text(line_contents),
            ) => if line_number <= usize::MAX {
                Some(
                    DirectImportView {
                        importer: module,
                        imported,
                        line_number: line_number as nat,
                        line_contents,
                    },
                )
            } else {
                None
            },
            _ => None,
        }
    } else {
        None
    }
}

/// Whether every row stands for an import.
pub open spec fn rows_valid(module: Seq<char>, rows: RowsView) -> bool {
    forall|i: int| 0 <= i < rows.len() ==> row_import(module, #[trigger] rows[i]) is Some
}

/// The imports that the rows under `module` stand for.
pub open spec fn rows_imports(module: Seq<char>, rows: RowsView) -> Set<DirectImportView> {
    Set::new(
        |import: DirectImportView|
            exists|i: int| 0 <= i < rows.len() && row_import(module, #[trigger] rows[i]) == Some(import),
    )
}

/// Whether every row of the document stands for an import.
pub open spec fn document_valid(document: Seq<(Seq<char>, RowsView)>) -> bool {
    forall|i: int|
        0 <= i < document.len() ==> rows_valid((#[trigger] document[i]).0, document[i].1)
}

/// The imports by module that a document stands for. Where a key occurs
/// more than once, its last entry counts.
pub open spec fn document_imports(document: Seq<(Seq<char>, RowsView)>) -> Map<
    Seq<char>,
    Set<DirectImportView>,
>
    decreases document.len(),
{
    if document.len() == 0 {
        Map::empty()
    } else {
        document_imports(document.drop_last()).insert(
            document.last().0,
            rows_imports(document.last().0, document.last().1),
        )
    }
}

/// What reading a cache file gives, given the rows parsed from its text:
/// the imports that the rows stand for, or a failure that names the file
/// if the text is no document or a row stands for no import.
pub open spec fn cache_of_rows(document: Option<Seq<(Seq<char>, RowsView)>>, filename: Seq<char>) -> Result<
    Map<Seq<char>, Set<DirectImportView>>,
    GrimpErrorView,
> {
    match document {
        Some(rows) => if document_valid(rows) {
            Ok(document_imports(rows))
        } else {
            Err(GrimpErrorView::CorruptCache(filename))
        },
        None => Err(GrimpErrorView::CorruptCache(filename)),
    }
}

/// The view of imports by module or a failure.
pub open spec fn imports_result_view(result: Result<ImportsByModule, GrimpError>) -> Result<
    Map<Seq<char>, Set<DirectImportView>>,
    GrimpErrorView,
> {
    match result {
        Ok(imports) => Ok(imports@),
        Err(e) => Err(e@),
    }
}

/// In what a document stands for, every import is filed under the module
/// that issues it.
pub proof fn lemma_importers_restored(document: Seq<(Seq<char>, RowsView)>)
    ensures
        importers_match(document_imports(document)),
    decreases document.len(),
{
    if document.len() > 0 {
        lemma_importers_restored(document.drop_last());
        let key = document.last().0;
        let rows = document.last().1;
        assert forall|module: Seq<char>, import: DirectImportView|
            document_imports(document).contains_key(module) && #[trigger] document_imports(
                document,
            )[module].contains(import) implies import.importer == module by {
            if module == key {
                let i = choose|i: int|
                    0 <= i < rows.len() && row_import(key, #[trigger] rows[i]) == Some(import);
            } else {
                assert(document_imports(document.drop_last())[module].contains(import));
            }
        }
    }
}

/// The import that a row under `module` stands for, if it stands for one.
pub fn import_of_row(module: &String, row: &Vec<Cell>) -> (import: Option<DirectImport>)
    ensures
        match import {
            Some(i) => row_import(module@, row@.map_values(|cell: Cell| cell@)) == Some(i@),
            None => row_import(module@, row@.map_values(|cell: Cell| cell@)) is None,
        },
{
    if row.len() < 3 {
        return None;
    }
    match (&row[0], &row[1], &row[2]) {
        (Cell::Text(imported), Cell::Number(Some(line_number)), Cell::Text(line_contents)) => {
            if *line_number <= usize::MAX as u64 {
                Some(
                    DirectImport {
                        importer: module.clone(),
                        imported: imported.clone(),
                        line_number: *line_number as usize,
                        line_contents: line_contents.clone(),
                    },
                )
            } else {
                None
            }
        },
        _ => None,
    }
}

/// The imports that the rows under `module` stand for, each once; none if
/// a row stands for no import.
pub fn imports_of_rows(module: &String, rows: &Vec<Vec<Cell>>) -> (imports: Option<Vec<DirectImport>>)
    ensures
        match imports {
            Some(list) => {
                &&& rows_valid(module@, rows@.map_values(|row: Vec<Cell>| row@.map_values(|cell: Cell| cell@)))
                &&& import_set(list@) == rows_imports(
                    module@,
                    rows@.map_values(|row: Vec<Cell>| row@.map_values(|cell: Cell| cell@)),
                )
            },
            None => !rows_valid(
                module@,
                rows@.map_values(|row: Vec<Cell>| row@.map_values(|cell: Cell| cell@)),
            ),
        },
{
    let ghost all = rows@.map_values(|row: Vec<Cell>| row@.map_values(|cell: Cell| cell@));
    let mut imports: Vec<DirectImport> = Vec::new();
    let mut i: usize = 0;
    while i < rows.len()
        invariant
            i <= rows@.len(),
            all == rows@.map_values(|row: Vec<Cell>| row@.map_values(|cell: Cell| cell@)),
            forall|k: int| 0 <= k < i ==> row_import(module@, #[trigger] all[k]) is Some,
            forall|import: DirectImportView| #[trigger]
                import_set(imports@).contains(import) <==> exists|k: int|
                    0 <= k < i && row_import(module@, #[trigger] all[k]) == Some(import),
        decreases rows.len() - i,
    {
        assert(all[i as int] == rows@[i as int]@.map_values(|cell: Cell| cell@));
        let ghost before = imports@;
        match import_of_row(module, &rows[i]) {
            None => {
                return None;
            },
            Some(import) => {
                let ghost added = import@;
                if !holds_import(&imports, &import) {
                    imports.push(import);
                    assert(forall|k: int| 0 <= k < before.len() ==> imports@[k] == before[k]);
                    assert(imports@[before.len() as int].view() == added);
                }
                assert forall|d: DirectImportView| #[trigger]
                    import_set(imports@).contains(d) <==> exists|k: int|
                        0 <= k < i + 1 && row_import(module@, #[trigger] all[k]) == Some(d) by {
                    if import_set(before).contains(d) {
                        let w = choose|w: int| 0 <= w < before.len() && before[w].view() == d;
                        assert(imports@[w].view() == d);
                        let k = choose|k: int|
                            0 <= k < i && row_import(module@, #[trigger] all[k]) == Some(d);
                        assert(0 <= k < i + 1 && row_import(module@, all[k]) == Some(d));
                    }
                    if d == added {
                        assert(row_import(module@, all[i as int]) == Some(d));
                        assert(import_set(imports@).contains(d));
                    }
                    if import_set(imports@).contains(d) {
                        let w = choose|w: int| 0 <= w < imports@.len() && imports@[w].view() == d;
                        if w < before.len() {
                            assert(before[w].view() == d);
                        }
                    }
                }
            },
        }
        i = i + 1;
    }
    assert(import_set(imports@) =~= rows_imports(module@, all));
    Some(imports)
}

/// Rebuilds the imports by module from the rows of a cache document. The
/// importer of each import is the key that its row stands under.
pub fn imports_from_rows(document: &Vec<(String, Vec<Vec<Cell>>)>, filename: &str) -> (imports_by_module:
    Result<ImportsByModule, GrimpError>)
    ensures
        imports_result_view(imports_by_module) == cache_of_rows(
            Some(rows_view(document@)),
            filename@,
        ),
        imports_by_module matches Ok(imports) ==> importers_match(imports@),
{
    let ghost all = rows_view(document@);
    let mut parsed_map = ImportsByModule::new();
    let mut i: usize = 0;
    assert(all.take(0) =~= Seq::<(Seq<char>, RowsView)>::empty());
    while i < document.len()
        invariant
            i <= document@.len(),
            all == rows_view(document@),
            forall|k: int| 0 <= k < i ==> rows_valid((#[trigger] all[k]).0, all[k].1),
            parsed_map@ == document_imports(all.take(i as int)),
        decreases document.len() - i,
    {
        let module_name = &document[i].0;
        proof {
            let next = all.take(i + 1);
            assert(next.drop_last() =~= all.take(i as int));
            assert(next.last() == all[i as int]);
            assert(all[i as int].0 == module_name@);
            assert(all[i as int].1 == document@[i as int].1@.map_values(
                |row: Vec<Cell>| row@.map_values(|cell: Cell| cell@),
            ));
        }
        match imports_of_rows(module_name, &document[i].1) {
            None => {
                return Err(GrimpError::CorruptCache(filename.to_owned()));
            },
            Some(imports) => {
                parsed_map = parsed_map.with_module(Module { name: module_name.clone() }, imports);
            },
        }
        i = i + 1;
    }
    proof {
        assert(all.take(document@.len() as int) =~= all);
        lemma_importers_restored(all);
    }
    Ok(parsed_map)
}

/// What reading a cache file with this text gives.
pub open spec fn parsed_cache(text: Seq<char>, filename: Seq<char>) -> Result<
    Map<Seq<char>, Set<DirectImportView>>,
    GrimpErrorView,
> {
    cache_of_rows(parsed_cache_rows(text), filename)
}

/// Reads the imports by module from the text of a cache file.
pub fn parse_json_to_map(json_str: &str, filename: &str) -> (imports_by_module: Result<
    ImportsByModule,
    GrimpError,
>)
    ensures
        imports_result_view(imports_by_module) == parsed_cache(json_str@, filename@),
        imports_by_module matches Ok(imports) ==> importers_match(imports@),
{
    match parse_rows(json_str) {
        None => Err(GrimpError::CorruptCache(filename.to_owned())),
        Some(raw_map) => imports_from_rows(&raw_map, filename),
    }
}

/// What is stored of an import: all but the importer.
pub open spec fn triple_of(import: DirectImportView) -> TripleView {
    (import.imported, import.line_number, import.line_contents)
}

/// The triples of a module's imports, each once, in the order in which
/// they first occur.
pub open spec fn triples_of(imports: Seq<DirectImport>) -> Seq<TripleView>
    decreases imports.len(),
{
    if imports.len() == 0 {
        Seq::empty()
    } else {
        let before = triples_of(imports.drop_last());
        let triple = triple_of(imports.last()@);
        if before.contains(triple) {
            before
        } else {
            before.push(triple)
        }
    }
}

/// The document that is written for these entries: under each module's
/// name the triples of its imports.
pub open spec fn document_of_entries(entries: Seq<(Module, Vec<DirectImport>)>) -> Seq<
    (Seq<char>, Seq<TripleView>),
> {
    entries.map_values(|entry: (Module, Vec<DirectImport>)| (entry.0@, triples_of(entry.1@)))
}

/// The document that is written for these imports by module.
pub open spec fn cache_document(imports_by_module: &ImportsByModule) -> Seq<
    (Seq<char>, Seq<TripleView>),
> {
    document_of_entries(imports_by_module.entries_view())
}

/// The row that a triple is read back as.
pub open spec fn triple_cells(triple: TripleView) -> Seq<CellView> {
    seq![
        CellView::Text(triple.0),
        CellView::Number(Some(triple.1 as u64)),
        CellView::Text(triple.2),
    ]
}

/// The rows that a written document is read back as.
pub open spec fn rows_of(document: Seq<(Seq<char>, Seq<TripleView>)>) -> Seq<(Seq<char>, RowsView)> {
    document.map_values(
        |entry: (Seq<char>, Seq<TripleView>)|
            (entry.0, entry.1.map_values(|triple: TripleView| triple_cells(triple))),
    )
}

/// The triples of a list of imports are the triples of its members.
pub proof fn lemma_triples(imports: Seq<DirectImport>)
    ensures
        forall|triple: TripleView| #[trigger]
            triples_of(imports).contains(triple) <==> exists|i: int|
                0 <= i < imports.len() && triple_of((#[trigger] imports[i])@) == triple,
        triples_of(imports).no_duplicates(),
    decreases imports.len(),
{
    if imports.len() > 0 {
        let shorter = imports.drop_last();
        lemma_triples(shorter);
        let before = triples_of(shorter);
        let last = triple_of(imports.last()@);
        assert forall|triple: TripleView| #[trigger]
            triples_of(imports).contains(triple) <==> exists|i: int|
                0 <= i < imports.len() && triple_of((#[trigger] imports[i])@) == triple by {
            if before.contains(triple) {
                let i = choose|i: int|
                    0 <= i < shorter.len() && triple_of((#[trigger] shorter[i])@) == triple;
                assert(imports[i] == shorter[i]);
                if !before.contains(last) {
                    let k = choose|k: int| 0 <= k < before.len() && before[k] == triple;
                    assert(before.push(last)[k] == triple);
                }
            }
            if triple == last {
                assert(triple_of(imports[imports.len() - 1]@) == triple);
                if !before.contains(last) {
                    assert(before.push(last)[before.len() as int] == triple);
                }
            }
            if triples_of(imports).contains(triple) && triple != last {
                let k = choose|k: int|
                    0 <= k < triples_of(imports).len() && triples_of(imports)[k] == triple;
                assert(before[k] == triple);
            }
            if exists|i: int| 0 <= i < imports.len() && triple_of((#[trigger] imports[i])@) == triple {
                let i = choose|i: int|
                    0 <= i < imports.len() && triple_of((#[trigger] imports[i])@) == triple;
                if i < shorter.len() {
                    assert(shorter[i] == imports[i]);
                }
            }
        }
        if !before.contains(last) {
            assert forall|a: int, b: int|
                0 <= a < before.len() + 1 && 0 <= b < before.len() + 1 && a != b implies before.push(
                last,
            )[a] != before.push(last)[b] by {
                if a < before.len() {
                    assert(before.contains(before[a]));
                }
                if b < before.len() {
                    assert(before.contains(before[b]));
                }
            }
        }
    }
}

/// The rows that the triples of a module's imports are read back as stand
/// for those imports, where each is filed under the module.
pub proof fn lemma_rows_round_trip(module: Seq<char>, imports: Seq<DirectImport>)
    requires
        forall|i: int| 0 <= i < imports.len() ==> (#[trigger] imports[i])@.importer == module,
    ensures
        rows_valid(module, triples_of(imports).map_values(|triple: TripleView| triple_cells(triple))),
        rows_imports(module, triples_of(imports).map_values(|triple: TripleView| triple_cells(triple)))
            == import_set(imports),
{
    lemma_triples(imports);
    let triples = triples_of(imports);
    let rows = triples.map_values(|triple: TripleView| triple_cells(triple));
    assert forall|k: int| 0 <= k < rows.len() implies row_import(module, #[trigger] rows[k]) == Some(
        DirectImportView {
            importer: module,
            imported: triples[k].0,
            line_number: triples[k].1,
            line_contents: triples[k].2,
        },
    ) by {
        assert(triples.contains(triples[k]));
        let i = choose|i: int|
            0 <= i < imports.len() && triple_of((#[trigger] imports[i])@) == triples[k];
        assert(imports[i].line_number <= usize::MAX);
        assert(rows[k] == triple_cells(triples[k]));
    }
    assert forall|import: DirectImportView|
        rows_imports(module, rows).contains(import) == import_set(imports).contains(import) by {
        if rows_imports(module, rows).contains(import) {
            let k = choose|k: int|
                0 <= k < rows.len() && row_import(module, #[trigger] rows[k]) == Some(import);
            assert(triples.contains(triples[k]));
            let i = choose|i: int|
                0 <= i < imports.len() && triple_of((#[trigger] imports[i])@) == triples[k];
            assert(imports[i]@ == import);
        }
        if import_set(imports).contains(import) {
            let i = choose|i: int| 0 <= i < imports.len() && imports[i]@ == import;
            assert(imports[i]@.importer == module);
            assert(triples.contains(triple_of(imports[i]@)));
            let k = choose|k: int| 0 <= k < triples.len() && triples[k] == triple_of(imports[i]@);
            assert(row_import(module, rows[k]) == Some(import));
        }
    }
    assert(rows_imports(module, rows) =~= import_set(imports));
}

/// The cache round trip: the document written for imports by module, in
/// which every import is filed under the module that issues it, is read
/// back as the same imports by module.
pub proof fn lemma_document_round_trip(entries: Seq<(Module, Vec<DirectImport>)>, filename: Seq<char>)
    requires
        distinct_modules(entries),
        importers_match(entries_imports(entries)),
    ensures
        cache_of_rows(Some(rows_of(document_of_entries(entries))), filename) == Ok::<
            Map<Seq<char>, Set<DirectImportView>>,
            GrimpErrorView,
        >(entries_imports(entries)),
    decreases entries.len(),
{
    let rows = rows_of(document_of_entries(entries));
    if entries.len() == 0 {
        assert(rows =~= Seq::empty());
    } else {
        let shorter = entries.drop_last();
        let key = entries.last().0@;
        let imports = entries.last().1@;
        lemma_module_entries(shorter, key);
        assert(!entries_imports(shorter).contains_key(key)) by {
            if exists|j: int| 0 <= j < shorter.len() && (#[trigger] shorter[j]).0@ == key {
                let j = choose|j: int| 0 <= j < shorter.len() && (#[trigger] shorter[j]).0@ == key;
                assert(entries[j].0@ == entries[entries.len() - 1].0@);
            }
        }
        assert(distinct_modules(shorter)) by {
            assert forall|i: int, j: int| 0 <= i < j < shorter.len() implies (
            #[trigger] shorter[i]).0@ != (#[trigger] shorter[j]).0@ by {
                assert(entries[i].0@ != entries[j].0@);
            }
        }
        assert(importers_match(entries_imports(shorter))) by {
            assert forall|module: Seq<char>, import: DirectImportView|
                entries_imports(shorter).contains_key(module) && #[trigger] entries_imports(
                    shorter,
                )[module].contains(import) implies import.importer == module by {
                assert(module != key);
                assert(entries_imports(entries)[module].contains(import));
            }
        }
        lemma_document_round_trip(shorter, filename);
        assert(rows.drop_last() =~= rows_of(document_of_entries(shorter)));
        assert forall|i: int| 0 <= i < imports.len() implies (#[trigger] imports[i])@.importer
            == key by {
            assert(import_set(imports).contains(imports[i]@));
            assert(entries_imports(entries)[key].contains(imports[i]@));
        }
        lemma_rows_round_trip(key, imports);
        assert(rows.last().0 == key);
        assert(rows.last().1 == triples_of(imports).map_values(
            |triple: TripleView| triple_cells(triple),
        ));
        assert(document_valid(rows)) by {
            assert forall|i: int| 0 <= i < rows.len() implies rows_valid(
                (#[trigger] rows[i]).0,
                rows[i].1,
            ) by {
                if i < rows.len() - 1 {
                    assert(rows.drop_last()[i] == rows[i]);
                }
            }
        }
    }
}

/// Whether two triples hold the same.
fn same_triple(a: &(String, usize, String), b: &(String, usize, String)) -> (r: bool)
    ensures
        r == ((a.0@, a.1 as nat, a.2@) == (b.0@, b.1 as nat, b.2@)),
{
    a.0 == b.0 && a.1 == b.1 && a.2 == b.2
}

/// The triples of a module's imports, each once.
pub fn triples_from(imports: &Vec<DirectImport>) -> (triples: Vec<(String, usize, String)>)
    ensures
        triples@.map_values(|triple: (String, usize, String)| (triple.0@, triple.1 as nat, triple.2@))
            == triples_of(imports@),
{
    let mut triples: Vec<(String, usize, String)> = Vec::new();
    let mut i: usize = 0;
    assert(imports@.take(0) =~= Seq::<DirectImport>::empty());
    while i < imports.len()
        invariant
            i <= imports@.len(),
            triples@.map_values(
                |triple: (String, usize, String)| (triple.0@, triple.1 as nat, triple.2@),
            ) == triples_of(imports@.take(i as int)),
        decreases imports.len() - i,
    {
        let import = &imports[i];
        let triple = (import.imported.clone(), import.line_number, import.line_contents.clone());
        let ghost before = triples@.map_values(
            |triple: (String, usize, String)| (triple.0@, triple.1 as nat, triple.2@),
        );
        let ghost wanted = triple_of(import@);
        proof {
            let next = imports@.take(i + 1);
            assert(next.drop_last() =~= imports@.take(i as int));
            assert(next.last() == *import);
        }
        let mut held = false;
        let mut k: usize = 0;
        while k < triples.len()
            invariant
                k <= triples@.len(),
                before == triples@.map_values(
                    |triple: (String, usize, String)| (triple.0@, triple.1 as nat, triple.2@),
                ),
                wanted == (triple.0@, triple.1 as nat, triple.2@),
                held <==> exists|m: int| 0 <= m < k && before[m] == wanted,
            decreases triples.len() - k,
        {
            if same_triple(&triples[k], &triple) {
                assert(before[k as int] == wanted);
                held = true;
            }
            k = k + 1;
        }
        if !held {
            triples.push(triple);
            assert(triples@.map_values(
                |triple: (String, usize, String)| (triple.0@, triple.1 as nat, triple.2@),
            ) =~= before.push(wanted));
        }
        i = i + 1;
    }
    assert(imports@.take(imports@.len() as int) =~= imports@);
    triples
}

/// The document that is written for these imports by module.
pub fn document_from(imports_by_module: &ImportsByModule) -> (document: Vec<
    (String, Vec<(String, usize, String)>),
>)
    ensures
        document_view(document@) == cache_document(imports_by_module),
        distinct_keys(document_view(document@)),
        importers_match(imports_by_module@) ==> document_valid(rows_of(document_view(document@)))
            && document_imports(rows_of(document_view(document@))) == imports_by_module@,
{
    let entries = imports_by_module.entries();
    let ghost wanted = document_of_entries(entries@);
    let mut document: Vec<(String, Vec<(String, usize, String)>)> = Vec::new();
    let mut i: usize = 0;
    while i < entries.len()
        invariant
            i <= entries@.len(),
            wanted == document_of_entries(entries@),
            document_view(document@) == wanted.take(i as int),
        decreases entries.len() - i,
    {
        let triples = triples_from(&entries[i].1);
        let ghost before = document_view(document@);
        document.push((entries[i].0.name.clone(), triples));
        proof {
            assert(wanted[i as int] == (entries@[i as int].0@, triples_of(entries@[i as int].1@)));
            assert(document_view(document@) =~= before.push(wanted[i as int]));
            assert(document_view(document@) =~= wanted.take(i + 1));
        }
        i = i + 1;
    }
    proof {
        assert(wanted.take(entries@.len() as int) =~= wanted);
        assert forall|a: int, b: int| 0 <= a < b < wanted.len() implies (#[trigger] wanted[a]).0 != (
        #[trigger] wanted[b]).0 by {
            assert(entries@[a].0@ != entries@[b].0@);
        }
        if importers_match(imports_by_module@) {
            lemma_document_round_trip(entries@, Seq::empty());
        }
    }
    document
}

/// The text of the cache file for these imports by module.
pub fn serialize_imports_by_module(imports_by_module: &ImportsByModule) -> (file_contents: String)
    ensures
        file_contents@ == rendered_cache_document(cache_document(imports_by_module)),
{
    let raw_map = document_from(imports_by_module);
    render_document(&raw_map)
}

/// Writes the cache file that holds the imports by module: the text of the
/// cache file is handed to the file system to be put at `filename`. A file
/// system that holds its files in a map takes it, in place of what was
/// there; what another does with it, and whether it fails, is its own
/// affair.
pub fn write_cache_data_map_file<F: FileSystem>(
    filename: &str,
    imports_by_module: &ImportsByModule,
    file_system: &mut F,
) -> (written: Result<(), GrimpError>)
    ensures
        old(file_system).held() matches Some(files) ==> written is Ok && final(file_system).held()
            == Some(
            files.insert(filename@, rendered_cache_document(cache_document(imports_by_module))),
        ),
        forall|components: Seq<Seq<char>>| #[trigger]
            final(file_system).joined(components) == old(file_system).joined(components),
        forall|path: Seq<char>| #[trigger]
            final(file_system).split_of(path) == old(file_system).split_of(path),
{
    let file_contents = serialize_imports_by_module(imports_by_module);
    file_system.write(filename, file_contents.as_str())
}

/// What reading the cache file at `filename` gives in a file system that
/// holds these files: what the text at `filename` is parsed to, or the
/// failure to find a file there.
pub open spec fn cache_read_from(files: Map<Seq<char>, Seq<char>>, filename: Seq<char>) -> Result<
    Map<Seq<char>, Set<DirectImportView>>,
    GrimpErrorView,
> {
    match read_from(files, filename) {
        Ok(text) => parsed_cache(text, filename),
        Err(e) => Err(e),
    }
}

/// Reads the cache file that holds the imports by module. Fails as the
/// file system fails if it cannot hand out the file; otherwise the result
/// is what the text it hands out is parsed to.
pub fn read_cache_data_map_file<F: FileSystem>(filename: &str, file_system: &F) -> (imports_by_module:
    Result<ImportsByModule, GrimpError>)
    ensures
        file_system.held() matches Some(files) ==> imports_result_view(imports_by_module)
            == cache_read_from(files, filename@),
        imports_by_module matches Ok(imports) ==> importers_match(imports@) && exists|
            text: Seq<char>,
        | #[trigger] parsed_cache(text, filename@) == Ok::<
            Map<Seq<char>, Set<DirectImportView>>,
            GrimpErrorView,
        >(imports@),
{
    match file_system.read(filename) {
        Err(e) => Err(e),
        Ok(file_contents) => {
            let parsed = parse_json_to_map(file_contents.as_str(), filename);
            assert(imports_result_view(parsed) == parsed_cache(file_contents@, filename@));
            parsed
        },
    }
}

} // verus!

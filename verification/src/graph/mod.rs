//! The graph store: modules interned to dense tokens, with the imports
//! between them held in both directions.
use crate::errors::GrimpError;
use crate::import_scanning::{
    distinct_modules, entries_imports, import_set, is_descendant, lemma_module_entries,
    DirectImport, DirectImportView, ImportsByModule,
};
use crate::module_finding::Module;
use crate::text::{chars_of, starts_with};
use rustc_hash::{FxBuildHasher, FxHashMap, FxHashSet};
use vstd::prelude::*;

pub mod import_chain_queries;
pub mod pathfinding;

verus! {

/// A module's handle in one graph: its index in the order of insertion.
pub type ModuleToken = usize;

#[verifier::external_type_specification]
#[verifier::external_body]
pub struct ExFxBuildHasher(FxBuildHasher);

/// Calls `HashSet::insert` on a set hashed by rustc_hash: afterwards the
/// set holds the token besides what it held, and the result tells whether
/// the token is new to it.
#[verifier::external_body]
pub(crate) fn insert_token(set: &mut FxHashSet<ModuleToken>, token: ModuleToken) -> (added: bool)
    ensures
        final(set)@ == old(set)@.insert(token),
        added == !old(set)@.contains(token),
{
    set.insert(token)
}

/// Calls `HashSet::contains` on a set hashed by rustc_hash: whether the
/// set holds the token.
#[verifier::external_body]
pub(crate) fn holds_token(set: &FxHashSet<ModuleToken>, token: ModuleToken) -> (held: bool)
    ensures
        held == set@.contains(token),
{
    set.contains(&token)
}

/// Walks a set hashed by rustc_hash with `HashSet::iter`: the result holds
/// each token of the set once, in the order in which the set hands them
/// out, of which nothing is said.
#[verifier::external_body]
pub(crate) fn tokens_of(set: &FxHashSet<ModuleToken>) -> (tokens: Vec<ModuleToken>)
    ensures
        tokens@.no_duplicates(),
        tokens@.to_set() == set@,
{
    set.iter().copied().collect()
}

/// Calls `HashMap::get` on a map hashed by rustc_hash: the set stored
/// under the token, if the map has that key.
#[verifier::external_body]
pub(crate) fn targets_under<'a>(
    map: &'a FxHashMap<ModuleToken, FxHashSet<ModuleToken>>,
    token: ModuleToken,
) -> (targets: Option<&'a FxHashSet<ModuleToken>>)
    ensures
        match targets {
            Some(set) => map@.contains_key(token) && *set == map@[token],
            None => !map@.contains_key(token),
        },
{
    map.get(&token)
}

/// Calls `HashMap::remove` on a map hashed by rustc_hash: the key leaves
/// the map, and the set that was stored under it, if any, is handed out.
#[verifier::external_body]
pub(crate) fn take_targets(
    map: &mut FxHashMap<ModuleToken, FxHashSet<ModuleToken>>,
    token: ModuleToken,
) -> (targets: Option<FxHashSet<ModuleToken>>)
    ensures
        final(map)@ == old(map)@.remove(token),
        match targets {
            Some(set) => old(map)@.contains_key(token) && set == old(map)@[token],
            None => !old(map)@.contains_key(token),
        },
{
    map.remove(&token)
}

/// Calls `HashMap::insert` on a map hashed by rustc_hash: afterwards the
/// set is stored under the token, in place of what was there.
#[verifier::external_body]
pub(crate) fn put_targets(
    map: &mut FxHashMap<ModuleToken, FxHashSet<ModuleToken>>,
    token: ModuleToken,
    targets: FxHashSet<ModuleToken>,
)
    ensures
        final(map)@ == old(map)@.insert(token, targets),
{
    map.insert(token, targets);
}

/// What each set of an adjacency table holds.
pub open spec fn adjacency_view(adjacency: Seq<FxHashSet<ModuleToken>>) -> Seq<Set<ModuleToken>> {
    adjacency.map_values(|targets: FxHashSet<ModuleToken>| targets@)
}

/// Whether every edge of the table ends at a token of the table.
pub open spec fn closed_adjacency(adjacency: Seq<Set<ModuleToken>>) -> bool {
    forall|u: int, v: ModuleToken|
        0 <= u < adjacency.len() && #[trigger] adjacency[u].contains(v) ==> v < adjacency.len()
}

/// Whether every set of the table is finite.
pub open spec fn finite_adjacency(adjacency: Seq<Set<ModuleToken>>) -> bool {
    forall|u: int| 0 <= u < adjacency.len() ==> (#[trigger] adjacency[u]).finite()
}

/// The imports of a table, as pairs of importer and imported.
pub open spec fn import_pairs(imports: Seq<Set<ModuleToken>>) -> Set<(ModuleToken, ModuleToken)> {
    Set::new(
        |edge: (ModuleToken, ModuleToken)|
            edge.0 < imports.len() && imports[edge.0 as int].contains(edge.1),
    )
}

/// The imports of the first `count` modules of a table.
pub open spec fn import_pairs_below(imports: Seq<Set<ModuleToken>>, count: nat) -> Set<
    (ModuleToken, ModuleToken),
> {
    Set::new(
        |edge: (ModuleToken, ModuleToken)|
            edge.0 < count && edge.0 < imports.len() && imports[edge.0 as int].contains(edge.1),
    )
}

/// A table of finite sets has finitely many imports among its first modules.
pub proof fn lemma_import_pairs_below_finite(imports: Seq<Set<ModuleToken>>, count: nat)
    requires
        finite_adjacency(imports),
        count <= imports.len(),
    ensures
        import_pairs_below(imports, count).finite(),
    decreases count,
{
    if count == 0 {
        assert(import_pairs_below(imports, 0) =~= Set::empty());
    } else {
        let fewer = (count - 1) as nat;
        lemma_import_pairs_below_finite(imports, fewer);
        if fewer > usize::MAX {
            assert(import_pairs_below(imports, count) =~= import_pairs_below(imports, fewer));
        } else {
            let importer = fewer as usize;
            let pair = |imported: ModuleToken| (importer, imported);
            let row = imports[fewer as int].map(pair);
            imports[fewer as int].lemma_map_finite(pair);
            assert forall|edge: (ModuleToken, ModuleToken)|
                import_pairs_below(imports, count).contains(edge) == import_pairs_below(
                    imports,
                    fewer,
                ).union(row).contains(edge) by {
                if import_pairs_below(imports, count).contains(edge) && edge.0 == importer {
                    assert(imports[fewer as int].contains(edge.1));
                    assert(pair(edge.1) == edge);
                    assert(row.contains(edge));
                }
                if row.contains(edge) {
                    let imported = choose|imported: ModuleToken|
                        imports[fewer as int].contains(imported) && pair(imported) == edge;
                    assert(edge == (importer, imported));
                }
            }
            assert(import_pairs_below(imports, count) =~= import_pairs_below(imports, fewer).union(
                row,
            ));
        }
    }
}

/// A table of finite sets has finitely many imports.
pub proof fn lemma_import_pairs_finite(imports: Seq<Set<ModuleToken>>)
    requires
        finite_adjacency(imports),
    ensures
        import_pairs(imports).finite(),
{
    lemma_import_pairs_below_finite(imports, imports.len());
    assert(import_pairs(imports) =~= import_pairs_below(imports, imports.len()));
}

/// Whether one of the imports is of the module called `imported`.
pub open spec fn imports_name(imports: Set<DirectImportView>, imported: Seq<char>) -> bool {
    exists|import: DirectImportView| #[trigger] imports.contains(import) && import.imported == imported
}

/// Whether the module called `importer` is listed with an import of the
/// module called `imported`.
pub open spec fn lists_import(
    imports_by_module: Map<Seq<char>, Set<DirectImportView>>,
    importer: Seq<char>,
    imported: Seq<char>,
) -> bool {
    imports_by_module.contains_key(importer) && imports_name(imports_by_module[importer], imported)
}

/// A directed graph of modules. Every module has a token; `imports`
/// holds, for each token, the tokens of the modules it imports, and
/// `reverse_imports` the tokens of the modules that import it.
pub struct Graph {
    names: Vec<String>,
    imports: Vec<FxHashSet<ModuleToken>>,
    reverse_imports: Vec<FxHashSet<ModuleToken>>,
}

impl Graph {
    /// The name of each module, by token.
    pub closed spec fn names(&self) -> Seq<Seq<char>> {
        self.names@.map_values(|name: String| name@)
    }

    /// The forward edges, by token.
    pub closed spec fn imports_view(&self) -> Seq<Set<ModuleToken>> {
        adjacency_view(self.imports@)
    }

    /// The backward edges, by token.
    pub closed spec fn reverse_imports_view(&self) -> Seq<Set<ModuleToken>> {
        adjacency_view(self.reverse_imports@)
    }

    /// The modules that `importer` imports; none for a token that the
    /// graph does not have.
    pub open spec fn imports_of(&self, importer: ModuleToken) -> Set<ModuleToken> {
        if importer < self.imports_view().len() {
            self.imports_view()[importer as int]
        } else {
            Set::empty()
        }
    }

    /// The modules that import `imported`; none for a token that the
    /// graph does not have.
    pub open spec fn importers_of(&self, imported: ModuleToken) -> Set<ModuleToken> {
        if imported < self.reverse_imports_view().len() {
            self.reverse_imports_view()[imported as int]
        } else {
            Set::empty()
        }
    }

    /// The invariant of the store: one entry per module in each table, no
    /// name twice, and every edge present in both directions.
    pub closed spec fn wf(&self) -> bool {
        &&& self.imports@.len() == self.names@.len()
        &&& self.reverse_imports@.len() == self.names@.len()
        &&& forall|i: int, j: int|
            0 <= i < j < self.names@.len() ==> (#[trigger] self.names@[i])@ != (
            #[trigger] self.names@[j])@
        &&& forall|u: int| 0 <= u < self.imports@.len() ==> (#[trigger] self.imports@[u])@.finite()
        &&& forall|u: int, v: ModuleToken|
            0 <= u < self.imports@.len() && #[trigger] self.imports@[u]@.contains(v) ==> v
                < self.names@.len() && self.reverse_imports@[v as int]@.contains(u as usize)
        &&& forall|v: int, u: ModuleToken|
            0 <= v < self.reverse_imports@.len() && #[trigger] self.reverse_imports@[v]@.contains(
                u,
            ) ==> u < self.names@.len() && self.imports@[u as int]@.contains(v as usize)
    }

    /// What the invariant gives: the tables have one entry per module, no
    /// edge leaves the graph, every module has finitely many imports,
    /// and no two tokens share a name.
    pub proof fn lemma_well_formed(&self)
        requires
            self.wf(),
        ensures
            self.imports_view().len() == self.names().len(),
            self.reverse_imports_view().len() == self.names().len(),
            closed_adjacency(self.imports_view()),
            closed_adjacency(self.reverse_imports_view()),
            finite_adjacency(self.imports_view()),
            forall|i: int, j: int|
                0 <= i < j < self.names().len() ==> #[trigger] self.names()[i] != #[trigger] self.names()[j],
    {
    }

    /// The two directions agree: `importer` has `imported` among its
    /// imports exactly if `imported` has `importer` among its importers.
    pub proof fn lemma_graph_symmetry(&self, importer: ModuleToken, imported: ModuleToken)
        requires
            self.wf(),
        ensures
            self.imports_of(importer).contains(imported) <==> self.importers_of(imported).contains(
                importer,
            ),
    {
        if importer < self.imports@.len() {
            assert(self.imports_view()[importer as int] == self.imports@[importer as int]@);
        }
        if imported < self.reverse_imports@.len() {
            assert(self.reverse_imports_view()[imported as int]
                == self.reverse_imports@[imported as int]@);
        }
    }

    /// The modules strictly below `module` in the dotted hierarchy.
    pub open spec fn descendants_of(&self, module: ModuleToken) -> Set<ModuleToken> {
        Set::new(
            |t: ModuleToken|
                t < self.names().len() && module < self.names().len() && is_descendant(
                    self.names()[t as int],
                    self.names()[module as int],
                ),
        )
    }

    /// The modules of `modules` together with all their descendants.
    pub open spec fn expanded(&self, modules: Set<ModuleToken>) -> Set<ModuleToken> {
        Set::new(
            |t: ModuleToken|
                modules.contains(t) || exists|m: ModuleToken|
                    modules.contains(m) && #[trigger] self.descendants_of(m).contains(t),
        )
    }

    /// Whether the graph has grown out of `earlier`: it has the modules of
    /// `earlier` under their tokens, and its imports.
    pub open spec fn extends(&self, earlier: &Graph) -> bool {
        &&& earlier.names().len() <= self.names().len()
        &&& forall|t: int| 0 <= t < earlier.names().len() ==> self.names()[t] == earlier.names()[t]
        &&& forall|u: ModuleToken, v: ModuleToken| #[trigger]
            earlier.imports_of(u).contains(v) ==> self.imports_of(u).contains(v)
    }

    /// Whether the module with this token imports a module called `imported`.
    pub open spec fn imports_named(&self, importer: ModuleToken, imported: Seq<char>) -> bool {
        exists|v: ModuleToken|
            v < self.names().len() && self.names()[v as int] == imported && #[trigger] self.imports_of(
                importer,
            ).contains(v)
    }

    /// Whether the module called `importer` imports the module called
    /// `imported`.
    pub open spec fn holds_import_between(&self, importer: Seq<char>, imported: Seq<char>) -> bool {
        exists|u: ModuleToken|
            u < self.names().len() && self.names()[u as int] == importer && #[trigger] self.imports_named(
                u,
                imported,
            )
    }

    /// A graph without modules.
    pub fn new() -> (graph: Graph)
        ensures
            graph.wf(),
            graph.names().len() == 0,
    {
        Graph { names: Vec::new(), imports: Vec::new(), reverse_imports: Vec::new() }
    }

    /// How many modules the graph holds: the tokens are the numbers below.
    pub fn module_count(&self) -> (count: usize)
        ensures
            count == self.names().len(),
    {
        self.names.len()
    }

    /// The forward adjacency table.
    pub fn imports(&self) -> (adjacency: &Vec<FxHashSet<ModuleToken>>)
        ensures
            adjacency_view(adjacency@) == self.imports_view(),
    {
        &self.imports
    }

    /// The backward adjacency table.
    pub fn reverse_imports(&self) -> (adjacency: &Vec<FxHashSet<ModuleToken>>)
        ensures
            adjacency_view(adjacency@) == self.reverse_imports_view(),
    {
        &self.reverse_imports
    }

    /// The token of the module called `name`, if the graph holds it.
    pub fn get_module_by_name(&self, name: &str) -> (token: Option<ModuleToken>)
        ensures
            match token {
                Some(t) => t < self.names().len() && self.names()[t as int] == name@,
                None => !self.names().contains(name@),
            },
    {
        let wanted = name.to_owned();
        let mut i: usize = 0;
        while i < self.names.len()
            invariant
                i <= self.names.len(),
                wanted@ == name@,
                forall|j: int| 0 <= j < i ==> self.names()[j] != name@,
            decreases self.names.len() - i,
        {
            if self.names[i] == wanted {
                return Some(i);
            }
            i = i + 1;
        }
        None
    }

    /// The name of the module with this token, if the graph has the token.
    pub fn get_module_name(&self, token: ModuleToken) -> (name: Option<&String>)
        ensures
            match name {
                Some(n) => token < self.names().len() && n@ == self.names()[token as int],
                None => token >= self.names().len(),
            },
    {
        if token < self.names.len() {
            Some(&self.names[token])
        } else {
            None
        }
    }

    /// Interns a module: gives the token it has, or, if the name is new,
    /// the next token, for a module without imports.
    pub fn add_module(&mut self, name: &str) -> (token: ModuleToken)
        requires
            old(self).wf(),
        ensures
            final(self).wf(),
            token < final(self).names().len(),
            final(self).names()[token as int] == name@,
            old(self).names().contains(name@) ==> *final(self) == *old(self),
            !old(self).names().contains(name@) ==> {
                &&& token == old(self).names().len()
                &&& final(self).names() == old(self).names().push(name@)
                &&& final(self).imports_view() == old(self).imports_view().push(Set::empty())
                &&& final(self).reverse_imports_view() == old(self).reverse_imports_view().push(
                    Set::empty(),
                )
            },
    {
        if let Some(token) = self.get_module_by_name(name) {
            return token;
        }
        let token = self.names.len();
        let ghost before = *self;
        self.names.push(name.to_owned());
        self.imports.push(FxHashSet::default());
        self.reverse_imports.push(FxHashSet::default());
        proof {
            assert(self.names() =~= before.names().push(name@));
            assert(self.imports_view() =~= before.imports_view().push(Set::empty()));
            assert(self.reverse_imports_view() =~= before.reverse_imports_view().push(Set::empty()));
            assert forall|i: int, j: int| 0 <= i < j < self.names@.len() implies (
            #[trigger] self.names@[i])@ != (#[trigger] self.names@[j])@ by {
                if j == token {
                    assert(before.names()[i] == before.names@[i]@);
                    assert(before.names().contains(before.names()[i]));
                }
            }
        }
        token
    }

    /// Records that `importer` imports `imported`, in both directions.
    /// Recording an import twice changes nothing. Fails, and changes
    /// nothing, if the graph lacks one of the tokens.
    pub fn add_import(&mut self, importer: ModuleToken, imported: ModuleToken) -> (r: Result<
        (),
        GrimpError,
    >)
        requires
            old(self).wf(),
        ensures
            final(self).wf(),
            r is Ok <==> importer < old(self).names().len() && imported < old(self).names().len(),
            r is Err ==> *final(self) == *old(self) && r matches Err(
                GrimpError::InvariantViolation(_),
            ),
            r is Ok ==> {
                &&& final(self).names() == old(self).names()
                &&& final(self).imports_view() == old(self).imports_view().update(
                    importer as int,
                    old(self).imports_of(importer).insert(imported),
                )
                &&& final(self).reverse_imports_view() == old(self).reverse_imports_view().update(
                    imported as int,
                    old(self).importers_of(imported).insert(importer),
                )
            },
    {
        if importer >= self.names.len() || imported >= self.names.len() {
            return Err(GrimpError::InvariantViolation("unknown module token".to_owned()));
        }
        let ghost before = *self;
        insert_token(&mut self.imports[importer], imported);
        insert_token(&mut self.reverse_imports[imported], importer);
        proof {
            assert(self.imports_view() =~= before.imports_view().update(
                importer as int,
                before.imports_of(importer).insert(imported),
            ));
            assert(self.reverse_imports_view() =~= before.reverse_imports_view().update(
                imported as int,
                before.importers_of(imported).insert(importer),
            ));
            assert forall|u: int, v: ModuleToken|
                0 <= u < self.imports@.len() && #[trigger] self.imports@[u]@.contains(
                    v,
                ) implies v < self.names@.len() && self.reverse_imports@[v as int]@.contains(
                u as usize,
            ) by {
                if !(u == importer && v == imported) {
                    assert(before.imports@[u]@.contains(v));
                }
            }
            assert forall|v: int, u: ModuleToken|
                0 <= v < self.reverse_imports@.len() && #[trigger] self.reverse_imports@[v]@.contains(
                    u,
                ) implies u < self.names@.len() && self.imports@[u as int]@.contains(
                v as usize,
            ) by {
                if !(u == importer && v == imported) {
                    assert(before.reverse_imports@[v]@.contains(u));
                }
            }
        }
        Ok(())
    }

    /// Whether `importer` imports `imported` directly.
    pub fn direct_import_exists(&self, importer: ModuleToken, imported: ModuleToken) -> (r: bool)
        ensures
            r == self.imports_of(importer).contains(imported),
    {
        if importer < self.imports.len() {
            assert(self.imports_view()[importer as int] == self.imports@[importer as int]@);
            holds_token(&self.imports[importer], imported)
        } else {
            false
        }
    }

    /// The modules strictly below `module` in the dotted hierarchy.
    pub fn descendants(&self, module: ModuleToken) -> (below: FxHashSet<ModuleToken>)
        ensures
            below@ == self.descendants_of(module),
    {
        let mut below: FxHashSet<ModuleToken> = FxHashSet::default();
        if module < self.names.len() {
            let mut prefix = chars_of(self.names[module].as_str());
            prefix.push('.');
            let mut t: usize = 0;
            while t < self.names.len()
                invariant
                    t <= self.names.len(),
                    module < self.names.len(),
                    prefix@ == self.names()[module as int].push('.'),
                    forall|x: ModuleToken| #[trigger]
                        below@.contains(x) <==> x < t && self.descendants_of(module).contains(x),
                decreases self.names.len() - t,
            {
                let candidate = chars_of(self.names[t].as_str());
                assert(candidate@ == self.names()[t as int]);
                if starts_with(&candidate, &prefix) {
                    insert_token(&mut below, t);
                }
                t = t + 1;
            }
        }
        assert(below@ =~= self.descendants_of(module));
        below
    }

    /// The given modules together with all their descendants.
    pub fn with_descendants(&self, modules: &FxHashSet<ModuleToken>) -> (all: FxHashSet<ModuleToken>)
        ensures
            all@ == self.expanded(modules@),
    {
        let mut all: FxHashSet<ModuleToken> = FxHashSet::default();
        let seeds = tokens_of(modules);
        let mut i: usize = 0;
        while i < seeds.len()
            invariant
                i <= seeds.len(),
                seeds@.to_set() == modules@,
                forall|t: ModuleToken| #[trigger]
                    all@.contains(t) <==> (exists|k: int| 0 <= k < i && seeds@[k] == t) || (
                    exists|k: int|
                        0 <= k < i && #[trigger] self.descendants_of(seeds@[k]).contains(t)),
            decreases seeds.len() - i,
        {
            let seed = seeds[i];
            let ghost before = all@;
            insert_token(&mut all, seed);
            if seed < self.names.len() {
                let ancestor = chars_of(self.names[seed].as_str());
                let mut prefix = ancestor;
                prefix.push('.');
                let mut t: usize = 0;
                while t < self.names.len()
                    invariant
                        t <= self.names.len(),
                        seed < self.names.len(),
                        prefix@ == self.names()[seed as int].push('.'),
                        forall|x: ModuleToken| #[trigger]
                            all@.contains(x) <==> before.contains(x) || x == seed || (x < t
                                && self.descendants_of(seed).contains(x)),
                    decreases self.names.len() - t,
                {
                    let candidate = chars_of(self.names[t].as_str());
                    assert(candidate@ == self.names()[t as int]);
                    if starts_with(&candidate, &prefix) {
                        insert_token(&mut all, t);
                    }
                    t = t + 1;
                }
            }
            assert forall|t: ModuleToken| #[trigger]
                all@.contains(t) <==> (exists|k: int| 0 <= k < i + 1 && seeds@[k] == t) || (
                exists|k: int|
                    0 <= k < i + 1 && #[trigger] self.descendants_of(seeds@[k]).contains(t)) by {
                if self.descendants_of(seed).contains(t) {
                    assert(self.descendants_of(seeds@[i as int]).contains(t));
                }
                if t == seed {
                    assert(seeds@[i as int] == t);
                }
            }
            i = i + 1;
        }
        proof {
            assert forall|t: ModuleToken| all@.contains(t) == self.expanded(modules@).contains(
                t,
            ) by {
                if all@.contains(t) {
                    if exists|k: int| 0 <= k < seeds@.len() && seeds@[k] == t {
                        let k = choose|k: int| 0 <= k < seeds@.len() && seeds@[k] == t;
                        assert(seeds@.to_set().contains(seeds@[k]));
                    } else {
                        let k = choose|k: int|
                            0 <= k < seeds@.len() && #[trigger] self.descendants_of(
                                seeds@[k],
                            ).contains(t);
                        assert(seeds@.to_set().contains(seeds@[k]));
                    }
                }
                if modules@.contains(t) {
                    assert(seeds@.to_set().contains(t));
                    assert(seeds@.contains(t));
                }
                if exists|m: ModuleToken|
                    modules@.contains(m) && #[trigger] self.descendants_of(m).contains(t) {
                    let m = choose|m: ModuleToken|
                        modules@.contains(m) && #[trigger] self.descendants_of(m).contains(t);
                    assert(seeds@.to_set().contains(m));
                    assert(seeds@.contains(m));
                    let k = choose|k: int| 0 <= k < seeds@.len() && seeds@[k] == m;
                    assert(self.descendants_of(seeds@[k]).contains(t));
                }
            }
            assert(all@ =~= self.expanded(modules@));
        }
        all
    }
}

impl Graph {
    /// Takes the imports of one module into the graph: the module and
    /// every module it imports are interned, and every import recorded.
    pub fn add_module_imports(&mut self, module: &Module, imports: &Vec<DirectImport>) -> (token:
        ModuleToken)
        requires
            old(self).wf(),
        ensures
            final(self).wf(),
            final(self).extends(old(self)),
            token < final(self).names().len(),
            final(self).names()[token as int] == module@,
            forall|imported: Seq<char>| #[trigger]
                imports_name(import_set(imports@), imported) ==> final(self).imports_named(
                    token,
                    imported,
                ),
            forall|u: ModuleToken, v: ModuleToken| #[trigger]
                final(self).imports_of(u).contains(v) ==> old(self).imports_of(u).contains(v) || (u
                    == token && imports_name(import_set(imports@), final(self).names()[v as int])),
            forall|t: int|
                old(self).names().len() <= t < final(self).names().len() ==> t == token
                    || imports_name(import_set(imports@), #[trigger] final(self).names()[t]),
    {
        let ghost start = *self;
        let token = self.add_module(module.name.as_str());
        proof {
            self.lemma_well_formed();
            start.lemma_well_formed();
        }
        let mut j: usize = 0;
        while j < imports.len()
            invariant
                j <= imports@.len(),
                start.wf(),
                self.wf(),
                self.extends(&start),
                token < self.names().len(),
                self.names()[token as int] == module@,
                forall|l: int| 0 <= l < j ==> self.imports_named(token, (#[trigger] imports@[l])@.imported),
                forall|u: ModuleToken, v: ModuleToken| #[trigger]
                    self.imports_of(u).contains(v) ==> start.imports_of(u).contains(v) || (u == token
                        && exists|l: int|
                        0 <= l < j && (#[trigger] imports@[l])@.imported == self.names()[v as int]),
                forall|t: int|
                    start.names().len() <= t < self.names().len() ==> t == token || exists|l: int|
                        0 <= l < j && (#[trigger] imports@[l])@.imported == #[trigger] self.names()[t],
            decreases imports.len() - j,
        {
            let ghost before = *self;
            let imported = self.add_module(imports[j].imported.as_str());
            let ghost between = *self;
            proof {
                before.lemma_well_formed();
                between.lemma_well_formed();
                assert(between.extends(&before));
            }
            let added = self.add_import(token, imported);
            proof {
                self.lemma_well_formed();
                assert(added is Ok);
                assert(self.extends(&between)) by {
                    assert forall|u: ModuleToken, v: ModuleToken| #[trigger]
                        between.imports_of(u).contains(v) implies self.imports_of(u).contains(v) by {
                        assert(u < between.names().len());
                    }
                }
                assert(self.extends(&start));
                assert(self.imports_of(token).contains(imported));
                assert forall|l: int| 0 <= l < j + 1 implies self.imports_named(
                    token,
                    (#[trigger] imports@[l])@.imported,
                ) by {
                    if l < j {
                        assert(before.imports_named(token, imports@[l]@.imported));
                        let v = choose|v: ModuleToken|
                            v < before.names().len() && before.names()[v as int]
                                == imports@[l]@.imported && #[trigger] before.imports_of(
                                token,
                            ).contains(v);
                        assert(between.imports_of(token).contains(v));
                        assert(self.imports_of(token).contains(v));
                    }
                }
                assert forall|u: ModuleToken, v: ModuleToken| #[trigger]
                    self.imports_of(u).contains(v) implies start.imports_of(u).contains(v) || (u
                    == token && exists|l: int|
                    0 <= l < j + 1 && (#[trigger] imports@[l])@.imported == self.names()[v as int]) by {
                    assert(u < self.names().len());
                    if u == token && v == imported {
                        assert(imports@[j as int]@.imported == self.names()[v as int]);
                    } else {
                        assert(between.imports_of(u).contains(v));
                        assert(u < before.names().len());
                        assert(before.imports_of(u).contains(v));
                        if !start.imports_of(u).contains(v) {
                            let l = choose|l: int|
                                0 <= l < j && (#[trigger] imports@[l])@.imported
                                    == before.names()[v as int];
                            assert(v < before.names().len());
                            assert(0 <= l < j + 1 && imports@[l]@.imported == self.names()[v as int]);
                        }
                    }
                }
                assert forall|t: int|
                    start.names().len() <= t < self.names().len() implies t == token || exists|
                    l: int,
                |
                    0 <= l < j + 1 && (#[trigger] imports@[l])@.imported == #[trigger] self.names()[t] by {
                    if t < before.names().len() {
                        if t != token {
                            let l = choose|l: int|
                                0 <= l < j && (#[trigger] imports@[l])@.imported == before.names()[t];
                            assert(0 <= l < j + 1 && imports@[l]@.imported == self.names()[t]);
                        }
                    } else {
                        assert(t == imported);
                        assert(imports@[j as int]@.imported == self.names()[t]);
                    }
                }
            }
            j = j + 1;
        }
        proof {
            assert forall|imported: Seq<char>| #[trigger]
                imports_name(import_set(imports@), imported) implies self.imports_named(
                token,
                imported,
            ) by {
                let d = choose|d: DirectImportView|
                    #[trigger] import_set(imports@).contains(d) && d.imported == imported;
                let l = choose|l: int| 0 <= l < imports@.len() && imports@[l].view() == d;
                assert(self.imports_named(token, imports@[l]@.imported));
            }
            assert forall|u: ModuleToken, v: ModuleToken| #[trigger]
                self.imports_of(u).contains(v) implies start.imports_of(u).contains(v) || (u == token
                && imports_name(import_set(imports@), self.names()[v as int])) by {
                if !start.imports_of(u).contains(v) {
                    let l = choose|l: int|
                        0 <= l < imports@.len() && (#[trigger] imports@[l])@.imported
                            == self.names()[v as int];
                    assert(import_set(imports@).contains(imports@[l]@));
                }
            }
            assert forall|t: int|
                start.names().len() <= t < self.names().len() implies t == token || imports_name(
                import_set(imports@),
                #[trigger] self.names()[t],
            ) by {
                if t != token {
                    let l = choose|l: int|
                        0 <= l < imports@.len() && (#[trigger] imports@[l])@.imported
                            == self.names()[t];
                    assert(import_set(imports@).contains(imports@[l]@));
                }
            }
        }
        token
    }

    /// Takes the imports of every module into the graph. Afterwards the
    /// graph holds, besides what it held, every module listed and every
    /// module imported, and exactly the imports listed.
    pub fn add_imports_by_module(&mut self, imports_by_module: &ImportsByModule)
        requires
            old(self).wf(),
        ensures
            final(self).wf(),
            final(self).extends(old(self)),
            forall|module: Seq<char>| #[trigger]
                imports_by_module@.contains_key(module) ==> final(self).names().contains(module),
            forall|importer: Seq<char>, imported: Seq<char>| #[trigger]
                lists_import(imports_by_module@, importer, imported) ==> final(self).holds_import_between(
                    importer,
                    imported,
                ),
            forall|u: ModuleToken, v: ModuleToken| #[trigger]
                final(self).imports_of(u).contains(v) ==> old(self).imports_of(u).contains(v)
                    || lists_import(
                    imports_by_module@,
                    final(self).names()[u as int],
                    final(self).names()[v as int],
                ),
            forall|t: int|
                old(self).names().len() <= t < final(self).names().len()
                    ==> imports_by_module@.contains_key(#[trigger] final(self).names()[t]) || exists|
                    importer: Seq<char>,
                | #[trigger] lists_import(imports_by_module@, importer, final(self).names()[t]),
    {
        let ghost start = *self;
        let entries = imports_by_module.entries();
        let mut i: usize = 0;
        assert(entries@.take(0) =~= Seq::<(Module, Vec<DirectImport>)>::empty());
        while i < entries.len()
            invariant
                i <= entries@.len(),
                distinct_modules(entries@),
                start.wf(),
                self.wf(),
                self.extends(&start),
                forall|module: Seq<char>| #[trigger]
                    entries_imports(entries@.take(i as int)).contains_key(module)
                        ==> self.names().contains(module),
                forall|importer: Seq<char>, imported: Seq<char>| #[trigger]
                    lists_import(entries_imports(entries@.take(i as int)), importer, imported)
                        ==> self.holds_import_between(importer, imported),
                forall|u: ModuleToken, v: ModuleToken| #[trigger]
                    self.imports_of(u).contains(v) ==> start.imports_of(u).contains(v)
                        || lists_import(
                        entries_imports(entries@.take(i as int)),
                        self.names()[u as int],
                        self.names()[v as int],
                    ),
                forall|t: int|
                    start.names().len() <= t < self.names().len() ==> entries_imports(
                        entries@.take(i as int),
                    ).contains_key(#[trigger] self.names()[t]) || exists|importer: Seq<char>| #[trigger]
                        lists_import(
                            entries_imports(entries@.take(i as int)),
                            importer,
                            self.names()[t],
                        ),
            decreases entries.len() - i,
        {
            let ghost before = *self;
            let ghost done = entries_imports(entries@.take(i as int));
            let ghost next = entries_imports(entries@.take(i + 1));
            let ghost key = entries@[i as int].0@;
            let ghost listed = import_set(entries@[i as int].1@);
            proof {
                let shorter = entries@.take(i as int);
                let longer = entries@.take(i + 1);
                assert(longer.drop_last() =~= shorter);
                assert(longer.last() == entries@[i as int]);
                assert(next == done.insert(key, listed));
                lemma_module_entries(shorter, key);
                assert(!done.contains_key(key)) by {
                    if exists|j: int| 0 <= j < shorter.len() && (#[trigger] shorter[j]).0@ == key {
                        let j = choose|j: int|
                            0 <= j < shorter.len() && (#[trigger] shorter[j]).0@ == key;
                        assert(entries@[j].0@ == entries@[i as int].0@);
                    }
                }
            }
            let token = self.add_module_imports(&entries[i].0, &entries[i].1);
            proof {
                self.lemma_well_formed();
                before.lemma_well_formed();
                assert(self.extends(&start));
                assert forall|module: Seq<char>| #[trigger]
                    next.contains_key(module) implies self.names().contains(module) by {
                    if module == key {
                        assert(self.names()[token as int] == module);
                    } else {
                        assert(done.contains_key(module));
                        let t = choose|t: int|
                            0 <= t < before.names().len() && before.names()[t] == module;
                        assert(self.names()[t] == module);
                    }
                }
                assert forall|importer: Seq<char>, imported: Seq<char>| #[trigger]
                    lists_import(next, importer, imported) implies self.holds_import_between(
                    importer,
                    imported,
                ) by {
                    if importer == key {
                        assert(imports_name(listed, imported));
                        assert(self.imports_named(token, imported));
                    } else {
                        assert(lists_import(done, importer, imported));
                        let u = choose|u: ModuleToken|
                            u < before.names().len() && before.names()[u as int] == importer
                                && #[trigger] before.imports_named(u, imported);
                        let v = choose|v: ModuleToken|
                            v < before.names().len() && before.names()[v as int] == imported
                                && #[trigger] before.imports_of(u).contains(v);
                        assert(self.imports_of(u).contains(v));
                        assert(self.imports_named(u, imported));
                    }
                }
                assert forall|u: ModuleToken, v: ModuleToken| #[trigger]
                    self.imports_of(u).contains(v) implies start.imports_of(u).contains(v)
                    || lists_import(next, self.names()[u as int], self.names()[v as int]) by {
                    assert(u < self.names().len() && v < self.names().len());
                    if before.imports_of(u).contains(v) {
                        assert(u < before.names().len() && v < before.names().len());
                        if !start.imports_of(u).contains(v) {
                            assert(lists_import(
                                done,
                                before.names()[u as int],
                                before.names()[v as int],
                            ));
                            assert(before.names()[u as int] != key);
                        }
                    } else {
                        assert(u == token);
                    }
                }
                assert forall|t: int|
                    start.names().len() <= t < self.names().len() implies next.contains_key(
                    #[trigger] self.names()[t],
                ) || exists|importer: Seq<char>| #[trigger]
                    lists_import(next, importer, self.names()[t]) by {
                    if t < before.names().len() {
                        if !done.contains_key(before.names()[t]) {
                            let importer = choose|importer: Seq<char>| #[trigger]
                                lists_import(done, importer, before.names()[t]);
                            assert(importer != key);
                            assert(lists_import(next, importer, self.names()[t]));
                        }
                    } else if t != token {
                        assert(lists_import(next, key, self.names()[t]));
                    }
                }
            }
            i = i + 1;
        }
        proof {
            assert(entries@.take(entries@.len() as int) =~= entries@);
        }
    }
}

} // verus!

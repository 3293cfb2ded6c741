//! Queries over the import graph: what lies upstream and downstream of a
//! module, and by which chains of imports one module reaches another.
use crate::errors::GrimpError;
use crate::graph::pathfinding::{
    connects, excluded_edges, find_reach, find_shortest_path, holds_unknown, is_chain,
    is_shortest_chain, no_chain, reach,
};
use crate::graph::{
    finite_adjacency, holds_token, import_pairs, insert_token, lemma_import_pairs_finite,
    put_targets, take_targets, tokens_of, Graph, ModuleToken,
};
use rustc_hash::{FxHashMap, FxHashSet};
use vstd::prelude::*;

verus! {

/// What each chain of a list holds.
pub open spec fn chain_views(chains: Seq<Vec<ModuleToken>>) -> Seq<Seq<ModuleToken>> {
    chains.map_values(|chain: Vec<ModuleToken>| chain@)
}

/// Whether `edge` is an import from one module of the chain to the next.
pub open spec fn on_chain(chain: Seq<ModuleToken>, edge: (ModuleToken, ModuleToken)) -> bool {
    exists|j: int| 0 <= j < chain.len() - 1 && #[trigger] chain[j] == edge.0 && chain[j + 1] == edge.1
}

/// The imports that the chains pass over.
pub open spec fn chain_edges(chains: Seq<Seq<ModuleToken>>) -> Set<(ModuleToken, ModuleToken)> {
    Set::new(
        |edge: (ModuleToken, ModuleToken)|
            exists|i: int| 0 <= i < chains.len() && on_chain(#[trigger] chains[i], edge),
    )
}

/// Whether each of `chains` is a shortest chain once the imports of all
/// chains before it are excluded.
pub open spec fn peeled_in_turn(
    imports: Seq<Set<ModuleToken>>,
    from_modules: Set<ModuleToken>,
    to_modules: Set<ModuleToken>,
    excluded_modules: Set<ModuleToken>,
    chains: Seq<Seq<ModuleToken>>,
) -> bool {
    forall|i: int|
        0 <= i < chains.len() ==> is_shortest_chain(
            imports,
            from_modules,
            to_modules,
            excluded_modules,
            chain_edges(chains.take(i)),
            #[trigger] chains[i],
        )
}

/// Whether `chains` is what peeling yields: each chain is a shortest chain
/// once the imports of all chains before it are excluded, and once the
/// imports of all of them are excluded no chain is left.
pub open spec fn is_peel(
    imports: Seq<Set<ModuleToken>>,
    from_modules: Set<ModuleToken>,
    to_modules: Set<ModuleToken>,
    excluded_modules: Set<ModuleToken>,
    chains: Seq<Seq<ModuleToken>>,
) -> bool {
    &&& peeled_in_turn(imports, from_modules, to_modules, excluded_modules, chains)
    &&& no_chain(imports, from_modules, to_modules, excluded_modules, chain_edges(chains))
}

/// Whether `removed` lists the excluded imports, each once, all between
/// tokens below `count`.
spec fn lists_edges(
    removed: Seq<(ModuleToken, ModuleToken)>,
    edges: Set<(ModuleToken, ModuleToken)>,
    count: nat,
) -> bool {
    &&& removed.no_duplicates()
    &&& forall|k: int| 0 <= k < removed.len() ==> removed[k].0 < count && removed[k].1 < count
    &&& forall|edge: (ModuleToken, ModuleToken)| #[trigger]
        removed.contains(edge) <==> edges.contains(edge)
}

/// One more chain peeled: the chains stay peeled in turn, and their
/// imports are those of the chains before and of the new one.
proof fn lemma_peel_step(
    imports: Seq<Set<ModuleToken>>,
    from_modules: Set<ModuleToken>,
    to_modules: Set<ModuleToken>,
    excluded_modules: Set<ModuleToken>,
    chains: Seq<Seq<ModuleToken>>,
    chain: Seq<ModuleToken>,
)
    requires
        peeled_in_turn(imports, from_modules, to_modules, excluded_modules, chains),
        is_shortest_chain(
            imports,
            from_modules,
            to_modules,
            excluded_modules,
            chain_edges(chains),
            chain,
        ),
    ensures
        peeled_in_turn(imports, from_modules, to_modules, excluded_modules, chains.push(chain)),
        chain_edges(chains.push(chain)) == chain_edges(chains).union(
            Set::new(|edge: (ModuleToken, ModuleToken)| on_chain(chain, edge)),
        ),
{
    let more = chains.push(chain);
    let last = chains.len() as int;
    assert(more.take(last) =~= chains);
    assert forall|i: int| 0 <= i < more.len() implies is_shortest_chain(
        imports,
        from_modules,
        to_modules,
        excluded_modules,
        chain_edges(more.take(i)),
        #[trigger] more[i],
    ) by {
        if i < last {
            assert(more.take(i) =~= chains.take(i));
            assert(more[i] == chains[i]);
        }
    }
    let added = Set::new(|edge: (ModuleToken, ModuleToken)| on_chain(chain, edge));
    assert forall|edge: (ModuleToken, ModuleToken)|
        chain_edges(more).contains(edge) == chain_edges(chains).union(added).contains(edge) by {
        if chain_edges(chains).contains(edge) {
            let i = choose|i: int| 0 <= i < chains.len() && on_chain(#[trigger] chains[i], edge);
            assert(on_chain(more[i], edge));
        }
        if on_chain(chain, edge) {
            assert(on_chain(more[last], edge));
        }
        if chain_edges(more).contains(edge) {
            let i = choose|i: int| 0 <= i < more.len() && on_chain(#[trigger] more[i], edge);
            if i < last {
                assert(on_chain(chains[i], edge));
            }
        }
    }
    assert(chain_edges(more) =~= chain_edges(chains).union(added));
}

/// Whether a module that is not excluded is both a start and an end.
pub open spec fn overlapping(
    from_modules: Set<ModuleToken>,
    to_modules: Set<ModuleToken>,
    excluded_modules: Set<ModuleToken>,
) -> bool {
    exists|t: ModuleToken|
        #[trigger] from_modules.contains(t) && to_modules.contains(t) && !excluded_modules.contains(t)
}

/// Distinct numbers from zero up to a bound are no more than the bound.
proof fn lemma_distinct_numbers(numbers: Seq<int>, bound: nat)
    requires
        numbers.no_duplicates(),
        forall|i: int| 0 <= i < numbers.len() ==> 0 <= #[trigger] numbers[i] < bound,
    ensures
        numbers.len() <= bound,
    decreases bound,
{
    if numbers.len() > 0 {
        if bound == 0 {
            assert(numbers[0] < bound);
        } else {
            let top = bound - 1;
            if exists|k: int| 0 <= k < numbers.len() && numbers[k] == top {
                let k = choose|k: int| 0 <= k < numbers.len() && numbers[k] == top;
                let rest = numbers.remove(k);
                assert forall|i: int| 0 <= i < rest.len() implies 0 <= #[trigger] rest[i] < bound - 1 by {
                    if i < k {
                        assert(rest[i] == numbers[i]);
                    } else {
                        assert(rest[i] == numbers[i + 1]);
                    }
                }
                assert(rest.no_duplicates()) by {
                    assert forall|i: int, j: int|
                        0 <= i < rest.len() && 0 <= j < rest.len() && i != j implies rest[i]
                        != rest[j] by {
                        let oi = if i < k { i } else { i + 1 };
                        let oj = if j < k { j } else { j + 1 };
                        assert(rest[i] == numbers[oi]);
                        assert(rest[j] == numbers[oj]);
                    }
                }
                lemma_distinct_numbers(rest, (bound - 1) as nat);
            } else {
                assert forall|i: int| 0 <= i < numbers.len() implies 0 <= #[trigger] numbers[i] < bound - 1 by {
                    assert(numbers[i] < bound);
                }
                lemma_distinct_numbers(numbers, (bound - 1) as nat);
            }
        }
    }
}

/// The number of pairs of numbers below `n`.
#[verifier::opaque]
spec fn square(n: nat) -> nat {
    n * n
}

/// Distinct pairs of tokens below a bound are no more than its square.
proof fn lemma_distinct_pairs(pairs: Seq<(ModuleToken, ModuleToken)>, bound: nat)
    requires
        pairs.no_duplicates(),
        forall|i: int| 0 <= i < pairs.len() ==> pairs[i].0 < bound && pairs[i].1 < bound,
    ensures
        pairs.len() <= square(bound),
{
    reveal(square);
    let numbers = Seq::new(pairs.len(), |i: int| pairs[i].0 * bound + pairs[i].1);
    assert forall|i: int| 0 <= i < numbers.len() implies 0 <= #[trigger] numbers[i] < bound * bound by {
        let a = pairs[i].0 as int;
        let b = pairs[i].1 as int;
        let n = bound as int;
        assert(0 <= a * n + b < n * n) by (nonlinear_arith)
            requires
                0 <= a < n,
                0 <= b < n,
        ;
    }
    assert forall|i: int, j: int|
        0 <= i < numbers.len() && 0 <= j < numbers.len() && i != j implies numbers[i]
        != numbers[j] by {
        let a = pairs[i].0 as int;
        let b = pairs[i].1 as int;
        let c = pairs[j].0 as int;
        let d = pairs[j].1 as int;
        let n = bound as int;
        if a * n + b == c * n + d {
            assert(a == c && b == d) by (nonlinear_arith)
                requires
                    a * n + b == c * n + d,
                    0 <= a,
                    0 <= c,
                    0 <= b < n,
                    0 <= d < n,
            ;
            assert(pairs[i] == pairs[j]);
        }
    }
    lemma_distinct_numbers(numbers, bound * bound);
}

/// Excludes one import: afterwards it is excluded besides those that were.
fn exclude_import(
    excluded_imports: &mut FxHashMap<ModuleToken, FxHashSet<ModuleToken>>,
    importer: ModuleToken,
    imported: ModuleToken,
)
    ensures
        excluded_edges(final(excluded_imports)@) == excluded_edges(old(excluded_imports)@).insert(
            (importer, imported),
        ),
{
    let ghost before = excluded_imports@;
    let mut targets = match take_targets(excluded_imports, importer) {
        Some(targets) => targets,
        None => FxHashSet::default(),
    };
    let ghost held = targets@;
    insert_token(&mut targets, imported);
    put_targets(excluded_imports, importer, targets);
    proof {
        let after = excluded_imports@;
        assert forall|edge: (ModuleToken, ModuleToken)|
            excluded_edges(after).contains(edge) == excluded_edges(before).insert(
                (importer, imported),
            ).contains(edge) by {
            if edge.0 == importer {
                assert(after[importer]@ == held.insert(imported));
                if before.contains_key(importer) {
                    assert(held == before[importer]@);
                } else {
                    assert(held == Set::<ModuleToken>::empty());
                }
            } else {
                assert(after.contains_key(edge.0) == before.contains_key(edge.0));
                if before.contains_key(edge.0) {
                    assert(after[edge.0] == before[edge.0]);
                }
            }
        }
        assert(excluded_edges(after) =~= excluded_edges(before).insert((importer, imported)));
    }
}

/// Whether every pair of the list is an import of the table.
spec fn all_imports(removed: Seq<(ModuleToken, ModuleToken)>, table: Seq<Set<ModuleToken>>) -> bool {
    forall|k: int| 0 <= k < removed.len() ==> import_pairs(table).contains(#[trigger] removed[k])
}

/// Distinct imports of a table are no more than the table has.
proof fn lemma_distinct_imports_bounded(
    removed: Seq<(ModuleToken, ModuleToken)>,
    table: Seq<Set<ModuleToken>>,
)
    requires
        removed.no_duplicates(),
        all_imports(removed, table),
        finite_adjacency(table),
    ensures
        removed.len() <= import_pairs(table).len(),
{
    lemma_import_pairs_finite(table);
    removed.unique_seq_to_set();
    assert(removed.to_set().subset_of(import_pairs(table))) by {
        assert forall|edge: (ModuleToken, ModuleToken)| removed.to_set().contains(
            edge,
        ) implies import_pairs(table).contains(edge) by {
            let k = choose|k: int| 0 <= k < removed.len() && removed[k] == edge;
            assert(import_pairs(table).contains(removed[k]));
        }
    }
    vstd::set_lib::lemma_len_subset(removed.to_set(), import_pairs(table));
}

/// A list of excluded imports of a table is no longer than the table has
/// imports.
proof fn lemma_listed_imports_bounded(
    removed: Seq<(ModuleToken, ModuleToken)>,
    edges: Set<(ModuleToken, ModuleToken)>,
    count: nat,
    table: Seq<Set<ModuleToken>>,
)
    requires
        lists_edges(removed, edges, count),
        all_imports(removed, table),
        finite_adjacency(table),
    ensures
        removed.len() <= import_pairs(table).len(),
{
    lemma_distinct_imports_bounded(removed, table);
}

/// Every step of a chain is an import of the table.
proof fn lemma_chain_imports(
    table: Seq<Set<ModuleToken>>,
    excluded_modules: Set<ModuleToken>,
    excluded_imports: Set<(ModuleToken, ModuleToken)>,
    chain: Seq<ModuleToken>,
)
    requires
        is_chain(table, excluded_modules, excluded_imports, chain),
    ensures
        forall|j: int|
            0 <= j < chain.len() - 1 ==> import_pairs(table).contains(
                (#[trigger] chain[j], chain[j + 1]),
            ),
{
    assert forall|j: int| 0 <= j < chain.len() - 1 implies import_pairs(table).contains(
        (#[trigger] chain[j], chain[j + 1]),
    ) by {
        assert(chain[j] < table.len());
        assert(table[chain[j] as int].contains(chain[j + 1]));
    }
}

/// Excludes the imports that a chain passes over.
fn exclude_chain(
    excluded_imports: &mut FxHashMap<ModuleToken, FxHashSet<ModuleToken>>,
    chain: &Vec<ModuleToken>,
    Ghost(removed): Ghost<Seq<(ModuleToken, ModuleToken)>>,
    Ghost(count): Ghost<nat>,
    Ghost(table): Ghost<Seq<Set<ModuleToken>>>,
) -> (more: Ghost<Seq<(ModuleToken, ModuleToken)>>)
    requires
        chain@.len() >= 2,
        forall|j: int| 0 <= j < chain@.len() ==> chain@[j] < count,
        forall|j: int|
            0 <= j < chain@.len() - 1 ==> import_pairs(table).contains(
                (#[trigger] chain@[j], chain@[j + 1]),
            ),
        !excluded_edges(old(excluded_imports)@).contains((chain@[0], chain@[1])),
        lists_edges(removed, excluded_edges(old(excluded_imports)@), count),
        all_imports(removed, table),
    ensures
        excluded_edges(final(excluded_imports)@) == excluded_edges(old(excluded_imports)@).union(
            Set::new(|edge: (ModuleToken, ModuleToken)| on_chain(chain@, edge)),
        ),
        lists_edges(more@, excluded_edges(final(excluded_imports)@), count),
        all_imports(more@, table),
        more@.len() > removed.len(),
{
    let ghost edges_before = excluded_edges(excluded_imports@);
    let ghost mut listed = removed;
    let mut k: usize = 0;
    while k < chain.len() - 1
        invariant
            k + 1 <= chain@.len(),
            chain@.len() >= 2,
            forall|j: int| 0 <= j < chain@.len() ==> chain@[j] < count,
            forall|j: int|
                0 <= j < chain@.len() - 1 ==> import_pairs(table).contains(
                    (#[trigger] chain@[j], chain@[j + 1]),
                ),
            all_imports(listed, table),
            !edges_before.contains((chain@[0], chain@[1])),
            forall|edge: (ModuleToken, ModuleToken)| #[trigger]
                excluded_edges(excluded_imports@).contains(edge) <==> edges_before.contains(edge)
                    || exists|j: int|
                    0 <= j < k && #[trigger] chain@[j] == edge.0 && chain@[j + 1] == edge.1,
            lists_edges(listed, excluded_edges(excluded_imports@), count),
            listed.len() >= removed.len(),
            k >= 1 ==> listed.len() > removed.len(),
        decreases chain.len() - k,
    {
        let importer = chain[k];
        let imported = chain[k + 1];
        let ghost edges_now = excluded_edges(excluded_imports@);
        let ghost listed_now = listed;
        exclude_import(excluded_imports, importer, imported);
        proof {
            if !edges_now.contains((importer, imported)) {
                lemma_push_pair(listed_now, (importer, imported));
                listed = listed.push((importer, imported));
                assert(import_pairs(table).contains((chain@[k as int], chain@[k + 1])));
                assert forall|m: int| 0 <= m < listed.len() implies import_pairs(table).contains(
                    #[trigger] listed[m],
                ) by {
                    if m < listed_now.len() {
                        assert(listed[m] == listed_now[m]);
                    }
                }
            }
            assert forall|edge: (ModuleToken, ModuleToken)| #[trigger]
                excluded_edges(excluded_imports@).contains(edge) <==> edges_before.contains(edge)
                    || exists|j: int|
                    0 <= j < k + 1 && #[trigger] chain@[j] == edge.0 && chain@[j + 1] == edge.1 by {
                if edge == (importer, imported) {
                    assert(chain@[k as int] == edge.0 && chain@[k + 1] == edge.1);
                }
                if edges_now.contains(edge) && !edges_before.contains(edge) {
                    let j = choose|j: int|
                        0 <= j < k && #[trigger] chain@[j] == edge.0 && chain@[j + 1] == edge.1;
                    assert(0 <= j < k + 1 && chain@[j] == edge.0 && chain@[j + 1] == edge.1);
                }
            }
        }
        k = k + 1;
    }
    proof {
        let added = Set::new(|edge: (ModuleToken, ModuleToken)| on_chain(chain@, edge));
        assert(excluded_edges(excluded_imports@) =~= edges_before.union(added));
    }
    Ghost(listed)
}

impl Graph {
    /// The modules a query starts from: the module, and with it all its
    /// descendants where it is taken as a package.
    pub open spec fn seeds_of(&self, module: ModuleToken, as_package: bool) -> Set<ModuleToken> {
        if as_package {
            self.expanded(set![module])
        } else {
            set![module]
        }
    }

    /// Builds the set that a query on `module` starts from.
    fn seed_set(&self, module: ModuleToken, as_package: bool) -> (seeds: FxHashSet<ModuleToken>)
        ensures
            seeds@ == self.seeds_of(module, as_package),
    {
        let mut seeds: FxHashSet<ModuleToken> = FxHashSet::default();
        insert_token(&mut seeds, module);
        assert(seeds@ =~= set![module]);
        if as_package {
            self.with_descendants(&seeds)
        } else {
            seeds
        }
    }

    /// The modules that import `module`, directly or over other modules.
    pub fn find_downstream_modules(&self, module: ModuleToken, as_package: bool) -> (downstream:
        FxHashSet<ModuleToken>)
        requires
            self.wf(),
        ensures
            downstream@ == reach(self.reverse_imports_view(), self.seeds_of(module, as_package)),
    {
        proof {
            self.lemma_well_formed();
        }
        let from_modules = self.seed_set(module, as_package);
        find_reach(self.reverse_imports(), &from_modules)
    }

    /// The modules that `module` imports, directly or over other modules.
    pub fn find_upstream_modules(&self, module: ModuleToken, as_package: bool) -> (upstream:
        FxHashSet<ModuleToken>)
        requires
            self.wf(),
        ensures
            upstream@ == reach(self.imports_view(), self.seeds_of(module, as_package)),
    {
        proof {
            self.lemma_well_formed();
        }
        let from_modules = self.seed_set(module, as_package);
        find_reach(self.imports(), &from_modules)
    }

    /// A shortest chain of imports from `importer` to `imported`, if there
    /// is a chain; taken as packages, from either module or one of its
    /// descendants. A module that is both a start and an end is a chain
    /// by itself. Fails if the graph lacks one of the two tokens.
    pub fn find_shortest_chain(
        &self,
        importer: ModuleToken,
        imported: ModuleToken,
        as_packages: bool,
    ) -> (found: Result<Option<Vec<ModuleToken>>, GrimpError>)
        requires
            self.wf(),
        ensures
            found is Err <==> importer >= self.names().len() || imported >= self.names().len(),
            found matches Err(e) ==> e is InvariantViolation,
            found matches Ok(Some(chain)) ==> is_shortest_chain(
                self.imports_view(),
                self.seeds_of(importer, as_packages),
                self.seeds_of(imported, as_packages),
                Set::empty(),
                Set::empty(),
                chain@,
            ),
            found matches Ok(None) ==> no_chain(
                self.imports_view(),
                self.seeds_of(importer, as_packages),
                self.seeds_of(imported, as_packages),
                Set::empty(),
                Set::empty(),
            ),
    {
        let from_modules = self.seed_set(importer, as_packages);
        let to_modules = self.seed_set(imported, as_packages);
        let excluded_modules: FxHashSet<ModuleToken> = FxHashSet::default();
        let excluded_imports: FxHashMap<ModuleToken, FxHashSet<ModuleToken>> = FxHashMap::default();
        proof {
            assert(excluded_edges(excluded_imports@) =~= Set::empty());
            self.lemma_seeds_known(importer, as_packages);
            self.lemma_seeds_known(imported, as_packages);
        }
        self.find_shortest_chain_with_excluded_modules_and_imports(
            &from_modules,
            &to_modules,
            &excluded_modules,
            &excluded_imports,
        )
    }

    /// The seeds of a query hold a token that the graph lacks exactly if
    /// the module itself is such a token.
    pub proof fn lemma_seeds_known(&self, module: ModuleToken, as_package: bool)
        ensures
            holds_unknown(self.seeds_of(module, as_package), self.names().len()) <==> module
                >= self.names().len(),
    {
        let seeds = self.seeds_of(module, as_package);
        if module >= self.names().len() {
            assert(seeds.contains(module));
        }
        if holds_unknown(seeds, self.names().len()) {
            let t = choose|t: ModuleToken| #[trigger] seeds.contains(t) && t >= self.names().len();
            if t != module {
                let m = choose|m: ModuleToken|
                    set![module].contains(m) && #[trigger] self.descendants_of(m).contains(t);
                assert(false);
            }
        }
    }

    /// A shortest chain of imports from one of `from_modules` to one of
    /// `to_modules`, through no excluded module and over no excluded
    /// import, if there is such a chain. Fails if `from_modules` or
    /// `to_modules` holds a token that the graph lacks.
    pub fn find_shortest_chain_with_excluded_modules_and_imports(
        &self,
        from_modules: &FxHashSet<ModuleToken>,
        to_modules: &FxHashSet<ModuleToken>,
        excluded_modules: &FxHashSet<ModuleToken>,
        excluded_imports: &FxHashMap<ModuleToken, FxHashSet<ModuleToken>>,
    ) -> (found: Result<Option<Vec<ModuleToken>>, GrimpError>)
        requires
            self.wf(),
        ensures
            found is Err <==> holds_unknown(from_modules@, self.names().len()) || holds_unknown(
                to_modules@,
                self.names().len(),
            ),
            found matches Err(e) ==> e is InvariantViolation,
            found matches Ok(Some(chain)) ==> is_shortest_chain(
                self.imports_view(),
                from_modules@,
                to_modules@,
                excluded_modules@,
                excluded_edges(excluded_imports@),
                chain@,
            ),
            found matches Ok(None) ==> no_chain(
                self.imports_view(),
                from_modules@,
                to_modules@,
                excluded_modules@,
                excluded_edges(excluded_imports@),
            ),
    {
        find_shortest_path(self, from_modules, to_modules, excluded_modules, excluded_imports)
    }

    /// Whether there is a chain of imports from `importer` to `imported`;
    /// taken as packages, from either module or one of its descendants.
    /// Fails if the graph lacks one of the two tokens.
    pub fn chain_exists(&self, importer: ModuleToken, imported: ModuleToken, as_packages: bool) -> (exists_:
        Result<bool, GrimpError>)
        requires
            self.wf(),
        ensures
            exists_ is Err <==> importer >= self.names().len() || imported >= self.names().len(),
            exists_ matches Err(e) ==> e is InvariantViolation,
            exists_ matches Ok(b) ==> b == !no_chain(
                self.imports_view(),
                self.seeds_of(importer, as_packages),
                self.seeds_of(imported, as_packages),
                Set::empty(),
                Set::empty(),
            ),
    {
        match self.find_shortest_chain(importer, imported, as_packages) {
            Ok(found) => Ok(found.is_some()),
            Err(e) => Err(e),
        }
    }

    /// The chains that peeling yields between `importer` and `imported`:
    /// a shortest chain is found, its imports are excluded, and so on
    /// until no chain is left. Taken as packages, the chains lead from
    /// either module or one of its descendants. Fails if the graph lacks
    /// one of the two tokens, or if a module is both a start and an end.
    pub fn find_shortest_chains(
        &self,
        importer: ModuleToken,
        imported: ModuleToken,
        as_packages: bool,
    ) -> (found: Result<Vec<Vec<ModuleToken>>, GrimpError>)
        requires
            self.wf(),
        ensures
            found is Err <==> importer >= self.names().len() || imported >= self.names().len()
                || overlapping(
                self.seeds_of(importer, as_packages),
                self.seeds_of(imported, as_packages),
                Set::empty(),
            ),
            found matches Err(e) ==> e is InvariantViolation,
            found matches Ok(chains) ==> is_peel(
                self.imports_view(),
                self.seeds_of(importer, as_packages),
                self.seeds_of(imported, as_packages),
                Set::empty(),
                chain_views(chains@),
            ),
            found matches Ok(chains) ==> chains@.len() <= import_pairs(self.imports_view()).len(),
    {
        proof {
            self.lemma_seeds_known(importer, as_packages);
            self.lemma_seeds_known(imported, as_packages);
        }
        let ghost from = self.seeds_of(importer, as_packages);
        let ghost to = self.seeds_of(imported, as_packages);
        match self.chain_exists(importer, imported, as_packages) {
            Err(e) => {
                return Err(e);
            },
            Ok(false) => {
                let chains: Vec<Vec<ModuleToken>> = Vec::new();
                proof {
                    assert(chain_edges(chain_views(chains@)) =~= Set::empty());
                    if overlapping(from, to, Set::empty()) {
                        let t = choose|t: ModuleToken|
                            #[trigger] from.contains(t) && to.contains(t) && !Set::<
                                ModuleToken,
                            >::empty().contains(t);
                        let single = seq![t];
                        assert(is_chain(self.imports_view(), Set::empty(), Set::empty(), single));
                        assert(connects(single, from, to));
                    }
                }
                return Ok(chains);
            },
            Ok(true) => {},
        }
        let downstream_modules = self.seed_set(importer, as_packages);
        let upstream_modules = self.seed_set(imported, as_packages);
        let excluded_modules: FxHashSet<ModuleToken> = FxHashSet::default();
        self._find_shortest_chains(&downstream_modules, &upstream_modules, &excluded_modules)
    }

    /// Peels shortest chains from `from_modules` to `to_modules`: finds
    /// one, excludes its imports, and goes on until no chain is left.
    /// Fails if `from_modules` or `to_modules` holds a token that the
    /// graph lacks, or if a module that is not excluded is in both: its
    /// chain of one module has no import to exclude.
    pub fn _find_shortest_chains(
        &self,
        from_modules: &FxHashSet<ModuleToken>,
        to_modules: &FxHashSet<ModuleToken>,
        excluded_modules: &FxHashSet<ModuleToken>,
    ) -> (found: Result<Vec<Vec<ModuleToken>>, GrimpError>)
        requires
            self.wf(),
        ensures
            found is Err <==> holds_unknown(from_modules@, self.names().len()) || holds_unknown(
                to_modules@,
                self.names().len(),
            ) || overlapping(from_modules@, to_modules@, excluded_modules@),
            found matches Err(e) ==> e is InvariantViolation,
            found matches Ok(chains) ==> is_peel(
                self.imports_view(),
                from_modules@,
                to_modules@,
                excluded_modules@,
                chain_views(chains@),
            ),
            found matches Ok(chains) ==> chains@.len() <= import_pairs(self.imports_view()).len(),
    {
        let ghost table = self.imports_view();
        let ghost from = from_modules@;
        let ghost to = to_modules@;
        let ghost barred = excluded_modules@;
        let count = self.module_count();
        let seed_list = tokens_of(from_modules);
        let mut i: usize = 0;
        while i < seed_list.len()
            invariant
                i <= seed_list.len(),
                seed_list@.to_set() == from_modules@,
                forall|k: int|
                    0 <= k < i ==> !(to_modules@.contains(seed_list@[k])
                        && !excluded_modules@.contains(seed_list@[k])),
            decreases seed_list.len() - i,
        {
            let seed = seed_list[i];
            if holds_token(to_modules, seed) && !holds_token(excluded_modules, seed) {
                assert(seed_list@.to_set().contains(seed_list@[i as int]));
                assert(from_modules@.contains(seed));
                return Err(GrimpError::InvariantViolation("shared module".to_owned()));
            }
            i = i + 1;
        }
        proof {
            if overlapping(from, to, barred) {
                let t = choose|t: ModuleToken|
                    #[trigger] from.contains(t) && to.contains(t) && !barred.contains(t);
                assert(seed_list@.to_set().contains(t));
                assert(seed_list@.contains(t));
            }
        }
        let mut chains: Vec<Vec<ModuleToken>> = Vec::new();
        let mut excluded_imports: FxHashMap<ModuleToken, FxHashSet<ModuleToken>> =
            FxHashMap::default();
        let ghost mut removed: Seq<(ModuleToken, ModuleToken)> = Seq::empty();
        proof {
            assert(excluded_edges(excluded_imports@) =~= chain_edges(chain_views(chains@)));
            self.lemma_well_formed();
        }
        loop
            invariant
                self.wf(),
                table == self.imports_view(),
                from == from_modules@,
                to == to_modules@,
                barred == excluded_modules@,
                count == self.names().len(),
                count == table.len(),
                !overlapping(from, to, barred),
                excluded_edges(excluded_imports@) == chain_edges(chain_views(chains@)),
                peeled_in_turn(table, from, to, barred, chain_views(chains@)),
                lists_edges(removed, excluded_edges(excluded_imports@), count as nat),
                all_imports(removed, table),
                finite_adjacency(table),
                chains@.len() <= removed.len(),
            decreases square(count as nat) - removed.len(),
        {
            proof {
                lemma_distinct_pairs(removed, count as nat);
                lemma_listed_imports_bounded(
                    removed,
                    excluded_edges(excluded_imports@),
                    count as nat,
                    table,
                );
            }
            let chain = match self.find_shortest_chain_with_excluded_modules_and_imports(
                from_modules,
                to_modules,
                excluded_modules,
                &excluded_imports,
            ) {
                Err(e) => {
                    return Err(e);
                },
                Ok(None) => {
                    return Ok(chains);
                },
                Ok(Some(chain)) => chain,
            };
            proof {
                if chain@.len() == 1 {
                    assert(from.contains(chain@[0]) && to.contains(chain@[0]) && !barred.contains(
                        chain@[0],
                    ));
                }
                assert(chain@[0] < count && !barred.contains(chain@[0]));
                assert(table[chain@[0] as int].contains(chain@[0int + 1]));
                lemma_peel_step(table, from, to, barred, chain_views(chains@), chain@);
                lemma_chain_imports(
                    table,
                    barred,
                    excluded_edges(excluded_imports@),
                    chain@,
                );
            }
            let more = exclude_chain(
                &mut excluded_imports,
                &chain,
                Ghost(removed),
                Ghost(count as nat),
                Ghost(table),
            );
            let ghost views_before = chain_views(chains@);
            let ghost chain_view = chain@;
            chains.push(chain);
            proof {
                removed = more@;
                assert(chain_views(chains@) =~= views_before.push(chain_view));
                lemma_distinct_pairs(removed, count as nat);
            }
        }
    }
}

/// Adding a pair that a list lacks keeps the list free of repetition.
proof fn lemma_push_pair(list: Seq<(ModuleToken, ModuleToken)>, pair: (ModuleToken, ModuleToken))
    requires
        list.no_duplicates(),
        !list.contains(pair),
    ensures
        list.push(pair).no_duplicates(),
        forall|x: (ModuleToken, ModuleToken)| #[trigger]
            list.push(pair).contains(x) <==> list.contains(x) || x == pair,
{
    let longer = list.push(pair);
    assert forall|a: int, b: int| 0 <= a < longer.len() && 0 <= b < longer.len() && a != b implies longer[a]
        != longer[b] by {
        if a < list.len() {
            assert(list.contains(list[a]));
        }
        if b < list.len() {
            assert(list.contains(list[b]));
        }
    }
    assert forall|x: (ModuleToken, ModuleToken)| #[trigger]
        longer.contains(x) <==> list.contains(x) || x == pair by {
        if list.contains(x) {
            let k = choose|k: int| 0 <= k < list.len() && list[k] == x;
            assert(longer[k] == x);
        }
        if x == pair {
            assert(longer[list.len() as int] == x);
        }
        if longer.contains(x) {
            let k = choose|k: int| 0 <= k < longer.len() && longer[k] == x;
            if k < list.len() {
                assert(list[k] == x);
            }
        }
    }
}

} // verus!

//! Statically analyses modules for the imports they issue: resolves each
//! parsed import to the absolute name it refers to, tells internal from
//! external imports, and distils external ones to a root that shadows no
//! internal namespace.
use crate::errors::{GrimpError, GrimpErrorView};
use crate::filesystem::{read_from, FileSystem};
use crate::module_finding::{
    get_modules_from_found_packages, holds_module, listed_modules, names_of, package_lists,
    package_names, FoundPackage, Module,
};
use crate::text::{
    chars_of, count_leading, free_of, join_chars, join_with, leading_count, lemma_join_split,
    lemma_split_join, lemma_split_pieces, same_chars, split_chars, split_on, starts_with,
    string_of, views,
};
use vstd::prelude::*;
use vstd::string::StringExecFns;

verus! {

/// One import statement: who imports, what is imported, and where.
#[derive(Debug, Clone, Hash, Eq, PartialEq)]
pub struct DirectImport {
    pub importer: String,
    pub imported: String,
    pub line_number: usize,
    pub line_contents: String,
}

/// What a `DirectImport` stands for.
pub struct DirectImportView {
    pub importer: Seq<char>,
    pub imported: Seq<char>,
    pub line_number: nat,
    pub line_contents: Seq<char>,
}

impl View for DirectImport {
    type V = DirectImportView;

    open spec fn view(&self) -> DirectImportView {
        DirectImportView {
            importer: self.importer@,
            imported: self.imported@,
            line_number: self.line_number as nat,
            line_contents: self.line_contents@,
        }
    }
}

/// An import as the parser reports it. `name` starts with one dot for each
/// level that a relative import climbs.
#[derive(Debug, Clone, Hash, Eq, PartialEq)]
pub struct ParsedImport {
    pub name: String,
    pub line_number: usize,
    pub line_contents: String,
    pub typechecking_only: bool,
}

/// What a `ParsedImport` stands for.
pub struct ParsedImportView {
    pub name: Seq<char>,
    pub line_number: nat,
    pub line_contents: Seq<char>,
    pub typechecking_only: bool,
}

impl View for ParsedImport {
    type V = ParsedImportView;

    open spec fn view(&self) -> ParsedImportView {
        ParsedImportView {
            name: self.name@,
            line_number: self.line_number as nat,
            line_contents: self.line_contents@,
            typechecking_only: self.typechecking_only,
        }
    }
}

/// The view of an optional name.
pub open spec fn name_view(name: Option<String>) -> Option<Seq<char>> {
    match name {
        Some(n) => Some(n@),
        None => None,
    }
}

/// How many dots open `name`.
pub open spec fn leading_dots(name: Seq<char>) -> nat {
    leading_count(name, '.')
}

/// Whether `name` lies strictly below `ancestor` in the dotted hierarchy.
pub open spec fn is_descendant(name: Seq<char>, ancestor: Seq<char>) -> bool {
    ancestor.push('.').is_prefix_of(name)
}

/// The dotted components of a name.
pub open spec fn components(name: Seq<char>) -> Seq<Seq<char>> {
    split_on(name, '.')
}

/// Whether a relative import stays within the importing module's top-level
/// package: it climbs no more levels than the module's name has components.
pub open spec fn stays_within(module_name: Seq<char>, imported_name: Seq<char>) -> bool {
    leading_dots(imported_name) <= components(module_name).len()
}

/// The absolute name that `imported_name` refers to when the module called
/// `module_name` imports it. A name without leading dots is absolute
/// already. With `k` leading dots the rest of the name is appended to a
/// base: the module itself for a package with one dot, otherwise the
/// module's name without its last `k` components (`k - 1` for a package).
pub open spec fn absolute_name(
    module_name: Seq<char>,
    is_package: bool,
    imported_name: Seq<char>,
) -> Seq<char> {
    let k = leading_dots(imported_name) as int;
    if k == 0 {
        imported_name
    } else {
        let parts = components(module_name);
        let base = if is_package {
            if k == 1 {
                module_name
            } else {
                join_with(parts.take(parts.len() - k + 1), '.')
            }
        } else {
            join_with(parts.take(parts.len() - k), '.')
        };
        base.push('.') + imported_name.skip(k)
    }
}

/// What precedes the last dot of `name`; empty if there is no dot.
pub open spec fn parent_name(name: Seq<char>) -> Seq<char>
    decreases name.len(),
{
    if name.len() == 0 {
        name
    } else if name.last() == '.' {
        name.drop_last()
    } else {
        parent_name(name.drop_last())
    }
}

/// The internal module that an absolute name refers to: the name itself if
/// it is a module; else, for a dotted name, what precedes its last dot if
/// that is a module (the import is of something defined there); else none.
pub open spec fn internal_module(name: Seq<char>, modules: Set<Seq<char>>) -> Option<Seq<char>> {
    if modules.contains(name) {
        Some(name)
    } else if !free_of(name, '.') && modules.contains(parent_name(name)) {
        Some(parent_name(name))
    } else {
        None
    }
}

/// How many leading components `a` and `b` have in common.
pub open spec fn shared_depth(a: Seq<Seq<char>>, b: Seq<Seq<char>>) -> nat
    decreases a.len(),
{
    if a.len() > 0 && b.len() > 0 && a[0] == b[0] {
        1 + shared_depth(a.drop_first(), b.drop_first())
    } else {
        0
    }
}

/// The most leading components that any of `packages` has in common with
/// `parts`; zero when none begins with the same component.
pub open spec fn deepest_shared(parts: Seq<Seq<char>>, packages: Seq<Seq<char>>) -> nat
    decreases packages.len(),
{
    if packages.len() == 0 {
        0
    } else {
        let rest = deepest_shared(parts, packages.drop_last());
        let this = shared_depth(components(packages.last()), parts);
        if this > rest {
            this
        } else {
            rest
        }
    }
}

/// Whether one of `packages` lies strictly below `name`.
pub open spec fn has_descendant_package(name: Seq<char>, packages: Seq<Seq<char>>) -> bool {
    exists|i: int| 0 <= i < packages.len() && is_descendant(#[trigger] packages[i], name)
}

/// The name under which an external import is recorded, if it is recorded.
///
/// A name above one of the packages is a parent namespace and is not
/// recorded. Otherwise, where packages begin with the same component as
/// the name, the result is what the name shares with the package that it
/// shares most with, plus the name's next component; the name itself if no
/// component is left. Where no package begins with the same component, the
/// result is the name's first component.
pub open spec fn distilled_external(name: Seq<char>, packages: Seq<Seq<char>>) -> Option<Seq<char>> {
    if has_descendant_package(name, packages) {
        None
    } else {
        let parts = components(name);
        let depth = deepest_shared(parts, packages);
        if depth == 0 {
            Some(parts[0])
        } else if depth < parts.len() {
            Some(join_with(parts.take(depth as int + 1), '.'))
        } else {
            Some(name)
        }
    }
}

/// The imports in `imports`, as a set.
pub open spec fn import_set(imports: Seq<DirectImport>) -> Set<DirectImportView> {
    Set::new(
        |d: DirectImportView| exists|i: int| 0 <= i < imports.len() && imports[i].view() == d,
    )
}

/// Whether no two imports in `imports` are equal.
pub open spec fn distinct_imports(imports: Seq<DirectImport>) -> bool {
    forall|i: int, j: int|
        0 <= i < j < imports.len() ==> (#[trigger] imports[i]).view() != (#[trigger] imports[j]).view()
}

/// Whether an import is passed over because it only serves type checking.
pub open spec fn passed_over(import: ParsedImportView, exclude_type_checking_imports: bool) -> bool {
    exclude_type_checking_imports && import.typechecking_only
}

/// What one parsed import of the module called `module_name` contributes:
/// nothing if it is passed over; an import of the internal module it
/// refers to, if there is one; else, where external packages are wanted,
/// an import of the distilled external name, if that is recorded.
pub open spec fn resolved_import(
    module_name: Seq<char>,
    is_package: bool,
    import: ParsedImportView,
    modules: Set<Seq<char>>,
    packages: Seq<Seq<char>>,
    include_external_packages: bool,
    exclude_type_checking_imports: bool,
) -> Option<DirectImportView> {
    if passed_over(import, exclude_type_checking_imports) {
        None
    } else {
        let absolute = absolute_name(module_name, is_package, import.name);
        let imported = match internal_module(absolute, modules) {
            Some(internal) => Some(internal),
            None => if include_external_packages {
                distilled_external(absolute, packages)
            } else {
                None
            },
        };
        match imported {
            Some(imported) => Some(
                DirectImportView {
                    importer: module_name,
                    imported,
                    line_number: import.line_number,
                    line_contents: import.line_contents,
                },
            ),
            None => None,
        }
    }
}

/// What the parsed imports of a module contribute together.
pub open spec fn resolved_imports(
    module_name: Seq<char>,
    is_package: bool,
    imports: Seq<ParsedImport>,
    modules: Set<Seq<char>>,
    packages: Seq<Seq<char>>,
    include_external_packages: bool,
    exclude_type_checking_imports: bool,
) -> Set<DirectImportView> {
    Set::new(
        |d: DirectImportView|
            exists|i: int|
                0 <= i < imports.len() && resolved_import(
                    module_name,
                    is_package,
                    (#[trigger] imports[i]).view(),
                    modules,
                    packages,
                    include_external_packages,
                    exclude_type_checking_imports,
                ) == Some(d),
    )
}

/// Whether a parsed import is resolved and climbs above the top-level
/// package of the module that issues it.
pub open spec fn escapes(
    module_name: Seq<char>,
    import: ParsedImportView,
    exclude_type_checking_imports: bool,
) -> bool {
    !passed_over(import, exclude_type_checking_imports) && !stays_within(module_name, import.name)
}

/// What each parsed import of a list stands for.
pub open spec fn import_views(imports: Seq<ParsedImport>) -> Seq<ParsedImportView> {
    imports.map_values(|import: ParsedImport| import@)
}

/// The name of the first import that is resolved and climbs above the
/// top-level package of the module that issues it, if there is one.
pub open spec fn first_escaping(
    module_name: Seq<char>,
    imports: Seq<ParsedImportView>,
    exclude_type_checking_imports: bool,
) -> Option<Seq<char>>
    decreases imports.len(),
{
    if imports.len() == 0 {
        None
    } else if escapes(module_name, imports[0], exclude_type_checking_imports) {
        Some(imports[0].name)
    } else {
        first_escaping(module_name, imports.drop_first(), exclude_type_checking_imports)
    }
}

/// What resolving the parsed imports of a module gives: a failure that
/// names the first import that climbs too high, or else the direct
/// imports that the parsed imports contribute.
pub open spec fn resolution(
    module_name: Seq<char>,
    is_package: bool,
    imports: Seq<ParsedImportView>,
    modules: Set<Seq<char>>,
    packages: Seq<Seq<char>>,
    include_external_packages: bool,
    exclude_type_checking_imports: bool,
) -> Result<Set<DirectImportView>, GrimpErrorView> {
    match first_escaping(module_name, imports, exclude_type_checking_imports) {
        Some(name) => Err(GrimpErrorView::InvariantViolation(name)),
        None => Ok(
            Set::new(
                |d: DirectImportView|
                    exists|i: int|
                        0 <= i < imports.len() && resolved_import(
                            module_name,
                            is_package,
                            #[trigger] imports[i],
                            modules,
                            packages,
                            include_external_packages,
                            exclude_type_checking_imports,
                        ) == Some(d),
            ),
        ),
    }
}

/// The view of a list of direct imports, as a set, or of a failure.
pub open spec fn import_set_result_view(result: Result<Vec<DirectImport>, GrimpError>) -> Result<
    Set<DirectImportView>,
    GrimpErrorView,
> {
    match result {
        Ok(imports) => Ok(import_set(imports@)),
        Err(e) => Err(e@),
    }
}

/// The view of a list of parsed imports or of a failure.
pub open spec fn parse_result_view(result: Result<Vec<ParsedImport>, GrimpError>) -> Result<
    Seq<ParsedImportView>,
    GrimpErrorView,
> {
    match result {
        Ok(imports) => Ok(import_views(imports@)),
        Err(e) => Err(e@),
    }
}

/// An import that escapes, before which none does, is the first escaping.
pub proof fn lemma_first_escaping(
    module_name: Seq<char>,
    imports: Seq<ParsedImportView>,
    exclude_type_checking_imports: bool,
    i: int,
)
    requires
        0 <= i < imports.len(),
        escapes(module_name, imports[i], exclude_type_checking_imports),
        forall|j: int|
            0 <= j < i ==> !escapes(module_name, #[trigger] imports[j], exclude_type_checking_imports),
    ensures
        first_escaping(module_name, imports, exclude_type_checking_imports) == Some(imports[i].name),
    decreases imports.len(),
{
    if i > 0 {
        let rest = imports.drop_first();
        assert(!escapes(module_name, imports[0], exclude_type_checking_imports));
        assert(rest[i - 1] == imports[i]);
        assert forall|j: int| 0 <= j < i - 1 implies !escapes(
            module_name,
            #[trigger] rest[j],
            exclude_type_checking_imports,
        ) by {
            assert(rest[j] == imports[j + 1]);
        }
        lemma_first_escaping(module_name, rest, exclude_type_checking_imports, i - 1);
    }
}

/// Where no import escapes, none is the first escaping.
pub proof fn lemma_none_escaping(
    module_name: Seq<char>,
    imports: Seq<ParsedImportView>,
    exclude_type_checking_imports: bool,
)
    requires
        forall|j: int|
            0 <= j < imports.len() ==> !escapes(
                module_name,
                #[trigger] imports[j],
                exclude_type_checking_imports,
            ),
    ensures
        first_escaping(module_name, imports, exclude_type_checking_imports) is None,
    decreases imports.len(),
{
    if imports.len() > 0 {
        let rest = imports.drop_first();
        assert(!escapes(module_name, imports[0], exclude_type_checking_imports));
        assert forall|j: int| 0 <= j < rest.len() implies !escapes(
            module_name,
            #[trigger] rest[j],
            exclude_type_checking_imports,
        ) by {
            assert(rest[j] == imports[j + 1]);
        }
        lemma_none_escaping(module_name, rest, exclude_type_checking_imports);
    }
}

/// Whether every import has a line number of at least one.
pub open spec fn lines_numbered(imports: Set<DirectImportView>) -> bool {
    forall|import: DirectImportView| #[trigger] imports.contains(import) ==> import.line_number >= 1
}

pub fn count_leading_dots(s: &Vec<char>) -> (count: usize)
    ensures
        count == leading_dots(s@),
        count <= s.len(),
{
    count_leading(s, '.')
}

pub fn module_is_descendant(module_name: &Vec<char>, potential_ancestor: &Vec<char>) -> (r: bool)
    ensures
        r == is_descendant(module_name@, potential_ancestor@),
{
    let mut prefix = potential_ancestor.clone();
    assert(prefix@ =~= potential_ancestor@);
    prefix.push('.');
    starts_with(module_name, &prefix)
}

/// Resolves a possibly relative import to the absolute name it refers to.
pub fn _get_absolute_imported_object_name(
    module: &Module,
    is_package: bool,
    imported_object_name: &str,
) -> (absolute: String)
    requires
        stays_within(module@, imported_object_name@),
    ensures
        absolute@ == absolute_name(module@, is_package, imported_object_name@),
{
    let name = chars_of(imported_object_name);
    let leading_dots_count = count_leading_dots(&name);
    if leading_dots_count == 0 {
        return string_of(&name);
    }
    let module_chars = chars_of(module.name.as_str());
    let mut absolute: Vec<char>;
    if is_package && leading_dots_count == 1 {
        absolute = module_chars;
    } else {
        let parts = split_chars(&module_chars, '.');
        proof {
            lemma_split_pieces(module@, '.');
        }
        let kept = if is_package {
            parts.len() - leading_dots_count + 1
        } else {
            parts.len() - leading_dots_count
        };
        absolute = join_chars(&parts, kept, '.');
    }
    let ghost base = absolute@;
    absolute.push('.');
    let mut i: usize = leading_dots_count;
    assert(name@.subrange(leading_dots_count as int, i as int) =~= Seq::<char>::empty());
    while i < name.len()
        invariant
            leading_dots_count <= i <= name.len(),
            absolute@ == base.push('.') + name@.subrange(leading_dots_count as int, i as int),
        decreases name.len() - i,
    {
        absolute.push(name[i]);
        assert(name@.subrange(leading_dots_count as int, i + 1) =~= name@.subrange(
            leading_dots_count as int,
            i as int,
        ).push(name@[i as int]));
        i = i + 1;
    }
    assert(name@.subrange(leading_dots_count as int, name@.len() as int) =~= name@.skip(
        leading_dots_count as int,
    ));
    string_of(&absolute)
}

/// Finds the internal module that an absolute name refers to, if any.
pub fn _get_internal_module(imported_object_name: &String, all_modules: &Vec<Module>) -> (found:
    Option<Module>)
    ensures
        match found {
            Some(m) => internal_module(imported_object_name@, names_of(all_modules@)) == Some(m@),
            None => internal_module(imported_object_name@, names_of(all_modules@)) is None,
        },
{
    if holds_module(all_modules, imported_object_name) {
        return Some(Module { name: imported_object_name.clone() });
    }
    let name = chars_of(imported_object_name.as_str());
    let mut i: usize = name.len();
    assert(name@.take(i as int) =~= name@);
    while i > 0 && name[i - 1] != '.'
        invariant
            i <= name.len(),
            forall|j: int| i <= j < name.len() ==> name@[j] != '.',
            parent_name(name@) == parent_name(name@.take(i as int)),
        decreases i,
    {
        assert(name@.take(i as int).drop_last() =~= name@.take(i - 1));
        i = i - 1;
    }
    if i == 0 {
        assert(free_of(name@, '.'));
        return None;
    }
    assert(!free_of(name@, '.'));
    assert(name@.take(i as int).drop_last() =~= name@.take(i - 1));
    let mut parent: Vec<char> = Vec::new();
    let mut j: usize = 0;
    while j < i - 1
        invariant
            0 < i <= name.len(),
            j <= i - 1,
            parent@ == name@.take(j as int),
        decreases i - 1 - j,
    {
        parent.push(name[j]);
        assert(name@.take(j + 1) =~= name@.take(j as int).push(name@[j as int]));
        j = j + 1;
    }
    let parent_name = string_of(&parent);
    if holds_module(all_modules, &parent_name) {
        Some(Module { name: parent_name })
    } else {
        None
    }
}

/// Cutting one name short caps what is shared at the cut.
pub proof fn lemma_shared_depth_take(a: Seq<Seq<char>>, b: Seq<Seq<char>>, m: int)
    requires
        0 <= m <= b.len(),
    ensures
        shared_depth(a, b.take(m)) == if shared_depth(a, b) <= m {
            shared_depth(a, b)
        } else {
            m as nat
        },
    decreases a.len(),
{
    if a.len() > 0 && b.len() > 0 && a[0] == b[0] && m > 0 {
        lemma_shared_depth_take(a.drop_first(), b.drop_first(), m - 1);
        assert(b.take(m).drop_first() =~= b.drop_first().take(m - 1));
    }
}

/// Cutting a name short caps what the packages share with it at the cut.
pub proof fn lemma_deepest_shared_take(parts: Seq<Seq<char>>, packages: Seq<Seq<char>>, m: int)
    requires
        0 <= m <= parts.len(),
    ensures
        deepest_shared(parts.take(m), packages) == if deepest_shared(parts, packages) <= m {
            deepest_shared(parts, packages)
        } else {
            m as nat
        },
    decreases packages.len(),
{
    if packages.len() > 0 {
        lemma_deepest_shared_take(parts, packages.drop_last(), m);
        lemma_shared_depth_take(components(packages.last()), parts, m);
    }
}

/// Distilling is idempotent: a name that came out of a distillation is
/// distilled to itself by the same packages, unless one of them lies
/// strictly below it, in which case it is not recorded.
pub proof fn lemma_distillation_idempotent(name: Seq<char>, packages: Seq<Seq<char>>)
    ensures
        distilled_external(name, packages) matches Some(distilled) ==> distilled_external(
            distilled,
            packages,
        ) == if has_descendant_package(distilled, packages) {
            None
        } else {
            Some(distilled)
        },
{
    if distilled_external(name, packages) is Some {
        let distilled = distilled_external(name, packages)->0;
        let parts = components(name);
        let depth = deepest_shared(parts, packages) as int;
        lemma_split_pieces(name, '.');
        if depth < parts.len() && !has_descendant_package(distilled, packages) {
            let kept = parts.take(depth + 1);
            assert(join_with(parts.take(1), '.') == parts[0]);
            assert(distilled == join_with(kept, '.'));
            assert forall|i: int| 0 <= i < kept.len() implies free_of(#[trigger] kept[i], '.') by {
                assert(kept[i] == parts[i]);
            }
            lemma_split_join(kept, '.');
            lemma_deepest_shared_take(parts, packages, depth + 1);
            assert(kept.take(depth + 1) =~= kept);
            if depth == 0 {
                assert(kept[0] == parts[0]);
            }
        }
    }
}

/// Counts the leading components that two names have in common.
fn common_depth(a: &Vec<Vec<char>>, b: &Vec<Vec<char>>) -> (depth: usize)
    ensures
        depth == shared_depth(views(a@), views(b@)),
        depth <= a.len(),
        depth <= b.len(),
{
    let mut depth: usize = 0;
    assert(views(a@).skip(0) =~= views(a@));
    assert(views(b@).skip(0) =~= views(b@));
    while depth < a.len() && depth < b.len() && same_chars(&a[depth], &b[depth])
        invariant
            depth <= a.len(),
            depth <= b.len(),
            shared_depth(views(a@), views(b@)) == depth + shared_depth(
                views(a@).skip(depth as int),
                views(b@).skip(depth as int),
            ),
        decreases a.len() - depth,
    {
        proof {
            let ra = views(a@).skip(depth as int);
            let rb = views(b@).skip(depth as int);
            assert(ra[0] == a@[depth as int]@);
            assert(rb[0] == b@[depth as int]@);
            assert(ra.drop_first() =~= views(a@).skip(depth + 1));
            assert(rb.drop_first() =~= views(b@).skip(depth + 1));
        }
        depth = depth + 1;
    }
    proof {
        let ra = views(a@).skip(depth as int);
        let rb = views(b@).skip(depth as int);
        if depth < a.len() && depth < b.len() {
            assert(ra[0] == a@[depth as int]@);
            assert(rb[0] == b@[depth as int]@);
        }
    }
    depth
}

/// Given a name that is known to be external, gives the name to record for
/// it, or nothing where it is a parent namespace of an internal package.
pub fn _distill_external_module(module_name: &String, found_packages: &Vec<FoundPackage>) -> (distilled:
    Option<String>)
    ensures
        name_view(distilled) == distilled_external(module_name@, package_names(found_packages@)),
{
    let ghost packages = package_names(found_packages@);
    let name = chars_of(module_name.as_str());
    let mut i: usize = 0;
    while i < found_packages.len()
        invariant
            i <= found_packages.len(),
            name@ == module_name@,
            packages == package_names(found_packages@),
            forall|j: int| 0 <= j < i ==> !is_descendant(#[trigger] packages[j], name@),
        decreases found_packages.len() - i,
    {
        let package_name = chars_of(found_packages[i].name.as_str());
        if module_is_descendant(&package_name, &name) {
            assert(is_descendant(packages[i as int], name@));
            return None;
        }
        i = i + 1;
    }
    let parts = split_chars(&name, '.');
    proof {
        lemma_split_pieces(name@, '.');
    }
    let mut depth: usize = 0;
    let mut i: usize = 0;
    assert(packages.take(0) =~= Seq::<Seq<char>>::empty());
    while i < found_packages.len()
        invariant
            i <= found_packages.len(),
            packages == package_names(found_packages@),
            depth <= parts.len(),
            depth == deepest_shared(views(parts@), packages.take(i as int)),
        decreases found_packages.len() - i,
    {
        let package_chars = chars_of(found_packages[i].name.as_str());
        let package_parts = split_chars(&package_chars, '.');
        let shared = common_depth(&package_parts, &parts);
        proof {
            let next = packages.take(i + 1);
            assert(next.drop_last() =~= packages.take(i as int));
            assert(next.last() == found_packages@[i as int].name@);
        }
        if shared > depth {
            depth = shared;
        }
        i = i + 1;
    }
    assert(packages.take(found_packages@.len() as int) =~= packages);
    let count = if depth < parts.len() {
        depth + 1
    } else {
        parts.len()
    };
    let joined = join_chars(&parts, count, '.');
    proof {
        let all = components(name@);
        if depth == 0 {
            assert(all.take(1).len() == 1);
            assert(join_with(all.take(1), '.') == all.take(1)[0]);
        } else if depth == parts.len() {
            assert(all.take(all.len() as int) =~= all);
            lemma_join_split(name@, '.');
        }
    }
    Some(string_of(&joined))
}

impl DirectImport {
    pub fn new(importer: String, imported: String, line_number: usize, line_contents: String) -> (import:
        DirectImport)
        ensures
            import.importer == importer,
            import.imported == imported,
            import.line_number == line_number,
            import.line_contents == line_contents,
    {
        DirectImport { importer, imported, line_number, line_contents }
    }

    /// Whether two imports agree in all four fields.
    pub fn same_as(&self, other: &DirectImport) -> (r: bool)
        ensures
            r == (self@ == other@),
    {
        self.importer == other.importer && self.imported == other.imported && self.line_number
            == other.line_number && self.line_contents == other.line_contents
    }

    /// A copy with the same fields.
    pub fn duplicate(&self) -> (import: DirectImport)
        ensures
            import == *self,
    {
        DirectImport {
            importer: self.importer.clone(),
            imported: self.imported.clone(),
            line_number: self.line_number,
            line_contents: self.line_contents.clone(),
        }
    }
}

/// Whether `imports` holds an import equal to `import`.
pub fn holds_import(imports: &Vec<DirectImport>, import: &DirectImport) -> (r: bool)
    ensures
        r == import_set(imports@).contains(import@),
{
    let mut i: usize = 0;
    while i < imports.len()
        invariant
            i <= imports.len(),
            forall|j: int| 0 <= j < i ==> imports@[j].view() != import@,
        decreases imports.len() - i,
    {
        if imports[i].same_as(import) {
            return true;
        }
        i = i + 1;
    }
    false
}

/// Whether the module climbs with this import no higher than its
/// top-level package.
pub fn import_stays_within(module: &Module, imported_object_name: &str) -> (r: bool)
    ensures
        r == stays_within(module@, imported_object_name@),
{
    let name = chars_of(imported_object_name);
    let leading_dots_count = count_leading_dots(&name);
    let module_chars = chars_of(module.name.as_str());
    let parts = split_chars(&module_chars, '.');
    leading_dots_count <= parts.len()
}

/// Turns the parsed imports of one module into its set of direct imports.
/// Fails on the first import that is resolved and climbs above the
/// module's top-level package, naming it.
pub fn resolve_imports(
    module: &Module,
    is_package: bool,
    imported_objects: &Vec<ParsedImport>,
    found_packages: &Vec<FoundPackage>,
    all_modules: &Vec<Module>,
    include_external_packages: bool,
    exclude_type_checking_imports: bool,
) -> (resolved: Result<Vec<DirectImport>, GrimpError>)
    ensures
        import_set_result_view(resolved) == resolution(
            module@,
            is_package,
            import_views(imported_objects@),
            names_of(all_modules@),
            package_names(found_packages@),
            include_external_packages,
            exclude_type_checking_imports,
        ),
        resolved matches Ok(imports) ==> ((forall|i: int|
            0 <= i < imported_objects@.len() ==> (#[trigger] imported_objects@[i]).line_number >= 1)
            ==> lines_numbered(import_set(imports@))),
        match resolved {
            Ok(imports) => {
                &&& forall|i: int|
                    0 <= i < imported_objects@.len() ==> !escapes(
                        module@,
                        (#[trigger] imported_objects@[i]).view(),
                        exclude_type_checking_imports,
                    )
                &&& import_set(imports@) == resolved_imports(
                    module@,
                    is_package,
                    imported_objects@,
                    names_of(all_modules@),
                    package_names(found_packages@),
                    include_external_packages,
                    exclude_type_checking_imports,
                )
                &&& distinct_imports(imports@)
            },
            Err(e) => exists|i: int|
                {
                    &&& 0 <= i < imported_objects@.len()
                    &&& escapes(
                        module@,
                        (#[trigger] imported_objects@[i]).view(),
                        exclude_type_checking_imports,
                    )
                    &&& forall|j: int|
                        0 <= j < i ==> !escapes(
                            module@,
                            (#[trigger] imported_objects@[j]).view(),
                            exclude_type_checking_imports,
                        )
                    &&& e matches GrimpError::InvariantViolation(detail)
                    &&& detail@ == imported_objects@[i].name@
                },
        },
{
    let ghost modules = names_of(all_modules@);
    let ghost packages = package_names(found_packages@);
    let mut imports: Vec<DirectImport> = Vec::new();
    let mut i: usize = 0;
    while i < imported_objects.len()
        invariant
            i <= imported_objects.len(),
            modules == names_of(all_modules@),
            packages == package_names(found_packages@),
            forall|j: int|
                0 <= j < i ==> !escapes(
                    module@,
                    (#[trigger] imported_objects@[j]).view(),
                    exclude_type_checking_imports,
                ),
            import_set(imports@) == resolved_imports(
                module@,
                is_package,
                imported_objects@.take(i as int),
                modules,
                packages,
                include_external_packages,
                exclude_type_checking_imports,
            ),
            distinct_imports(imports@),
        decreases imported_objects.len() - i,
    {
        let imported_object = &imported_objects[i];
        let ghost before = imports@;
        let ghost done = imported_objects@.take(i as int);
        let ghost next = imported_objects@.take(i + 1);
        let ghost contribution = resolved_import(
            module@,
            is_package,
            imported_object@,
            modules,
            packages,
            include_external_packages,
            exclude_type_checking_imports,
        );
        let mut added: Option<DirectImport> = None;
        if !(exclude_type_checking_imports && imported_object.typechecking_only) {
            if !import_stays_within(module, imported_object.name.as_str()) {
                proof {
                    let views = import_views(imported_objects@);
                    assert(views[i as int] == imported_object@);
                    assert forall|j: int| 0 <= j < i implies !escapes(
                        module@,
                        #[trigger] views[j],
                        exclude_type_checking_imports,
                    ) by {
                        assert(views[j] == imported_objects@[j]@);
                    }
                    lemma_first_escaping(module@, views, exclude_type_checking_imports, i as int);
                }
                return Err(GrimpError::InvariantViolation(imported_object.name.clone()));
            }
            let imported_object_name = _get_absolute_imported_object_name(
                module,
                is_package,
                imported_object.name.as_str(),
            );
            let imported = match _get_internal_module(&imported_object_name, all_modules) {
                Some(imported_module) => Some(imported_module.name),
                None => {
                    if include_external_packages {
                        _distill_external_module(&imported_object_name, found_packages)
                    } else {
                        None
                    }
                },
            };
            if let Some(imported) = imported {
                added = Some(
                    DirectImport {
                        importer: module.name.clone(),
                        imported,
                        line_number: imported_object.line_number,
                        line_contents: imported_object.line_contents.clone(),
                    },
                );
            }
        }
        assert(match added {
            Some(a) => contribution == Some(a@),
            None => contribution is None,
        });
        if let Some(import) = added {
            if !holds_import(&imports, &import) {
                imports.push(import);
                assert(forall|k: int| 0 <= k < before.len() ==> imports@[k] == before[k]);
                assert(imports@[before.len() as int].view() == contribution->0);
            }
        }
        proof {
            assert(forall|k: int| 0 <= k < i ==> next[k] == done[k]);
            assert(next[i as int] == *imported_object);
            let target = resolved_imports(
                module@,
                is_package,
                next,
                modules,
                packages,
                include_external_packages,
                exclude_type_checking_imports,
            );
            let earlier = resolved_imports(
                module@,
                is_package,
                done,
                modules,
                packages,
                include_external_packages,
                exclude_type_checking_imports,
            );
            assert forall|d: DirectImportView| import_set(imports@).contains(d) == target.contains(
                d,
            ) by {
                if import_set(before).contains(d) {
                    let w = choose|w: int| 0 <= w < before.len() && before[w].view() == d;
                    assert(imports@[w].view() == d);
                    assert(earlier.contains(d));
                    let v = choose|v: int|
                        0 <= v < done.len() && resolved_import(
                            module@,
                            is_package,
                            (#[trigger] done[v]).view(),
                            modules,
                            packages,
                            include_external_packages,
                            exclude_type_checking_imports,
                        ) == Some(d);
                    assert(next[v] == done[v]);
                }
                if contribution == Some(d) {
                    assert(next[i as int].view() == imported_object@);
                    assert(import_set(imports@).contains(d));
                }
                if target.contains(d) {
                    let v = choose|v: int|
                        0 <= v < next.len() && resolved_import(
                            module@,
                            is_package,
                            (#[trigger] next[v]).view(),
                            modules,
                            packages,
                            include_external_packages,
                            exclude_type_checking_imports,
                        ) == Some(d);
                    if v < i {
                        assert(done[v] == next[v]);
                        assert(earlier.contains(d));
                    }
                }
                if import_set(imports@).contains(d) {
                    let w = choose|w: int| 0 <= w < imports@.len() && imports@[w].view() == d;
                    if w < before.len() {
                        assert(before[w].view() == d);
                    }
                }
            }
            assert(import_set(imports@) =~= target);
        }
        i = i + 1;
    }
    proof {
        assert(imported_objects@.take(imported_objects@.len() as int) =~= imported_objects@);
        let views = import_views(imported_objects@);
        assert forall|j: int| 0 <= j < views.len() implies !escapes(
            module@,
            #[trigger] views[j],
            exclude_type_checking_imports,
        ) by {
            assert(views[j] == imported_objects@[j]@);
        }
        lemma_none_escaping(module@, views, exclude_type_checking_imports);
        let wanted = resolution(
            module@,
            is_package,
            views,
            modules,
            packages,
            include_external_packages,
            exclude_type_checking_imports,
        );
        assert(import_set(imports@) =~= wanted->Ok_0) by {
            assert forall|d: DirectImportView| import_set(imports@).contains(d)
                == wanted->Ok_0.contains(d) by {
                if import_set(imports@).contains(d) {
                    let v = choose|v: int|
                        0 <= v < imported_objects@.len() && resolved_import(
                            module@,
                            is_package,
                            (#[trigger] imported_objects@[v]).view(),
                            modules,
                            packages,
                            include_external_packages,
                            exclude_type_checking_imports,
                        ) == Some(d);
                    assert(views[v] == imported_objects@[v]@);
                }
                if wanted->Ok_0.contains(d) {
                    let v = choose|v: int|
                        0 <= v < views.len() && resolved_import(
                            module@,
                            is_package,
                            #[trigger] views[v],
                            modules,
                            packages,
                            include_external_packages,
                            exclude_type_checking_imports,
                        ) == Some(d);
                    assert(views[v] == imported_objects@[v]@);
                }
            }
        }
        if forall|i: int|
            0 <= i < imported_objects@.len() ==> (#[trigger] imported_objects@[i]).line_number >= 1 {
            assert forall|d: DirectImportView| #[trigger]
                import_set(imports@).contains(d) implies d.line_number >= 1 by {
                let v = choose|v: int|
                    0 <= v < imported_objects@.len() && resolved_import(
                        module@,
                        is_package,
                        (#[trigger] imported_objects@[v]).view(),
                        modules,
                        packages,
                        include_external_packages,
                        exclude_type_checking_imports,
                    ) == Some(d);
                assert(imported_objects@[v].line_number >= 1);
            }
        }
    }
    Ok(imports)
}

/// What a list of modules with their imports maps each module's name to:
/// the set of its imports. Where a module occurs more than once, its last
/// entry counts.
pub open spec fn entries_imports(entries: Seq<(Module, Vec<DirectImport>)>) -> Map<
    Seq<char>,
    Set<DirectImportView>,
>
    decreases entries.len(),
{
    if entries.len() == 0 {
        Map::empty()
    } else {
        entries_imports(entries.drop_last()).insert(
            entries.last().0@,
            import_set(entries.last().1@),
        )
    }
}

/// Whether every import is filed under the module that issues it.
pub open spec fn importers_match(imports_by_module: Map<Seq<char>, Set<DirectImportView>>) -> bool {
    forall|module: Seq<char>, import: DirectImportView|
        imports_by_module.contains_key(module) && #[trigger] imports_by_module[module].contains(
            import,
        ) ==> import.importer == module
}

/// The last entry for a module decides what the module maps to.
pub proof fn lemma_last_module_entry(
    entries: Seq<(Module, Vec<DirectImport>)>,
    module: Seq<char>,
    i: int,
)
    requires
        0 <= i < entries.len(),
        entries[i].0@ == module,
        forall|j: int| i < j < entries.len() ==> entries[j].0@ != module,
    ensures
        entries_imports(entries).contains_key(module),
        entries_imports(entries)[module] == import_set(entries[i].1@),
    decreases entries.len(),
{
    if i < entries.len() - 1 {
        lemma_last_module_entry(entries.drop_last(), module, i);
    }
}

/// A module is mapped exactly if it has an entry.
pub proof fn lemma_module_entries(entries: Seq<(Module, Vec<DirectImport>)>, module: Seq<char>)
    ensures
        entries_imports(entries).contains_key(module) <==> exists|j: int|
            0 <= j < entries.len() && (#[trigger] entries[j]).0@ == module,
    decreases entries.len(),
{
    if entries.len() > 0 {
        lemma_module_entries(entries.drop_last(), module);
        if exists|j: int| 0 <= j < entries.len() - 1 && (#[trigger] entries.drop_last()[j]).0@ == module {
            let j = choose|j: int|
                0 <= j < entries.len() - 1 && (#[trigger] entries.drop_last()[j]).0@ == module;
            assert(entries[j].0@ == module);
        }
        if exists|j: int| 0 <= j < entries.len() && (#[trigger] entries[j]).0@ == module {
            let j = choose|j: int| 0 <= j < entries.len() && (#[trigger] entries[j]).0@ == module;
            if j < entries.len() - 1 {
                assert(entries.drop_last()[j].0@ == module);
            }
        }
    }
}

/// Replacing the last entry for a module maps the module anew and
/// nothing else.
proof fn lemma_replace_module_entry(
    entries: Seq<(Module, Vec<DirectImport>)>,
    i: int,
    module: Module,
    imports: Vec<DirectImport>,
)
    requires
        0 <= i < entries.len(),
        entries[i].0@ == module@,
        forall|j: int| i < j < entries.len() ==> entries[j].0@ != module@,
    ensures
        entries_imports(entries.update(i, (module, imports))) == entries_imports(entries).insert(
            module@,
            import_set(imports@),
        ),
    decreases entries.len(),
{
    let changed = entries.update(i, (module, imports));
    if i == entries.len() - 1 {
        assert(changed.drop_last() =~= entries.drop_last());
        assert(entries_imports(changed) =~= entries_imports(entries).insert(
            module@,
            import_set(imports@),
        ));
    } else {
        lemma_replace_module_entry(entries.drop_last(), i, module, imports);
        assert(changed.drop_last() =~= entries.drop_last().update(i, (module, imports)));
        assert(changed.last() == entries.last());
        assert(entries_imports(changed) =~= entries_imports(entries).insert(
            module@,
            import_set(imports@),
        ));
    }
}

/// The imports that each module issues.
pub struct ImportsByModule {
    entries: Vec<(Module, Vec<DirectImport>)>,
}

impl View for ImportsByModule {
    type V = Map<Seq<char>, Set<DirectImportView>>;

    closed spec fn view(&self) -> Map<Seq<char>, Set<DirectImportView>> {
        entries_imports(self.entries@)
    }
}

/// Whether no two entries are for the same module.
pub open spec fn distinct_modules(entries: Seq<(Module, Vec<DirectImport>)>) -> bool {
    forall|i: int, j: int|
        0 <= i < j < entries.len() ==> (#[trigger] entries[i]).0@ != (#[trigger] entries[j]).0@
}

impl ImportsByModule {
    /// Every module has one entry.
    #[verifier::type_invariant]
    spec fn one_entry_each(self) -> bool {
        distinct_modules(self.entries@)
    }

    /// No modules.
    pub fn new() -> (imports_by_module: ImportsByModule)
        ensures
            imports_by_module@ == Map::<Seq<char>, Set<DirectImportView>>::empty(),
    {
        ImportsByModule { entries: Vec::new() }
    }

    /// Where the last entry for the module stands, if there is one.
    fn position(&self, name: &String) -> (found: Option<usize>)
        ensures
            match found {
                Some(i) => i < self.entries@.len() && self.entries@[i as int].0@ == name@
                    && forall|j: int| i < j < self.entries@.len() ==> self.entries@[j].0@ != name@,
                None => forall|j: int| 0 <= j < self.entries@.len() ==> self.entries@[j].0@ != name@,
            },
    {
        let mut i: usize = self.entries.len();
        while i > 0
            invariant
                i <= self.entries@.len(),
                forall|j: int| i <= j < self.entries@.len() ==> self.entries@[j].0@ != name@,
            decreases i,
        {
            i = i - 1;
            if self.entries[i].0.name == *name {
                return Some(i);
            }
        }
        None
    }

    /// The imports of the module called `name`, each once, if the module
    /// is held.
    pub fn get(&self, name: &str) -> (imports: Option<&Vec<DirectImport>>)
        ensures
            match imports {
                Some(list) => self@.contains_key(name@) && self@[name@] == import_set(list@),
                None => !self@.contains_key(name@),
            },
    {
        let wanted = name.to_owned();
        match self.position(&wanted) {
            Some(i) => {
                proof {
                    lemma_last_module_entry(self.entries@, name@, i as int);
                }
                Some(&self.entries[i].1)
            },
            None => {
                proof {
                    lemma_module_entries(self.entries@, name@);
                }
                None
            },
        }
    }

    /// Whether the module called `name` is held.
    pub fn contains_module(&self, name: &str) -> (r: bool)
        ensures
            r == self@.contains_key(name@),
    {
        self.get(name).is_some()
    }

    /// Files these imports under the module, in place of any filed there.
    pub fn with_module(self, module: Module, imports: Vec<DirectImport>) -> (more: ImportsByModule)
        ensures
            more@ == self@.insert(module@, import_set(imports@)),
    {
        proof {
            use_type_invariant(&self);
        }
        let found = self.position(&module.name);
        let mut entries = self.entries;
        let ghost before = entries@;
        match found {
            Some(i) => {
                proof {
                    lemma_replace_module_entry(entries@, i as int, module, imports);
                }
                entries.set(i, (module, imports));
                assert forall|a: int, b: int| 0 <= a < b < entries@.len() implies (
                #[trigger] entries@[a]).0@ != (#[trigger] entries@[b]).0@ by {
                    assert(entries@[a].0@ == before[a].0@);
                    assert(entries@[b].0@ == before[b].0@);
                }
            },
            None => {
                entries.push((module, imports));
                assert(entries@.drop_last() =~= before);
                assert forall|a: int, b: int| 0 <= a < b < entries@.len() implies (
                #[trigger] entries@[a]).0@ != (#[trigger] entries@[b]).0@ by {
                    if b < before.len() {
                        assert(entries@[a] == before[a]);
                        assert(entries@[b] == before[b]);
                    } else {
                        assert(entries@[a] == before[a]);
                    }
                }
            },
        }
        ImportsByModule { entries }
    }

    /// The entries as they are held: modules with their imports.
    pub fn entries(&self) -> (entries: &Vec<(Module, Vec<DirectImport>)>)
        ensures
            entries@ == self.entries_view(),
            entries_imports(entries@) == self@,
            distinct_modules(entries@),
    {
        proof {
            use_type_invariant(self);
        }
        &self.entries
    }

    /// The entries as they are held.
    pub closed spec fn entries_view(&self) -> Seq<(Module, Vec<DirectImport>)> {
        self.entries@
    }

    /// How many modules are held.
    pub fn len(&self) -> (count: usize)
        ensures
            count == self.entries_view().len(),
    {
        self.entries.len()
    }
}

/// The parser that extracts the import statements from source text.
///
/// A parser may say what it makes of a text, as `parsed`, and is then
/// bound to it. One that says nothing is bound to nothing.
pub trait ImportParser {
    /// What the parser makes of the text of a file.
    open spec fn parsed(&self, module_contents: Seq<char>, module_filename: Seq<char>) -> Option<
        Result<Seq<ParsedImportView>, GrimpErrorView>,
    > {
        None
    }

    /// The imports that the text of the file holds, in the order of their
    /// lines.
    fn parse_imports_from_code(&self, module_contents: &str, module_filename: &str) -> (imports:
        Result<Vec<ParsedImport>, GrimpError>)
        ensures
            self.parsed(module_contents@, module_filename@) matches Some(answer)
                ==> parse_result_view(imports) == answer,
    ;
}

/// What a list of files with their imports says of a file: the imports
/// of its first entry, or a failure that names the file if it has none.
pub open spec fn listed_answer(listed: Seq<(String, Vec<ParsedImport>)>, filename: Seq<char>) -> Result<
    Seq<ParsedImportView>,
    GrimpErrorView,
>
    decreases listed.len(),
{
    if listed.len() == 0 {
        Err(GrimpErrorView::ParseError(filename, "no imports listed"@))
    } else if listed[0].0@ == filename {
        Ok(import_views(listed[0].1@))
    } else {
        listed_answer(listed.drop_first(), filename)
    }
}

impl ParsedImport {
    /// A copy with the same fields.
    pub fn duplicate(&self) -> (import: ParsedImport)
        ensures
            import == *self,
    {
        ParsedImport {
            name: self.name.clone(),
            line_number: self.line_number,
            line_contents: self.line_contents.clone(),
            typechecking_only: self.typechecking_only,
        }
    }
}

/// A parser that parses nothing: it answers from a list of files with
/// the imports that were found in each, whatever text it is shown.
pub struct ListedImports {
    pub listed: Vec<(String, Vec<ParsedImport>)>,
}

impl ImportParser for ListedImports {
    open spec fn parsed(&self, module_contents: Seq<char>, module_filename: Seq<char>) -> Option<
        Result<Seq<ParsedImportView>, GrimpErrorView>,
    > {
        Some(listed_answer(self.listed@, module_filename))
    }

    fn parse_imports_from_code(&self, module_contents: &str, module_filename: &str) -> (imports:
        Result<Vec<ParsedImport>, GrimpError>)
    {
        let wanted = module_filename.to_owned();
        let mut i: usize = 0;
        assert(self.listed@.skip(0) =~= self.listed@);
        while i < self.listed.len()
            invariant
                i <= self.listed@.len(),
                wanted@ == module_filename@,
                listed_answer(self.listed@, module_filename@) == listed_answer(
                    self.listed@.skip(i as int),
                    module_filename@,
                ),
            decreases self.listed.len() - i,
        {
            let ghost rest = self.listed@.skip(i as int);
            assert(rest[0] == self.listed@[i as int]);
            assert(rest.drop_first() =~= self.listed@.skip(i + 1));
            if self.listed[i].0 == wanted {
                let found = &self.listed[i].1;
                let mut copy: Vec<ParsedImport> = Vec::new();
                let mut k: usize = 0;
                while k < found.len()
                    invariant
                        k <= found@.len(),
                        copy@ == found@.take(k as int),
                    decreases found.len() - k,
                {
                    copy.push(found[k].duplicate());
                    assert(copy@ =~= found@.take(k + 1));
                    k = k + 1;
                }
                assert(found@.take(found@.len() as int) =~= found@);
                return Ok(copy);
            }
            i = i + 1;
        }
        Err(GrimpError::ParseError(module_filename.to_owned(), "no imports listed".to_owned()))
    }
}

/// The components of a module's name beyond the depth of its package;
/// none where the module's name is not deeper.
pub open spec fn leaf_components(module_name: Seq<char>, package_name: Seq<char>) -> Seq<Seq<char>> {
    let of_module = components(module_name);
    let of_package = components(package_name);
    if of_package.len() <= of_module.len() {
        of_module.skip(of_package.len() as int)
    } else {
        Seq::empty()
    }
}

/// What is joined to the root of a module's file name: the directory of
/// the package, then the module's components beyond the package's depth.
pub open spec fn filename_root(module_name: Seq<char>, package: FoundPackage) -> Seq<Seq<char>> {
    seq![package.directory@] + leaf_components(module_name, package.name@)
}

/// The first of the packages that lists the module, if one does.
pub open spec fn first_owner(packages: Seq<FoundPackage>, module_name: Seq<char>) -> Option<
    FoundPackage,
>
    decreases packages.len(),
{
    if packages.len() == 0 {
        None
    } else if package_lists(packages[0], module_name) {
        Some(packages[0])
    } else {
        first_owner(packages.drop_first(), module_name)
    }
}

/// A package that lists the module, before which none does, is its first
/// owner.
pub proof fn lemma_first_owner(packages: Seq<FoundPackage>, module_name: Seq<char>, i: int)
    requires
        0 <= i < packages.len(),
        package_lists(packages[i], module_name),
        forall|j: int| 0 <= j < i ==> !package_lists(#[trigger] packages[j], module_name),
    ensures
        first_owner(packages, module_name) == Some(packages[i]),
    decreases packages.len(),
{
    if i > 0 {
        let rest = packages.drop_first();
        assert(!package_lists(packages[0], module_name));
        assert(rest[i - 1] == packages[i]);
        assert forall|j: int| 0 <= j < i - 1 implies !package_lists(
            #[trigger] rest[j],
            module_name,
        ) by {
            assert(rest[j] == packages[j + 1]);
        }
        lemma_first_owner(rest, module_name, i - 1);
    }
}

/// A module has an owner exactly if a package lists it.
pub proof fn lemma_owner_listed(packages: Seq<FoundPackage>, module_name: Seq<char>)
    ensures
        first_owner(packages, module_name) is Some <==> listed_modules(packages).contains(
            module_name,
        ),
    decreases packages.len(),
{
    if packages.len() > 0 {
        let rest = packages.drop_first();
        lemma_owner_listed(rest, module_name);
        if listed_modules(rest).contains(module_name) {
            let i = choose|i: int| 0 <= i < rest.len() && package_lists(#[trigger] rest[i], module_name);
            assert(package_lists(packages[i + 1], module_name));
        }
        if listed_modules(packages).contains(module_name) && !package_lists(
            packages[0],
            module_name,
        ) {
            let i = choose|i: int|
                0 <= i < packages.len() && package_lists(#[trigger] packages[i], module_name);
            assert(package_lists(rest[i - 1], module_name));
        }
        if package_lists(packages[0], module_name) {
            assert(listed_modules(packages).contains(module_name));
        }
    }
}

/// The first package that lists the module, if one does.
pub fn _lookup_found_package_for_module<'b>(
    module: &Module,
    found_packages: &'b Vec<FoundPackage>,
) -> (owner: Option<&'b FoundPackage>)
    ensures
        match owner {
            Some(package) => exists|i: int|
                {
                    &&& 0 <= i < found_packages@.len()
                    &&& #[trigger] found_packages@[i] == *package
                    &&& package_lists(*package, module@)
                    &&& forall|j: int|
                        0 <= j < i ==> !package_lists(#[trigger] found_packages@[j], module@)
                },
            None => !listed_modules(found_packages@).contains(module@),
        },
        match owner {
            Some(package) => first_owner(found_packages@, module@) == Some(*package),
            None => first_owner(found_packages@, module@) is None,
        },
{
    let mut i: usize = 0;
    proof {
        lemma_owner_listed(found_packages@, module@);
    }
    while i < found_packages.len()
        invariant
            i <= found_packages@.len(),
            forall|j: int| 0 <= j < i ==> !package_lists(#[trigger] found_packages@[j], module@),
        decreases found_packages.len() - i,
    {
        let found_package = &found_packages[i];
        let mut j: usize = 0;
        while j < found_package.module_files.len()
            invariant
                j <= found_package.module_files@.len(),
                i < found_packages@.len(),
                *found_package == found_packages@[i as int],
                forall|k: int| 0 <= k < i ==> !package_lists(#[trigger] found_packages@[k], module@),
                forall|k: int|
                    0 <= k < j ==> (#[trigger] found_package.module_files@[k]).module@ != module@,
            decreases found_package.module_files.len() - j,
        {
            if found_package.module_files[j].module.name == module.name {
                assert(found_package.module_files@[j as int].module@ == module@);
                assert(package_lists(*found_package, module@));
                proof {
                    lemma_first_owner(found_packages@, module@, i as int);
                }
                return Some(found_package);
            }
            j = j + 1;
        }
        i = i + 1;
    }
    None
}

/// The components that are joined to the root of a module's file name.
pub fn filename_root_components(module: &Module, found_package: &FoundPackage) -> (parts: Vec<String>)
    ensures
        parts@.map_values(|part: String| part@) == filename_root(module@, *found_package),
{
    let package_chars = chars_of(found_package.name.as_str());
    let top_level_components = split_chars(&package_chars, '.');
    let module_chars = chars_of(module.name.as_str());
    let module_components = split_chars(&module_chars, '.');
    let mut filename_root_components: Vec<String> = Vec::new();
    filename_root_components.push(found_package.directory.clone());
    let ghost wanted = filename_root(module@, *found_package);
    assert(filename_root_components@.map_values(|part: String| part@) =~= seq![
        found_package.directory@,
    ]);
    if top_level_components.len() <= module_components.len() {
        let mut i: usize = top_level_components.len();
        while i < module_components.len()
            invariant
                top_level_components@.len() <= i <= module_components@.len(),
                views(module_components@) == components(module@),
                filename_root_components@.map_values(|part: String| part@) == seq![
                    found_package.directory@,
                ] + components(module@).subrange(top_level_components@.len() as int, i as int),
            decreases module_components.len() - i,
        {
            let ghost before = filename_root_components@.map_values(|part: String| part@);
            let part = string_of(&module_components[i]);
            assert(part@ == views(module_components@)[i as int]);
            filename_root_components.push(part);
            assert(filename_root_components@.map_values(|part: String| part@) =~= before.push(
                components(module@)[i as int],
            ));
            assert(filename_root_components@.map_values(|part: String| part@) =~= seq![
                found_package.directory@,
            ] + components(module@).subrange(top_level_components@.len() as int, i + 1));
            i = i + 1;
        }
        assert(components(module@).subrange(
            top_level_components@.len() as int,
            module_components@.len() as int,
        ) =~= components(module@).skip(top_level_components@.len() as int));
    } else {
        assert(filename_root_components@.map_values(|part: String| part@) =~= wanted);
    }
    filename_root_components
}

/// The file that holds a module, given its two candidates and whether
/// each exists: the plain file if it exists, or else the package's file if
/// that exists.
pub open spec fn chosen_module_file(
    module_name: Seq<char>,
    normal_module_path: Seq<char>,
    normal_exists: bool,
    init_module_path: Seq<char>,
    init_exists: bool,
) -> Result<Seq<char>, GrimpErrorView> {
    if normal_exists {
        Ok(normal_module_path)
    } else if init_exists {
        Ok(init_module_path)
    } else {
        Err(GrimpErrorView::ModuleFileNotFound(module_name))
    }
}

/// Chooses the file that holds a module among its two candidates.
pub fn choose_module_file(
    module: &Module,
    normal_module_path: String,
    normal_exists: bool,
    init_module_path: String,
    init_exists: bool,
) -> (filename: Result<String, GrimpError>)
    ensures
        crate::errors::text_result_view(filename) == chosen_module_file(
            module@,
            normal_module_path@,
            normal_exists,
            init_module_path@,
            init_exists,
        ),
{
    if normal_exists {
        Ok(normal_module_path)
    } else if init_exists {
        Ok(init_module_path)
    } else {
        Err(GrimpError::ModuleFileNotFound(module.name.clone()))
    }
}

/// The two files that may hold a module, as the file system names them:
/// the root of the module's file name with `.py` after it, and
/// `__init__.py` joined to that root.
pub open spec fn module_file_candidates<F: FileSystem>(
    file_system: &F,
    module_name: Seq<char>,
    package: FoundPackage,
) -> Option<(Seq<char>, Seq<char>)> {
    match file_system.joined(filename_root(module_name, package)) {
        Some(root) => match file_system.joined(seq![root, "__init__.py"@]) {
            Some(init_module_path) => Some((root + ".py"@, init_module_path)),
            None => None,
        },
        None => None,
    }
}

/// The file that holds a module in a file system that says how it joins
/// paths and which files it holds.
pub open spec fn module_file<F: FileSystem>(
    file_system: &F,
    module_name: Seq<char>,
    package: FoundPackage,
) -> Option<Result<Seq<char>, GrimpErrorView>> {
    match (module_file_candidates(file_system, module_name, package), file_system.held()) {
        (Some(candidates), Some(files)) => Some(
            chosen_module_file(
                module_name,
                candidates.0,
                files.contains_key(candidates.0),
                candidates.1,
                files.contains_key(candidates.1),
            ),
        ),
        _ => None,
    }
}

/// Finds the file that holds the module: the root of its file name with
/// `.py` after it, or else `__init__.py` joined to that root, whichever
/// the file system has, in this order. Fails if it has neither.
pub fn _determine_module_filename<F: FileSystem>(
    module: &Module,
    found_package: &FoundPackage,
    file_system: &F,
) -> (filename: Result<String, GrimpError>)
    ensures
        filename matches Err(e) ==> e@ == GrimpErrorView::ModuleFileNotFound(module@),
        module_file_candidates(file_system, module@, *found_package) matches Some(candidates)
            ==> (filename matches Ok(path) ==> path@ == candidates.0 || path@ == candidates.1),
        module_file(file_system, module@, *found_package) matches Some(chosen)
            ==> crate::errors::text_result_view(filename) == chosen,
{
    let filename_root_components = filename_root_components(module, found_package);
    let filename_root = file_system.join(filename_root_components);
    let normal_module_path = filename_root.clone().concat(".py");
    let mut init_components: Vec<String> = Vec::new();
    init_components.push(filename_root);
    init_components.push("__init__.py".to_owned());
    assert(init_components@.map_values(|c: String| c@) =~= seq![filename_root@, "__init__.py"@]);
    let init_module_path = file_system.join(init_components);
    let normal_exists = file_system.file_exists(normal_module_path.as_str());
    let init_exists = if normal_exists {
        false
    } else {
        file_system.file_exists(init_module_path.as_str())
    };
    choose_module_file(module, normal_module_path, normal_exists, init_module_path, init_exists)
}

/// Whether the last component of a file name is that of a package's file.
pub fn is_init_file(tail: &str) -> (r: bool)
    ensures
        r == (tail@ == "__init__.py"@),
{
    let tail_chars = chars_of(tail);
    let init_chars = chars_of("__init__.py");
    same_chars(&tail_chars, &init_chars)
}

/// Whether a file with this last component is a package's file.
pub open spec fn names_package(tail: Seq<char>) -> bool {
    tail == "__init__.py"@
}

/// Whether the module in this file is a package: whether the file system
/// gives `__init__.py` as the last component of the file's name.
pub fn _module_is_package<F: FileSystem>(module_filename: &str, file_system: &F) -> (is_package: bool)
    ensures
        file_system.split_of(module_filename@) matches Some(parts) ==> is_package == names_package(
            parts.1,
        ),
{
    let parts = file_system.split(module_filename);
    is_init_file(parts.1.as_str())
}

/// The file of a module and its text, in a file system that says how it
/// joins paths and which files it holds; or the failure that comes before
/// any text is had: that no package lists the module, or that neither of
/// its files is there.
pub open spec fn module_source<F: FileSystem>(
    file_system: &F,
    module_name: Seq<char>,
    packages: Seq<FoundPackage>,
) -> Option<Result<(Seq<char>, Seq<char>), GrimpErrorView>> {
    match first_owner(packages, module_name) {
        None => Some(Err(GrimpErrorView::MissingOwner(module_name))),
        Some(owner) => match (module_file(file_system, module_name, owner), file_system.held()) {
            (Some(Ok(filename)), Some(files)) => match read_from(files, filename) {
                Ok(text) => Some(Ok((filename, text))),
                Err(e) => Some(Err(e)),
            },
            (Some(Err(e)), _) => Some(Err(e)),
            _ => None,
        },
    }
}

/// The failure of a module's scan that is certain before its text is
/// parsed, if there is one.
pub open spec fn certain_failure<F: FileSystem>(
    file_system: &F,
    module_name: Seq<char>,
    packages: Seq<FoundPackage>,
) -> Option<GrimpErrorView> {
    match module_source(file_system, module_name, packages) {
        Some(Err(e)) => Some(e),
        _ => None,
    }
}

/// Whether `is_package` is what the file system says of the module's
/// file, as far as it says which file that is and how it is split.
pub open spec fn package_as_known<F: FileSystem>(
    file_system: &F,
    module_name: Seq<char>,
    packages: Seq<FoundPackage>,
    is_package: bool,
) -> bool {
    match module_source(file_system, module_name, packages) {
        Some(Ok(source)) => match file_system.split_of(source.0) {
            Some(parts) => is_package == names_package(parts.1),
            None => true,
        },
        _ => true,
    }
}

/// What scanning one module gives, as far as the file system and the
/// parser say what their answers are: the failure to find the module's
/// file, the parser's failure, or what resolving the parsed imports
/// gives. The parser is shown the text of the module's file and the name
/// of that file.
pub open spec fn module_scan<F: FileSystem, P: ImportParser>(
    file_system: &F,
    parser: &P,
    module_name: Seq<char>,
    packages: Seq<FoundPackage>,
    modules: Set<Seq<char>>,
    include_external_packages: bool,
    exclude_type_checking_imports: bool,
) -> Option<Result<Set<DirectImportView>, GrimpErrorView>> {
    match module_source(file_system, module_name, packages) {
        None => None,
        Some(Err(e)) => Some(Err(e)),
        Some(Ok(source)) => match parser.parsed(source.1, source.0) {
            None => None,
            Some(Err(e)) => Some(Err(e)),
            Some(Ok(imports)) => match file_system.split_of(source.0) {
                None => None,
                Some(parts) => Some(
                    resolution(
                        module_name,
                        names_package(parts.1),
                        imports,
                        modules,
                        package_names(packages),
                        include_external_packages,
                        exclude_type_checking_imports,
                    ),
                ),
            },
        },
    }
}

/// What scanning the modules in turn gives, as far as the file system and
/// the parser say what their answers are: the failure of the first module
/// that fails, or else the imports of every module.
pub open spec fn scan_of<F: FileSystem, P: ImportParser>(
    file_system: &F,
    parser: &P,
    modules: Seq<Module>,
    packages: Seq<FoundPackage>,
    include_external_packages: bool,
    exclude_type_checking_imports: bool,
) -> Option<Result<Map<Seq<char>, Set<DirectImportView>>, GrimpErrorView>>
    decreases modules.len(),
{
    if modules.len() == 0 {
        Some(Ok(Map::empty()))
    } else {
        match scan_of(
            file_system,
            parser,
            modules.drop_last(),
            packages,
            include_external_packages,
            exclude_type_checking_imports,
        ) {
            None => None,
            Some(Err(e)) => Some(Err(e)),
            Some(Ok(before)) => match module_scan(
                file_system,
                parser,
                modules.last()@,
                packages,
                listed_modules(packages),
                include_external_packages,
                exclude_type_checking_imports,
            ) {
                None => None,
                Some(Err(e)) => Some(Err(e)),
                Some(Ok(imports)) => Some(Ok(before.insert(modules.last()@, imports))),
            },
        }
    }
}

/// Once the scan of the first modules has failed, or says nothing, so
/// does the scan of all.
pub proof fn lemma_scan_stops<F: FileSystem, P: ImportParser>(
    file_system: &F,
    parser: &P,
    modules: Seq<Module>,
    packages: Seq<FoundPackage>,
    include_external_packages: bool,
    exclude_type_checking_imports: bool,
    i: int,
)
    requires
        0 <= i <= modules.len(),
        !(scan_of(
            file_system,
            parser,
            modules.take(i),
            packages,
            include_external_packages,
            exclude_type_checking_imports,
        ) matches Some(Ok(_))),
    ensures
        scan_of(
            file_system,
            parser,
            modules,
            packages,
            include_external_packages,
            exclude_type_checking_imports,
        ) == scan_of(
            file_system,
            parser,
            modules.take(i),
            packages,
            include_external_packages,
            exclude_type_checking_imports,
        ),
    decreases modules.len() - i,
{
    if i < modules.len() {
        let longer = modules.take(i + 1);
        assert(longer.drop_last() =~= modules.take(i));
        lemma_scan_stops(
            file_system,
            parser,
            modules,
            packages,
            include_external_packages,
            exclude_type_checking_imports,
            i + 1,
        );
    } else {
        assert(modules.take(i) =~= modules);
    }
}

/// Scans one module: finds its file, has it parsed, and resolves what the
/// parser found. Fails if no package lists the module, if its file cannot
/// be found, read or parsed, or if one of its imports climbs above its
/// top-level package.
pub fn scan_for_imports_no_py_single_module<F: FileSystem, P: ImportParser>(
    module: &Module,
    file_system: &F,
    parser: &P,
    found_packages: &Vec<FoundPackage>,
    all_modules: &Vec<Module>,
    include_external_packages: bool,
    exclude_type_checking_imports: bool,
) -> (imports: Result<Vec<DirectImport>, GrimpError>)
    ensures
        module_scan(
            file_system,
            parser,
            module@,
            found_packages@,
            names_of(all_modules@),
            include_external_packages,
            exclude_type_checking_imports,
        ) matches Some(answer) ==> import_set_result_view(imports) == answer,
        !listed_modules(found_packages@).contains(module@) ==> (imports matches Err(e) && e@
            == GrimpErrorView::MissingOwner(module@)),
        certain_failure(file_system, module@, found_packages@) matches Some(failure) ==> (
        imports matches Err(e) && e@ == failure),
        imports matches Ok(list) ==> {
            &&& listed_modules(found_packages@).contains(module@)
            &&& distinct_imports(list@)
            &&& exists|is_package: bool, parsed: Seq<ParsedImport>|
                import_set(list@) == #[trigger] resolved_imports(
                    module@,
                    is_package,
                    parsed,
                    names_of(all_modules@),
                    package_names(found_packages@),
                    include_external_packages,
                    exclude_type_checking_imports,
                ) && package_as_known(file_system, module@, found_packages@, is_package)
        },
{
    let found_package_for_module = match _lookup_found_package_for_module(module, found_packages) {
        Some(package) => package,
        None => {
            return Err(GrimpError::MissingOwner(module.name.clone()));
        },
    };
    assert(listed_modules(found_packages@).contains(module@)) by {
        let i = choose|i: int|
            0 <= i < found_packages@.len() && #[trigger] found_packages@[i]
                == *found_package_for_module && package_lists(*found_package_for_module, module@);
        assert(package_lists(found_packages@[i], module@));
    }
    let module_filename = match _determine_module_filename(
        module,
        found_package_for_module,
        file_system,
    ) {
        Ok(filename) => filename,
        Err(e) => {
            return Err(e);
        },
    };
    let module_contents = match file_system.read(module_filename.as_str()) {
        Ok(contents) => contents,
        Err(e) => {
            return Err(e);
        },
    };
    let imported_objects = match parser.parse_imports_from_code(
        module_contents.as_str(),
        module_filename.as_str(),
    ) {
        Ok(imported_objects) => imported_objects,
        Err(e) => {
            return Err(e);
        },
    };
    let is_package = _module_is_package(module_filename.as_str(), file_system);
    let resolved = resolve_imports(
        module,
        is_package,
        &imported_objects,
        found_packages,
        all_modules,
        include_external_packages,
        exclude_type_checking_imports,
    );
    proof {
        assert(package_as_known(file_system, module@, found_packages@, is_package));
        if resolved is Ok {
            assert(import_set(resolved->Ok_0@) == resolved_imports(
                module@,
                is_package,
                imported_objects@,
                names_of(all_modules@),
                package_names(found_packages@),
                include_external_packages,
                exclude_type_checking_imports,
            ));
        }
    }
    resolved
}

/// What resolving gives is filed under the module that issues it.
pub proof fn lemma_resolved_importer(
    module_name: Seq<char>,
    is_package: bool,
    imports: Seq<ParsedImport>,
    modules: Set<Seq<char>>,
    packages: Seq<Seq<char>>,
    include_external_packages: bool,
    exclude_type_checking_imports: bool,
    import: DirectImportView,
)
    requires
        resolved_imports(
            module_name,
            is_package,
            imports,
            modules,
            packages,
            include_external_packages,
            exclude_type_checking_imports,
        ).contains(import),
    ensures
        import.importer == module_name,
{
}

/// The view of imports by module or of a failure.
pub open spec fn scanned_view(result: Result<ImportsByModule, GrimpError>) -> Result<
    Map<Seq<char>, Set<DirectImportView>>,
    GrimpErrorView,
> {
    match result {
        Ok(imports) => Ok(imports@),
        Err(e) => Err(e@),
    }
}

/// Scans the modules for the imports they issue. The internal modules are
/// those that the packages list. The result holds every scanned module,
/// also one without imports. Fails on the first module that fails.
pub fn scan_for_imports_no_py<F: FileSystem, P: ImportParser>(
    file_system: &F,
    parser: &P,
    found_packages: &Vec<FoundPackage>,
    include_external_packages: bool,
    modules: &Vec<Module>,
    exclude_type_checking_imports: bool,
) -> (scanned: Result<ImportsByModule, GrimpError>)
    ensures
        scan_of(
            file_system,
            parser,
            modules@,
            found_packages@,
            include_external_packages,
            exclude_type_checking_imports,
        ) matches Some(answer) ==> scanned_view(scanned) == answer,
        modules@.len() == 0 ==> scanned is Ok,
        !names_of(modules@).subset_of(listed_modules(found_packages@)) ==> scanned is Err,
        scanned matches Err(e) ==> exists|i: int|
            {
                &&& 0 <= i < modules@.len()
                &&& forall|k: int|
                    0 <= k < i ==> certain_failure(
                        file_system,
                        (#[trigger] modules@[k])@,
                        found_packages@,
                    ) is None
                &&& certain_failure(file_system, (#[trigger] modules@[i])@, found_packages@) matches Some(
                    failure,
                ) ==> e@ == failure
            },
        scanned matches Ok(imports_by_module) ==> {
            &&& imports_by_module@.dom() == names_of(modules@)
            &&& importers_match(imports_by_module@)
            &&& forall|name: Seq<char>| #[trigger]
                imports_by_module@.contains_key(name) ==> exists|
                    is_package: bool,
                    parsed: Seq<ParsedImport>,
                |
                    imports_by_module@[name] == #[trigger] resolved_imports(
                        name,
                        is_package,
                        parsed,
                        listed_modules(found_packages@),
                        package_names(found_packages@),
                        include_external_packages,
                        exclude_type_checking_imports,
                    ) && package_as_known(file_system, name, found_packages@, is_package)
        },
{
    let all_modules = get_modules_from_found_packages(found_packages);
    let ghost internal = listed_modules(found_packages@);
    let ghost packages = package_names(found_packages@);
    let mut imports_by_module = ImportsByModule::new();
    let mut i: usize = 0;
    while i < modules.len()
        invariant
            i <= modules@.len(),
            internal == listed_modules(found_packages@),
            internal == names_of(all_modules@),
            packages == package_names(found_packages@),
            forall|k: int| 0 <= k < i ==> internal.contains((#[trigger] modules@[k])@),
            scan_of(
                file_system,
                parser,
                modules@.take(i as int),
                found_packages@,
                include_external_packages,
                exclude_type_checking_imports,
            ) matches Some(answer) ==> answer == Ok::<
                Map<Seq<char>, Set<DirectImportView>>,
                GrimpErrorView,
            >(imports_by_module@),
            forall|k: int|
                0 <= k < i ==> certain_failure(
                    file_system,
                    (#[trigger] modules@[k])@,
                    found_packages@,
                ) is None,
            forall|name: Seq<char>| #[trigger]
                imports_by_module@.contains_key(name) <==> exists|k: int|
                    0 <= k < i && (#[trigger] modules@[k])@ == name,
            forall|name: Seq<char>| #[trigger]
                imports_by_module@.contains_key(name) ==> exists|
                    is_package: bool,
                    parsed: Seq<ParsedImport>,
                |
                    imports_by_module@[name] == #[trigger] resolved_imports(
                        name,
                        is_package,
                        parsed,
                        internal,
                        packages,
                        include_external_packages,
                        exclude_type_checking_imports,
                    ) && package_as_known(file_system, name, found_packages@, is_package),
        decreases modules.len() - i,
    {
        let module = &modules[i];
        proof {
            let longer = modules@.take(i + 1);
            assert(longer.drop_last() =~= modules@.take(i as int));
            assert(longer.last() == modules@[i as int]);
        }
        let imports_for_module = match scan_for_imports_no_py_single_module(
            module,
            file_system,
            parser,
            found_packages,
            &all_modules,
            include_external_packages,
            exclude_type_checking_imports,
        ) {
            Ok(imports) => imports,
            Err(e) => {
                proof {
                    if scan_of(
                        file_system,
                        parser,
                        modules@,
                        found_packages@,
                        include_external_packages,
                        exclude_type_checking_imports,
                    ) is Some {
                        lemma_scan_stops(
                            file_system,
                            parser,
                            modules@,
                            found_packages@,
                            include_external_packages,
                            exclude_type_checking_imports,
                            i + 1,
                        );
                    }
                }
                return Err(e);
            },
        };
        let ghost before = imports_by_module@;
        imports_by_module = imports_by_module.with_module(module.duplicate(), imports_for_module);
        proof {
            assert forall|name: Seq<char>| #[trigger]
                imports_by_module@.contains_key(name) <==> exists|k: int|
                    0 <= k < i + 1 && (#[trigger] modules@[k])@ == name by {
                if before.contains_key(name) {
                    let k = choose|k: int| 0 <= k < i && (#[trigger] modules@[k])@ == name;
                    assert(0 <= k < i + 1 && modules@[k]@ == name);
                }
                if name == module@ {
                    assert(modules@[i as int]@ == name);
                }
            }
        }
        i = i + 1;
    }
    proof {
        assert(modules@.take(modules@.len() as int) =~= modules@);
        assert(imports_by_module@.dom() =~= names_of(modules@)) by {
            assert forall|name: Seq<char>| imports_by_module@.dom().contains(name) == names_of(
                modules@,
            ).contains(name) by {
                if names_of(modules@).contains(name) {
                    let k = choose|k: int| 0 <= k < modules@.len() && modules@[k].view() == name;
                    assert(modules@[k]@ == name);
                }
            }
        }
        assert(names_of(modules@).subset_of(internal)) by {
            assert forall|name: Seq<char>| names_of(modules@).contains(name) implies internal.contains(
                name,
            ) by {
                let k = choose|k: int| 0 <= k < modules@.len() && modules@[k].view() == name;
                assert(internal.contains(modules@[k]@));
            }
        }
        assert forall|module: Seq<char>, import: DirectImportView|
            imports_by_module@.contains_key(module) && #[trigger] imports_by_module@[module].contains(
                import,
            ) implies import.importer == module by {
            let (is_package, parsed) = choose|is_package: bool, parsed: Seq<ParsedImport>|
                imports_by_module@[module] == #[trigger] resolved_imports(
                    module,
                    is_package,
                    parsed,
                    internal,
                    packages,
                    include_external_packages,
                    exclude_type_checking_imports,
                ) && package_as_known(file_system, module, found_packages@, is_package);
            lemma_resolved_importer(
                module,
                is_package,
                parsed,
                internal,
                packages,
                include_external_packages,
                exclude_type_checking_imports,
                import,
            );
        }
    }
    Ok(imports_by_module)
}

} // verus!

//! Modules and the packages that were found to hold them.
use vstd::prelude::*;

verus! {

/// A module, identified by its dotted name.
#[derive(Debug, Clone, PartialEq, Eq, Hash)]
pub struct Module {
    pub name: String,
}

impl View for Module {
    type V = Seq<char>;

    open spec fn view(&self) -> Seq<char> {
        self.name@
    }
}

/// A module together with the file that holds it.
#[derive(Debug, Clone, PartialEq, Eq, Hash)]
pub struct ModuleFile {
    pub module: Module,
    pub filename: String,
}

/// A package rooted at `name`, found in `directory`, with its module files.
#[derive(Debug, Clone, PartialEq, Eq, Hash)]
pub struct FoundPackage {
    pub name: String,
    pub directory: String,
    pub module_files: Vec<ModuleFile>,
}

/// The names of the modules in `modules`, as a set.
pub open spec fn names_of(modules: Seq<Module>) -> Set<Seq<char>> {
    Set::new(|name: Seq<char>| exists|i: int| 0 <= i < modules.len() && modules[i].view() == name)
}

/// Whether `package` lists a module file for the module called `name`.
pub open spec fn package_lists(package: FoundPackage, name: Seq<char>) -> bool {
    exists|j: int|
        0 <= j < package.module_files@.len() && (#[trigger] package.module_files@[j]).module@
            == name
}

/// The names of all modules that some package in `packages` lists.
pub open spec fn listed_modules(packages: Seq<FoundPackage>) -> Set<Seq<char>> {
    Set::new(
        |name: Seq<char>|
            exists|i: int| 0 <= i < packages.len() && package_lists(#[trigger] packages[i], name),
    )
}

/// The names of the packages, in order.
pub open spec fn package_names(packages: Seq<FoundPackage>) -> Seq<Seq<char>> {
    packages.map_values(|p: FoundPackage| p.name@)
}

/// Whether no two modules in `modules` share a name.
pub open spec fn distinct_names(modules: Seq<Module>) -> bool {
    forall|i: int, j: int|
        0 <= i < j < modules.len() ==> (#[trigger] modules[i]).view() != (#[trigger] modules[j]).view()
}

impl Module {
    pub fn new(name: String) -> (m: Module)
        ensures
            m@ == name@,
    {
        Module { name }
    }

    /// A copy with the same name.
    pub fn duplicate(&self) -> (m: Module)
        ensures
            m == *self,
    {
        Module { name: self.name.clone() }
    }
}

/// Whether `modules` holds a module called `name`.
pub fn holds_module(modules: &Vec<Module>, name: &String) -> (r: bool)
    ensures
        r == names_of(modules@).contains(name@),
{
    let mut i: usize = 0;
    while i < modules.len()
        invariant
            i <= modules.len(),
            forall|j: int| 0 <= j < i ==> modules@[j].view() != name@,
        decreases modules.len() - i,
    {
        if modules[i].name == *name {
            return true;
        }
        i = i + 1;
    }
    false
}

/// The modules that the packages list, each once: the internal modules.
pub fn get_modules_from_found_packages(found_packages: &Vec<FoundPackage>) -> (modules: Vec<Module>)
    ensures
        names_of(modules@) == listed_modules(found_packages@),
        distinct_names(modules@),
{
    let mut modules: Vec<Module> = Vec::new();
    let mut i: usize = 0;
    while i < found_packages.len()
        invariant
            i <= found_packages.len(),
            names_of(modules@) == listed_modules(found_packages@.take(i as int)),
            distinct_names(modules@),
        decreases found_packages.len() - i,
    {
        let package = &found_packages[i];
        let mut j: usize = 0;
        while j < package.module_files.len()
            invariant
                i < found_packages.len(),
                *package == found_packages@[i as int],
                j <= package.module_files.len(),
                distinct_names(modules@),
                forall|name: Seq<char>| #[trigger]
                    names_of(modules@).contains(name) <==> (listed_modules(
                        found_packages@.take(i as int),
                    ).contains(name) || exists|k: int|
                        0 <= k < j && (#[trigger] package.module_files@[k]).module@ == name),
            decreases package.module_files.len() - j,
        {
            let candidate = &package.module_files[j].module;
            let ghost before = modules@;
            if !holds_module(&modules, &candidate.name) {
                modules.push(candidate.duplicate());
                assert(forall|k: int| 0 <= k < before.len() ==> modules@[k] == before[k]);
                assert(modules@[before.len() as int].view() == candidate@);
            }
            assert forall|name: Seq<char>| #[trigger]
                names_of(modules@).contains(name) <==> (listed_modules(
                    found_packages@.take(i as int),
                ).contains(name) || exists|k: int|
                    0 <= k < j + 1 && (#[trigger] package.module_files@[k]).module@ == name) by {
                if names_of(before).contains(name) {
                    let w = choose|w: int| 0 <= w < before.len() && before[w].view() == name;
                    assert(modules@[w].view() == name);
                }
                if name == candidate@ {
                    assert(package.module_files@[j as int].module@ == name);
                }
            }
            j = j + 1;
        }
        proof {
            let done = found_packages@.take(i as int);
            let next = found_packages@.take(i + 1);
            assert(forall|k: int| 0 <= k < i ==> next[k] == done[k]);
            assert(next[i as int] == *package);
            assert forall|name: Seq<char>|
                names_of(modules@).contains(name) == listed_modules(next).contains(name) by {
                if listed_modules(done).contains(name) {
                    let w = choose|w: int| 0 <= w < done.len() && package_lists(done[w], name);
                    assert(package_lists(next[w], name));
                }
                if package_lists(*package, name) {
                    assert(package_lists(next[i as int], name));
                }
                if listed_modules(next).contains(name) {
                    let w = choose|w: int| 0 <= w < next.len() && package_lists(next[w], name);
                    if w < i {
                        assert(package_lists(done[w], name));
                    }
                }
            }
            assert(names_of(modules@) =~= listed_modules(next));
        }
        i = i + 1;
    }
    proof {
        assert(found_packages@.take(found_packages@.len() as int) =~= found_packages@);
    }
    modules
}

} // verus!

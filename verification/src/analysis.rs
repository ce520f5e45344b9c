//! What a complete analysis of a set of flows is, and what follows from it.

use crate::dependency_graph::{State, VersionError};
use crate::resources::{
    dependencies_of, first_index, lemma_first_index, own_interval_of, paths_of, source_of,
    unresolved_of, ModuleSource,
};
use crate::sdk_version::{intersection, unbounded_from, SdkVersionOut};
use crate::utils::{normalized, texts};
use crate::version_visitor::{block_neutralized, VersionFile};
use vstd::prelude::*;

verus! {

/// A module, as the engine sees it.
pub struct ModuleModel {
    /// The canonical path of the module's file.
    pub path: Seq<char>,
    pub state: State,
    /// The files that its imports lead to, in source order.
    pub dependencies: Seq<Seq<char>>,
    /// The versions that its own code can run on.
    pub own_interval: SdkVersionOut,
    /// The versions that it can run on together with all it depends on.
    pub final_interval: Option<SdkVersionOut>,
    /// Whether it is one of the flows that the analysis was asked about.
    pub is_entry_point: bool,
}

/// A module that is known by its path only.
pub open spec fn fresh_module(is_entry_point: bool, path: Seq<char>) -> ModuleModel {
    ModuleModel {
        path,
        state: State::NotProcessed,
        dependencies: Seq::empty(),
        own_interval: unbounded_from(0),
        final_interval: None,
        is_entry_point,
    }
}

/// The paths of a list of modules.
pub open spec fn module_paths(modules: Seq<ModuleModel>) -> Seq<Seq<char>> {
    Seq::new(modules.len(), |i: int| modules[i].path)
}

/// Whether one of `modules` has the path `path`.
pub open spec fn has_module(modules: Seq<ModuleModel>, path: Seq<char>) -> bool {
    exists|m: int| 0 <= m < modules.len() && (#[trigger] modules[m]).path == path
}

/// Whether no two of `modules` have the same path.
pub open spec fn distinct_paths(modules: Seq<ModuleModel>) -> bool {
    forall|i: int, j: int|
        0 <= i < modules.len() && 0 <= j < modules.len() && i != j ==> (#[trigger] modules[i]).path
            != (#[trigger] modules[j]).path
}

/// The final interval of the module `path`, or the interval that constrains
/// nothing where there is no such module or its final interval is not known.
pub open spec fn final_of(modules: Seq<ModuleModel>, path: Seq<char>) -> SdkVersionOut {
    match first_index(module_paths(modules), path) {
        Some(index) => match modules[index].final_interval {
            Some(interval) => interval,
            None => unbounded_from(0),
        },
        None => unbounded_from(0),
    }
}

/// The intersection of the final intervals of the first `count` of
/// `dependencies`; the interval that constrains nothing if there are none.
pub open spec fn dependencies_interval(
    modules: Seq<ModuleModel>,
    dependencies: Seq<Seq<char>>,
    count: int,
) -> SdkVersionOut
    decreases count,
{
    if count <= 0 || count > dependencies.len() {
        unbounded_from(0)
    } else {
        intersection(
            dependencies_interval(modules, dependencies, count - 1),
            final_of(modules, dependencies[count - 1]),
        )
    }
}

/// The canonical paths of the flows that an analysis is asked about.
pub open spec fn entry_points_of(top_node_paths: Seq<String>) -> Seq<Seq<char>> {
    Seq::new(top_node_paths.len(), |i: int| normalized(top_node_paths[i]@, false))
}

/// Whether the module `importer` was parsed and one of its imports leads to
/// the file `imported`.
pub open spec fn imports(
    given: Seq<(String, ModuleSource)>,
    importer: Seq<char>,
    imported: Seq<char>,
) -> bool {
    match source_of(given, importer) {
        Some(source) => dependencies_of(source).contains(imported),
        None => false,
    }
}

/// Whether the file of the module `path` was given and parsed, and every one
/// of its imports led to a file.
pub open spec fn fully_resolved(given: Seq<(String, ModuleSource)>, path: Seq<char>) -> bool {
    &&& source_of(given, path) is Some
    &&& source_of(given, path)->0 is Parsed
    &&& unresolved_of(source_of(given, path)->0).len() == 0
}

/// Whether `chain` starts at an entry point and each of its modules but the
/// last is fully resolved and imports the next.
pub open spec fn is_import_chain(
    given: Seq<(String, ModuleSource)>,
    entry_points: Seq<Seq<char>>,
    chain: Seq<Seq<char>>,
) -> bool {
    &&& chain.len() >= 1
    &&& entry_points.contains(chain[0])
    &&& forall|k: int|
        0 <= k < chain.len() - 1 ==> fully_resolved(given, #[trigger] chain[k]) && imports(
            given,
            chain[k],
            chain[k + 1],
        )
}

/// Whether the analysis gets as far as the module `path`: it is an entry
/// point, or a module that the analysis gets to, and whose scan succeeds,
/// imports it. Nothing behind a module whose file is missing or unparsable, or
/// one of whose imports leads nowhere, is reachable through that module.
pub open spec fn reachable(
    given: Seq<(String, ModuleSource)>,
    entry_points: Seq<Seq<char>>,
    path: Seq<char>,
) -> bool {
    exists|chain: Seq<Seq<char>>| #[trigger]
        is_import_chain(given, entry_points, chain) && chain.last() == path
}

/// Whether each module of `cycle` is imported by the next, and the last by
/// the first.
pub open spec fn is_import_cycle(
    given: Seq<(String, ModuleSource)>,
    cycle: Seq<Seq<char>>,
) -> bool {
    &&& cycle.len() >= 1
    &&& forall|k: int|
        0 <= k < cycle.len() - 1 ==> imports(given, cycle[k + 1], #[trigger] cycle[k])
    &&& imports(given, cycle[0], cycle.last())
}

/// What is known of the module at `index` once the analysis is complete: its
/// file was parsed, every import led to a file, its own interval is what its
/// code demands, each dependency is a module of the graph, and its final
/// interval is its own narrowed by the final intervals of its dependencies.
pub open spec fn module_complete(
    modules: Seq<ModuleModel>,
    index: int,
    given: Seq<(String, ModuleSource)>,
    table: VersionFile,
) -> bool {
    let module = modules[index];
    &&& module.state == State::Processed
    &&& fully_resolved(given, module.path)
    &&& module.dependencies == dependencies_of(source_of(given, module.path)->0)
    &&& module.own_interval == own_interval_of(source_of(given, module.path)->0, table)
    &&& forall|j: int|
        0 <= j < module.dependencies.len()
            ==> has_module(modules, #[trigger] module.dependencies[j])
    &&& module.final_interval == Some(
        intersection(
            module.own_interval,
            dependencies_interval(
                modules,
                module.dependencies,
                module.dependencies.len() as int,
            ),
        ),
    )
}

/// Whether `changed` is `before` with the version checks of its tree made
/// neutral.
pub open spec fn source_neutralized(
    before: ModuleSource,
    changed: ModuleSource,
    table: VersionFile,
) -> bool {
    &&& before is Parsed
    &&& changed is Parsed
    &&& changed->locations == before->locations
    &&& block_neutralized(before->block, changed->block, Seq::empty(), table)
}

/// Whether the entry `k` of the files counts for one of `modules`.
pub open spec fn entry_of_module(
    modules: Seq<ModuleModel>,
    given: Seq<(String, ModuleSource)>,
    k: int,
) -> bool {
    exists|i: int|
        0 <= i < modules.len() && first_index(paths_of(given), (#[trigger] modules[i]).path)
            == Some(k)
}

/// Whether `current` are the files `given` after the analysis: the tree of
/// each module has its version checks made neutral, and every other entry is
/// as it was.
pub open spec fn sources_settled(
    current: Seq<(String, ModuleSource)>,
    given: Seq<(String, ModuleSource)>,
    modules: Seq<ModuleModel>,
    table: VersionFile,
) -> bool {
    &&& current.len() == given.len()
    &&& forall|k: int| 0 <= k < given.len() ==> (#[trigger] current[k]).0@ == given[k].0@
    &&& forall|k: int|
        0 <= k < given.len() ==> if entry_of_module(modules, given, k) {
            source_neutralized(given[k].1, (#[trigger] current[k]).1, table)
        } else {
            current[k].1 == given[k].1
        }
}

/// The first `count` of `entry_points` without repetitions, in the order of
/// their first occurrence.
pub open spec fn distinct_entries(entry_points: Seq<Seq<char>>, count: int) -> Seq<Seq<char>>
    decreases count,
{
    if count <= 0 || count > entry_points.len() {
        Seq::empty()
    } else {
        let rest = distinct_entries(entry_points, count - 1);
        if rest.contains(entry_points[count - 1]) {
            rest
        } else {
            rest.push(entry_points[count - 1])
        }
    }
}

/// Whether `modules` starts with the modules of `lead`, in that order, and
/// those are its entry points.
pub open spec fn entries_lead(modules: Seq<ModuleModel>, lead: Seq<Seq<char>>) -> bool {
    &&& lead.len() <= modules.len()
    &&& forall|i: int|
        0 <= i < modules.len() ==> (#[trigger] modules[i]).is_entry_point == (i < lead.len())
    &&& forall|i: int| 0 <= i < lead.len() ==> (#[trigger] modules[i]).path == lead[i]
}

/// Whether `ranks` gives each of `modules` a rank above the ranks of its
/// dependencies.
pub open spec fn ranked(modules: Seq<ModuleModel>, ranks: Seq<nat>) -> bool {
    &&& ranks.len() == modules.len()
    &&& forall|i: int, j: int|
        0 <= i < modules.len() && 0 <= j < modules[i].dependencies.len() ==> {
            let m = first_index(module_paths(modules), #[trigger] modules[i].dependencies[j]);
            m is Some && ranks[m->0] < ranks[i]
        }
}

/// Whether `modules` is the complete analysis of the flows `entry_points`
/// over the files `given`: the entry points, marked as such, and everything
/// they depend on, nothing else and nothing twice; the entry points first, in
/// the order in which they were asked about; each module complete; and no
/// module that depends on itself, so that the modules can be ranked with
/// every module above its dependencies.
pub open spec fn analysis_complete(
    modules: Seq<ModuleModel>,
    given: Seq<(String, ModuleSource)>,
    entry_points: Seq<Seq<char>>,
    table: VersionFile,
) -> bool {
    &&& distinct_paths(modules)
    &&& forall|i: int|
        0 <= i < modules.len() ==> #[trigger] module_complete(modules, i, given, table)
    &&& forall|i: int|
        0 <= i < modules.len() ==> reachable(given, entry_points, (#[trigger] modules[i]).path)
    &&& forall|i: int|
        0 <= i < modules.len() ==> ((#[trigger] modules[i]).is_entry_point
            <==> entry_points.contains(modules[i].path))
    &&& forall|t: int|
        0 <= t < entry_points.len() ==> has_module(modules, #[trigger] entry_points[t])
    &&& entries_lead(modules, distinct_entries(entry_points, entry_points.len() as int))
    &&& forall|cycle: Seq<Seq<char>>|
        (forall|k: int| 0 <= k < cycle.len() ==> has_module(modules, #[trigger] cycle[k]))
            ==> !#[trigger] is_import_cycle(given, cycle)
    &&& exists|ranks: Seq<nat>| #[trigger] ranked(modules, ranks)
}

/// Whether `error` is owed: the analysis gets as far as the module it names,
/// through modules whose scans succeed, and what was given for the file of
/// that module is what the error says. A cycle is one of modules whose scans
/// succeed.
pub open spec fn explains(
    error: VersionError,
    given: Seq<(String, ModuleSource)>,
    entry_points: Seq<Seq<char>>,
) -> bool {
    match error {
        VersionError::SourceNotLoaded { path } => reachable(given, entry_points, path@)
            && source_of(given, path@) is None,
        VersionError::ParseFailure { path } => reachable(given, entry_points, path@) && source_of(
            given,
            path@,
        ) == Some(ModuleSource::Unparsable),
        VersionError::UnresolvableImport { path, imports } => reachable(
            given,
            entry_points,
            path@,
        ) && source_of(given, path@) is Some && source_of(given, path@)->0 is Parsed
            && imports@.len() > 0 && texts(imports@) == unresolved_of(source_of(given, path@)->0),
        VersionError::CyclicDependency { path } => reachable(given, entry_points, path@)
            && exists|cycle: Seq<Seq<char>>| #[trigger]
            is_import_cycle(given, cycle) && cycle[0] == path@ && forall|k: int|
                0 <= k < cycle.len() ==> fully_resolved(given, #[trigger] cycle[k]),
    }
}

/// The module that `error` names.
pub open spec fn named_module(error: VersionError) -> Seq<char> {
    match error {
        VersionError::SourceNotLoaded { path } => path@,
        VersionError::ParseFailure { path } => path@,
        VersionError::UnresolvableImport { path, imports } => path@,
        VersionError::CyclicDependency { path } => path@,
    }
}

/// The entry points among the first `count` of `modules` whose final
/// interval is known, each with that interval, in order.
pub open spec fn entry_versions(modules: Seq<ModuleModel>, count: int) -> Seq<
    (Seq<char>, SdkVersionOut),
>
    decreases count,
{
    if count <= 0 || count > modules.len() {
        Seq::empty()
    } else {
        let rest = entry_versions(modules, count - 1);
        let module = modules[count - 1];
        if module.is_entry_point && module.final_interval is Some {
            rest.push((module.path, module.final_interval->0))
        } else {
            rest
        }
    }
}

/// The mathematical value of a list of paths with their intervals.
pub open spec fn versions_view(versions: Seq<(String, SdkVersionOut)>) -> Seq<
    (Seq<char>, SdkVersionOut),
> {
    Seq::new(versions.len(), |i: int| (versions[i].0@, versions[i].1))
}

/// Among distinct paths, the first index of a path is its only index.
pub proof fn lemma_first_index_of_module(modules: Seq<ModuleModel>, index: int)
    requires
        distinct_paths(modules),
        0 <= index < modules.len(),
    ensures
        first_index(module_paths(modules), modules[index].path) == Some(index),
{
    lemma_first_index(module_paths(modules), modules[index].path, 0);
    let found = first_index(module_paths(modules), modules[index].path);
    if found is None {
        assert(module_paths(modules)[index] == modules[index].path);
    }
}

/// A path that a module has is found.
pub proof fn lemma_module_found(modules: Seq<ModuleModel>, path: Seq<char>)
    requires
        has_module(modules, path),
    ensures
        first_index(module_paths(modules), path) is Some,
{
    lemma_first_index(module_paths(modules), path, 0);
    let m = choose|m: int| 0 <= m < modules.len() && (#[trigger] modules[m]).path == path;
    assert(module_paths(modules)[m] == path);
}

/// A path that is found is the path of a module.
pub proof fn lemma_found_module(modules: Seq<ModuleModel>, path: Seq<char>)
    requires
        first_index(module_paths(modules), path) is Some,
    ensures
        has_module(modules, path),
        0 <= first_index(module_paths(modules), path)->0 < modules.len(),
        modules[first_index(module_paths(modules), path)->0].path == path,
{
    lemma_first_index(module_paths(modules), path, 0);
}

/// The intersection of the final intervals of dependencies depends on those
/// final intervals alone.
pub proof fn lemma_dependencies_interval_frame(
    first: Seq<ModuleModel>,
    second: Seq<ModuleModel>,
    dependencies: Seq<Seq<char>>,
    count: int,
)
    requires
        0 <= count <= dependencies.len(),
        forall|j: int|
            0 <= j < count ==> final_of(first, #[trigger] dependencies[j]) == final_of(
                second,
                dependencies[j],
            ),
    ensures
        dependencies_interval(first, dependencies, count) == dependencies_interval(
            second,
            dependencies,
            count,
        ),
    decreases count,
{
    if count > 0 {
        lemma_dependencies_interval_frame(first, second, dependencies, count - 1);
    }
}

/// An entry point is reachable.
pub proof fn lemma_reachable_entry(
    given: Seq<(String, ModuleSource)>,
    entry_points: Seq<Seq<char>>,
    t: int,
)
    requires
        0 <= t < entry_points.len(),
    ensures
        reachable(given, entry_points, entry_points[t]),
{
    let chain = seq![entry_points[t]];
    assert(is_import_chain(given, entry_points, chain));
}

/// What a reachable module imports is reachable, if the scan of that module
/// succeeds.
pub proof fn lemma_reachable_step(
    given: Seq<(String, ModuleSource)>,
    entry_points: Seq<Seq<char>>,
    importer: Seq<char>,
    imported: Seq<char>,
)
    requires
        reachable(given, entry_points, importer),
        fully_resolved(given, importer),
        imports(given, importer, imported),
    ensures
        reachable(given, entry_points, imported),
{
    let chain = choose|chain: Seq<Seq<char>>| #[trigger]
        is_import_chain(given, entry_points, chain) && chain.last() == importer;
    let longer = chain.push(imported);
    assert(is_import_chain(given, entry_points, longer));
}

/// A reachable module is an entry point, or a reachable module whose scan
/// succeeds imports it.
pub proof fn lemma_reachable_from(
    given: Seq<(String, ModuleSource)>,
    entry_points: Seq<Seq<char>>,
    path: Seq<char>,
)
    requires
        reachable(given, entry_points, path),
    ensures
        entry_points.contains(path) || exists|importer: Seq<char>|
            reachable(given, entry_points, importer) && #[trigger] fully_resolved(given, importer)
                && imports(given, importer, path),
{
    let chain = choose|chain: Seq<Seq<char>>| #[trigger]
        is_import_chain(given, entry_points, chain) && chain.last() == path;
    if chain.len() > 1 {
        let shorter = chain.drop_last();
        let importer = shorter.last();
        assert forall|k: int| 0 <= k < shorter.len() - 1 implies fully_resolved(
            given,
            #[trigger] shorter[k],
        ) && imports(given, shorter[k], shorter[k + 1]) by {
            assert(fully_resolved(given, chain[k]) && imports(given, chain[k], chain[k + 1]));
        }
        assert(shorter[0] == chain[0]);
        assert(is_import_chain(given, entry_points, shorter));
        assert(fully_resolved(given, chain[chain.len() - 2]) && imports(
            given,
            chain[chain.len() - 2],
            chain[chain.len() - 2 + 1],
        ));
        assert(reachable(given, entry_points, importer) && fully_resolved(given, importer)
            && imports(given, importer, path));
    }
}

/// No error is owed for a module behind a module whose scan fails: where the
/// scan of every entry point fails, the module that an owed error names is an
/// entry point, and the error is no cycle.
pub proof fn lemma_error_stops_at_failed_scan(
    error: VersionError,
    given: Seq<(String, ModuleSource)>,
    entry_points: Seq<Seq<char>>,
)
    requires
        explains(error, given, entry_points),
        forall|t: int|
            0 <= t < entry_points.len() ==> !fully_resolved(given, #[trigger] entry_points[t]),
    ensures
        entry_points.contains(named_module(error)),
        !(error is CyclicDependency),
{
    let path = named_module(error);
    assert(reachable(given, entry_points, path));
    let chain = choose|chain: Seq<Seq<char>>| #[trigger]
        is_import_chain(given, entry_points, chain) && chain.last() == path;
    let t = choose|t: int| 0 <= t < entry_points.len() && entry_points[t] == chain[0];
    if chain.len() > 1 {
        assert(fully_resolved(given, chain[0int]) && imports(
            given,
            chain[0int],
            chain[0int + 1],
        ));
    }
    assert(path == entry_points[t]);
    if error is CyclicDependency {
        let cycle = choose|cycle: Seq<Seq<char>>| #[trigger]
            is_import_cycle(given, cycle) && cycle[0] == path && forall|k: int|
                0 <= k < cycle.len() ==> fully_resolved(given, #[trigger] cycle[k]);
        assert(fully_resolved(given, cycle[0]));
    }
}

/// An import that leads nowhere stops the analysis at the module that holds
/// it: where each entry point was given and parsed and holds such an import,
/// the error that is owed names an entry point and lists the literal paths of
/// that module that lead nowhere.
pub proof fn lemma_unresolved_import_is_reported(
    error: VersionError,
    given: Seq<(String, ModuleSource)>,
    entry_points: Seq<Seq<char>>,
)
    requires
        explains(error, given, entry_points),
        forall|t: int|
            0 <= t < entry_points.len() ==> source_of(given, #[trigger] entry_points[t]) is Some
                && source_of(given, entry_points[t])->0 is Parsed && unresolved_of(
                source_of(given, entry_points[t])->0,
            ).len() > 0,
    ensures
        error is UnresolvableImport,
        entry_points.contains(named_module(error)),
        texts(error->imports@) == unresolved_of(source_of(given, named_module(error))->0),
{
    lemma_error_stops_at_failed_scan(error, given, entry_points);
    let path = named_module(error);
    let t = choose|t: int| 0 <= t < entry_points.len() && entry_points[t] == path;
    assert(source_of(given, entry_points[t]) is Some);
}

/// In a complete analysis, a module can run on no version that its own code
/// rules out.
pub proof fn lemma_final_within_own(
    modules: Seq<ModuleModel>,
    given: Seq<(String, ModuleSource)>,
    entry_points: Seq<Seq<char>>,
    table: VersionFile,
    index: int,
)
    requires
        analysis_complete(modules, given, entry_points, table),
        0 <= index < modules.len(),
    ensures
        modules[index].final_interval is Some,
        intersection(modules[index].final_interval->0, modules[index].own_interval)
            == modules[index].final_interval->0,
{
    assert(module_complete(modules, index, given, table));
}

/// The intersection of the final intervals of dependencies lies within the
/// final interval of each of them.
proof fn lemma_interval_within_each(
    modules: Seq<ModuleModel>,
    dependencies: Seq<Seq<char>>,
    count: int,
    j: int,
)
    requires
        0 <= j < count <= dependencies.len(),
    ensures
        intersection(
            dependencies_interval(modules, dependencies, count),
            final_of(modules, dependencies[j]),
        ) == dependencies_interval(modules, dependencies, count),
    decreases count,
{
    if j < count - 1 {
        lemma_interval_within_each(modules, dependencies, count - 1, j);
    }
}

/// In a complete analysis, a module can run on no version that one of its
/// dependencies cannot run on.
pub proof fn lemma_final_within_dependency(
    modules: Seq<ModuleModel>,
    given: Seq<(String, ModuleSource)>,
    entry_points: Seq<Seq<char>>,
    table: VersionFile,
    index: int,
    j: int,
)
    requires
        analysis_complete(modules, given, entry_points, table),
        0 <= index < modules.len(),
        0 <= j < modules[index].dependencies.len(),
    ensures
        modules[index].final_interval is Some,
        intersection(
            modules[index].final_interval->0,
            final_of(modules, modules[index].dependencies[j]),
        ) == modules[index].final_interval->0,
{
    assert(module_complete(modules, index, given, table));
    lemma_interval_within_each(
        modules,
        modules[index].dependencies,
        modules[index].dependencies.len() as int,
        j,
    );
}

/// In a complete analysis, what a module imports is a module.
proof fn lemma_import_is_module(
    modules: Seq<ModuleModel>,
    given: Seq<(String, ModuleSource)>,
    entry_points: Seq<Seq<char>>,
    table: VersionFile,
    importer: Seq<char>,
    imported: Seq<char>,
)
    requires
        analysis_complete(modules, given, entry_points, table),
        has_module(modules, importer),
        imports(given, importer, imported),
    ensures
        has_module(modules, imported),
{
    let i = choose|i: int| 0 <= i < modules.len() && (#[trigger] modules[i]).path == importer;
    assert(module_complete(modules, i, given, table));
    let j = choose|j: int|
        0 <= j < modules[i].dependencies.len() && modules[i].dependencies[j] == imported;
    assert(has_module(modules, modules[i].dependencies[j]));
}

/// In a complete analysis, the first `count` modules of an import chain are
/// modules.
proof fn lemma_chain_is_modules(
    modules: Seq<ModuleModel>,
    given: Seq<(String, ModuleSource)>,
    entry_points: Seq<Seq<char>>,
    table: VersionFile,
    chain: Seq<Seq<char>>,
    upto: int,
)
    requires
        analysis_complete(modules, given, entry_points, table),
        is_import_chain(given, entry_points, chain),
        0 <= upto < chain.len(),
    ensures
        has_module(modules, chain[upto]),
    decreases upto,
{
    if upto == 0 {
        let t = choose|t: int| 0 <= t < entry_points.len() && entry_points[t] == chain[0];
        assert(has_module(modules, entry_points[t]));
    } else {
        lemma_chain_is_modules(modules, given, entry_points, table, chain, upto - 1);
        lemma_import_is_module(
            modules,
            given,
            entry_points,
            table,
            chain[upto - 1],
            chain[upto],
        );
    }
}

/// A complete analysis holds every module that an entry point imports,
/// directly or through other modules: each has its file parsed, and every one
/// of its imports leads to a file.
pub proof fn lemma_complete_covers_reachable(
    modules: Seq<ModuleModel>,
    given: Seq<(String, ModuleSource)>,
    entry_points: Seq<Seq<char>>,
    table: VersionFile,
    path: Seq<char>,
)
    requires
        analysis_complete(modules, given, entry_points, table),
        reachable(given, entry_points, path),
    ensures
        has_module(modules, path),
        source_of(given, path) is Some,
        source_of(given, path)->0 is Parsed,
        unresolved_of(source_of(given, path)->0).len() == 0,
{
    let chain = choose|chain: Seq<Seq<char>>| #[trigger]
        is_import_chain(given, entry_points, chain) && chain.last() == path;
    lemma_chain_is_modules(modules, given, entry_points, table, chain, chain.len() - 1);
    let i = choose|i: int| 0 <= i < modules.len() && (#[trigger] modules[i]).path == path;
    assert(module_complete(modules, i, given, table));
}

/// In a complete analysis, the modules of an import cycle from index `from`
/// on are modules, if the first one is.
proof fn lemma_cycle_is_modules(
    modules: Seq<ModuleModel>,
    given: Seq<(String, ModuleSource)>,
    entry_points: Seq<Seq<char>>,
    table: VersionFile,
    cycle: Seq<Seq<char>>,
    from: int,
)
    requires
        analysis_complete(modules, given, entry_points, table),
        is_import_cycle(given, cycle),
        has_module(modules, cycle[0]),
        0 <= from < cycle.len(),
    ensures
        has_module(modules, cycle[from]),
    decreases cycle.len() - from,
{
    if from == cycle.len() - 1 {
        lemma_import_is_module(modules, given, entry_points, table, cycle[0], cycle.last());
    } else {
        lemma_cycle_is_modules(modules, given, entry_points, table, cycle, from + 1);
        lemma_import_is_module(
            modules,
            given,
            entry_points,
            table,
            cycle[from + 1],
            cycle[from],
        );
    }
}

/// Where a module that an entry point reaches lies on a cycle of imports, no
/// analysis is complete.
pub proof fn lemma_cycle_excludes_completion(
    modules: Seq<ModuleModel>,
    given: Seq<(String, ModuleSource)>,
    entry_points: Seq<Seq<char>>,
    table: VersionFile,
    cycle: Seq<Seq<char>>,
)
    requires
        is_import_cycle(given, cycle),
        reachable(given, entry_points, cycle[0]),
    ensures
        !analysis_complete(modules, given, entry_points, table),
{
    if analysis_complete(modules, given, entry_points, table) {
        lemma_complete_covers_reachable(modules, given, entry_points, table, cycle[0]);
        assert forall|k: int|
            0 <= k < cycle.len() implies has_module(modules, #[trigger] cycle[k]) by {
            lemma_cycle_is_modules(modules, given, entry_points, table, cycle, k);
        }
    }
}

/// Over the same files and entry points, an analysis cannot both be complete
/// and have failed: where an error is owed, no complete analysis exists.
pub proof fn lemma_complete_excludes_failure(
    modules: Seq<ModuleModel>,
    given: Seq<(String, ModuleSource)>,
    entry_points: Seq<Seq<char>>,
    table: VersionFile,
    error: VersionError,
)
    requires
        analysis_complete(modules, given, entry_points, table),
    ensures
        !explains(error, given, entry_points),
{
    if explains(error, given, entry_points) {
        match error {
            VersionError::SourceNotLoaded { path } => {
                lemma_complete_covers_reachable(modules, given, entry_points, table, path@);
            },
            VersionError::ParseFailure { path } => {
                lemma_complete_covers_reachable(modules, given, entry_points, table, path@);
            },
            VersionError::UnresolvableImport { path, imports } => {
                lemma_complete_covers_reachable(modules, given, entry_points, table, path@);
            },
            VersionError::CyclicDependency { path } => {
                lemma_complete_covers_reachable(modules, given, entry_points, table, path@);
                let cycle = choose|cycle: Seq<Seq<char>>| #[trigger]
                    is_import_cycle(given, cycle) && cycle[0] == path@;
                assert forall|k: int| 0 <= k < cycle.len() implies has_module(
                    modules,
                    #[trigger] cycle[k],
                ) by {
                    lemma_cycle_is_modules(modules, given, entry_points, table, cycle, k);
                }
            },
        }
    }
}

/// Two complete analyses of the same files agree on the final interval of the
/// module at `index` of the first, whose modules `ranks` ranks.
proof fn lemma_final_determined_ranked(
    first: Seq<ModuleModel>,
    second: Seq<ModuleModel>,
    ranks: Seq<nat>,
    given: Seq<(String, ModuleSource)>,
    entry_points: Seq<Seq<char>>,
    table: VersionFile,
    index: int,
)
    requires
        analysis_complete(first, given, entry_points, table),
        analysis_complete(second, given, entry_points, table),
        ranked(first, ranks),
        0 <= index < first.len(),
    ensures
        has_module(second, first[index].path),
        final_of(first, first[index].path) == final_of(second, first[index].path),
    decreases ranks[index],
{
    let path = first[index].path;
    assert(module_complete(first, index, given, table));
    lemma_complete_covers_reachable(second, given, entry_points, table, path);
    let other = choose|m: int| 0 <= m < second.len() && (#[trigger] second[m]).path == path;
    assert(module_complete(second, other, given, table));
    let dependencies = first[index].dependencies;
    assert forall|j: int| 0 <= j < dependencies.len() implies final_of(
        first,
        #[trigger] dependencies[j],
    ) == final_of(second, dependencies[j]) by {
        let m = first_index(module_paths(first), dependencies[j]);
        lemma_found_module(first, dependencies[j]);
        lemma_final_determined_ranked(first, second, ranks, given, entry_points, table, m->0);
    }
    lemma_dependencies_interval_frame(first, second, dependencies, dependencies.len() as int);
    lemma_first_index_of_module(first, index);
    lemma_first_index_of_module(second, other);
}

/// The final interval of a module is settled by the files, the entry points
/// and the table: two complete analyses of them agree on it, in whatever
/// order each went through the modules.
pub proof fn lemma_final_intervals_determined(
    first: Seq<ModuleModel>,
    second: Seq<ModuleModel>,
    given: Seq<(String, ModuleSource)>,
    entry_points: Seq<Seq<char>>,
    table: VersionFile,
    path: Seq<char>,
)
    requires
        analysis_complete(first, given, entry_points, table),
        analysis_complete(second, given, entry_points, table),
        has_module(first, path),
    ensures
        has_module(second, path),
        final_of(first, path) == final_of(second, path),
{
    let ranks = choose|ranks: Seq<nat>| #[trigger] ranked(first, ranks);
    let index = choose|m: int| 0 <= m < first.len() && (#[trigger] first[m]).path == path;
    lemma_final_determined_ranked(first, second, ranks, given, entry_points, table, index);
}

/// The entry points of a complete analysis with their final intervals, up to
/// the first `count` modules.
proof fn lemma_entry_versions_lead(
    modules: Seq<ModuleModel>,
    given: Seq<(String, ModuleSource)>,
    entry_points: Seq<Seq<char>>,
    table: VersionFile,
    count: int,
)
    requires
        analysis_complete(modules, given, entry_points, table),
        0 <= count <= modules.len(),
    ensures
        entry_versions(modules, count) == Seq::new(
            if count <= distinct_entries(entry_points, entry_points.len() as int).len() {
                count as nat
            } else {
                distinct_entries(entry_points, entry_points.len() as int).len()
            },
            |i: int|
                (
                    distinct_entries(entry_points, entry_points.len() as int)[i],
                    final_of(modules, distinct_entries(entry_points, entry_points.len() as int)[i]),
                ),
        ),
    decreases count,
{
    if count > 0 {
        lemma_entry_versions_lead(modules, given, entry_points, table, count - 1);
        assert(module_complete(modules, count - 1, given, table));
        lemma_first_index_of_module(modules, count - 1);
    }
}

/// The final intervals of the entry points, in the order in which they are
/// listed, are settled by the files, the entry points and the table: two
/// complete analyses of them list the same.
pub proof fn lemma_versions_determined(
    first: Seq<ModuleModel>,
    second: Seq<ModuleModel>,
    given: Seq<(String, ModuleSource)>,
    entry_points: Seq<Seq<char>>,
    table: VersionFile,
)
    requires
        analysis_complete(first, given, entry_points, table),
        analysis_complete(second, given, entry_points, table),
    ensures
        entry_versions(first, first.len() as int) == entry_versions(second, second.len() as int),
{
    let lead = distinct_entries(entry_points, entry_points.len() as int);
    lemma_entry_versions_lead(first, given, entry_points, table, first.len() as int);
    lemma_entry_versions_lead(second, given, entry_points, table, second.len() as int);
    assert forall|i: int| 0 <= i < lead.len() implies final_of(first, #[trigger] lead[i])
        == final_of(second, lead[i]) by {
        assert(first[i].path == lead[i]);
        lemma_final_intervals_determined(first, second, given, entry_points, table, lead[i]);
    }
}

} // verus!

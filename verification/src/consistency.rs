//! What holds of the graph of modules while it is built.

use crate::analysis::{
    analysis_complete, dependencies_interval, distinct_entries, distinct_paths, entries_lead,
    entry_of_module, final_of, fresh_module, fully_resolved, has_module, imports,
    is_import_cycle, lemma_dependencies_interval_frame, lemma_found_module, lemma_module_found,
    module_complete, module_paths, ranked, reachable, source_neutralized, sources_settled,
    ModuleModel,
};
use crate::dependency_graph::State;
use crate::graph::{as_ints, is_cycle, is_topological_order, lemma_ordered_graph_has_no_cycle};
use crate::resources::{
    dependencies_of, first_index, first_index_from, lemma_first_index, own_interval_of, paths_of,
    source_of, unresolved_of, ModuleSource,
};
use crate::sdk_version::{intersection, SdkVersionOut};
use crate::version_visitor::VersionFile;
use vstd::prelude::*;

verus! {

/// Looking a path up in a longer list finds what the shorter list had.
pub(crate) proof fn lemma_first_index_pushed(
    paths: Seq<Seq<char>>,
    added: Seq<char>,
    path: Seq<char>,
    from: int,
)
    requires
        0 <= from <= paths.len(),
    ensures
        first_index_from(paths.push(added), path, from) == match first_index_from(
            paths,
            path,
            from,
        ) {
            Some(index) => Some(index),
            None => if added == path {
                Some(paths.len() as int)
            } else {
                None
            },
        },
    decreases paths.len() - from,
{
    if from < paths.len() {
        if paths[from] != path {
            lemma_first_index_pushed(paths, added, path, from + 1);
        }
    } else {
        assert(first_index_from(paths.push(added), path, from + 1) is None);
    }
}

/// Whether the nodes of the graph and the modules stand for each other: the
/// node of the module at position `i` has the index `mapping[i]` and carries
/// `i`.
pub(crate) open spec fn mapping_ok(nodes: Map<int, int>, mapping: Seq<usize>, count: int) -> bool {
    &&& mapping.len() == count
    &&& forall|i: int|
        0 <= i < count
            ==> nodes.contains_key(#[trigger] mapping[i] as int) && nodes[mapping[i] as int]
            == i
    &&& forall|x: int|
        nodes.contains_key(x) ==> 0 <= #[trigger] nodes[x] < count && mapping[nodes[x]] as int == x
}

/// Whether the entry `k` belongs to a module whose own interval is known.
pub(crate) open spec fn entry_settled(
    modules: Seq<ModuleModel>,
    given: Seq<(String, ModuleSource)>,
    k: int,
) -> bool {
    exists|i: int|
        0 <= i < modules.len() && (#[trigger] modules[i]).state == State::Processed && first_index(
            paths_of(given),
            modules[i].path,
        ) == Some(k)
}

/// Whether the files at hand are the files that were given, but for the trees
/// of the modules whose own interval is known.
pub(crate) open spec fn sources_ok(
    current: Seq<(String, ModuleSource)>,
    given: Seq<(String, ModuleSource)>,
    modules: Seq<ModuleModel>,
) -> bool {
    &&& current.len() == given.len()
    &&& forall|k: int| 0 <= k < given.len() ==> (#[trigger] current[k]).0@ == given[k].0@
    &&& forall|k: int|
        0 <= k < given.len() ==> (#[trigger] current[k]).1 == given[k].1 || entry_settled(
            modules,
            given,
            k,
        )
}

/// Whether the imports of the module at `index` are known: its file was
/// parsed, each import led to a file, and each of those files is a module.
pub(crate) open spec fn module_scanned(
    modules: Seq<ModuleModel>,
    index: int,
    given: Seq<(String, ModuleSource)>,
) -> bool {
    let module = modules[index];
    let source = source_of(given, module.path);
    &&& source is Some
    &&& source->0 is Parsed
    &&& unresolved_of(source->0).len() == 0
    &&& module.dependencies == dependencies_of(source->0)
    &&& forall|j: int|
        0 <= j < module.dependencies.len() ==> first_index(
            module_paths(modules),
            #[trigger] module.dependencies[j],
        ) is Some
}

/// What holds of the module at `index` while the graph is built.
pub(crate) open spec fn module_ok(
    modules: Seq<ModuleModel>,
    index: int,
    current: Seq<(String, ModuleSource)>,
    given: Seq<(String, ModuleSource)>,
    entry_points: Seq<Seq<char>>,
    table: VersionFile,
) -> bool {
    let module = modules[index];
    let at = first_index(paths_of(given), module.path);
    &&& reachable(given, entry_points, module.path)
    &&& (module.is_entry_point <==> entry_points.contains(module.path))
    &&& module.final_interval is None
    &&& match module.state {
        State::NotProcessed => true,
        State::Processing => module_scanned(modules, index, given) && current[at->0].1
            == given[at->0].1,
        State::Processed => module_scanned(modules, index, given) && source_neutralized(
            given[at->0].1,
            current[at->0].1,
            table,
        ) && module.own_interval == own_interval_of(given[at->0].1, table),
    }
}

/// Whether every edge leads from a module to a module that imports it.
pub(crate) open spec fn edges_ok(
    edges: Set<(int, int)>,
    nodes: Map<int, int>,
    modules: Seq<ModuleModel>,
) -> bool {
    forall|a: int, b: int| #[trigger]
        edges.contains((a, b)) ==> nodes.contains_key(a) && nodes.contains_key(b)
            && modules[nodes[b]].state != State::NotProcessed
            && modules[nodes[b]].dependencies.contains(modules[nodes[a]].path)
}

/// Whether the dependency `j` of the module at `i` has its edge, in the
/// graph or among those that wait to be added.
pub(crate) open spec fn dependency_linked(
    modules: Seq<ModuleModel>,
    mapping: Seq<usize>,
    edges: Set<(int, int)>,
    waiting: Set<(int, int)>,
    i: int,
    j: int,
) -> bool {
    let m = first_index(module_paths(modules), modules[i].dependencies[j]);
    m is Some && (edges.contains((mapping[m->0] as int, mapping[i] as int)) || waiting.contains(
        (mapping[m->0] as int, mapping[i] as int),
    ))
}

/// Whether every dependency of every scanned module has its edge, in the
/// graph or among those that wait to be added.
pub(crate) open spec fn all_linked(
    modules: Seq<ModuleModel>,
    mapping: Seq<usize>,
    edges: Set<(int, int)>,
    waiting: Set<(int, int)>,
) -> bool {
    forall|i: int, j: int|
        0 <= i < modules.len() && modules[i].state != State::NotProcessed && 0 <= j
            < modules[i].dependencies.len() ==> #[trigger] dependency_linked(
            modules,
            mapping,
            edges,
            waiting,
            i,
            j,
        )
}

/// The part that a module's state has in the progress of the analysis.
pub(crate) open spec fn rank(state: State) -> nat {
    match state {
        State::NotProcessed => 0,
        State::Processing => 1,
        State::Processed => 2,
    }
}

/// How far the analysis of the first `count` of `modules` has come, in all.
pub(crate) open spec fn progress(modules: Seq<ModuleModel>, count: int) -> nat
    decreases count,
{
    if count <= 0 || count > modules.len() {
        0
    } else {
        progress(modules, count - 1) + rank(modules[count - 1].state)
    }
}

/// No module counts for more than two.
pub(crate) proof fn lemma_progress_bound(modules: Seq<ModuleModel>, count: int)
    requires
        0 <= count <= modules.len(),
    ensures
        progress(modules, count) <= 2 * count,
    decreases count,
{
    if count > 0 {
        lemma_progress_bound(modules, count - 1);
    }
}

/// Whether all of `modules`, `mapping`, the graph and the files fit together
/// while the graph is built. `waiting` holds the edges that were found and
/// not yet added.
pub(crate) open spec fn consistent(
    modules: Seq<ModuleModel>,
    mapping: Seq<usize>,
    nodes: Map<int, int>,
    edges: Set<(int, int)>,
    waiting: Set<(int, int)>,
    current: Seq<(String, ModuleSource)>,
    given: Seq<(String, ModuleSource)>,
    entry_points: Seq<Seq<char>>,
    table: VersionFile,
) -> bool {
    &&& mapping_ok(nodes, mapping, modules.len() as int)
    &&& distinct_paths(modules)
    &&& sources_ok(current, given, modules)
    &&& forall|i: int|
        0 <= i < modules.len() ==> #[trigger] module_ok(
            modules,
            i,
            current,
            given,
            entry_points,
            table,
        )
    &&& edges_ok(edges.union(waiting), nodes, modules)
    &&& all_linked(modules, mapping, edges, waiting)
}

/// A module that is known by its path only, and was not known before, fits
/// in with the rest.
pub(crate) proof fn lemma_consistent_pushed(
    modules: Seq<ModuleModel>,
    mapping: Seq<usize>,
    nodes: Map<int, int>,
    edges: Set<(int, int)>,
    waiting: Set<(int, int)>,
    current: Seq<(String, ModuleSource)>,
    given: Seq<(String, ModuleSource)>,
    entry_points: Seq<Seq<char>>,
    table: VersionFile,
    added: ModuleModel,
    index: usize,
)
    requires
        consistent(modules, mapping, nodes, edges, waiting, current, given, entry_points, table),
        first_index(module_paths(modules), added.path) is None,
        added == fresh_module(added.is_entry_point, added.path),
        reachable(given, entry_points, added.path),
        added.is_entry_point <==> entry_points.contains(added.path),
        !nodes.contains_key(index as int),
    ensures
        consistent(
            modules.push(added),
            mapping.push(index),
            nodes.insert(index as int, modules.len() as int),
            edges,
            waiting,
            current,
            given,
            entry_points,
            table,
        ),
{
    let after = modules.push(added);
    let mapped = mapping.push(index);
    lemma_first_index(module_paths(modules), added.path, 0);
    assert(module_paths(after) =~= module_paths(modules).push(added.path));
    assert forall|i: int, j: int|
        0 <= i < after.len() && 0 <= j < after.len() && i != j implies (#[trigger] after[i]).path
        != (#[trigger] after[j]).path by {
        if i < modules.len() {
            assert(module_paths(modules)[i] == modules[i].path);
        }
        if j < modules.len() {
            assert(module_paths(modules)[j] == modules[j].path);
        }
    }
    assert forall|k: int| 0 <= k < given.len() implies (#[trigger] current[k]).1 == given[k].1
        || entry_settled(after, given, k) by {
        if current[k].1 != given[k].1 {
            let i = choose|i: int|
                0 <= i < modules.len() && (#[trigger] modules[i]).state == State::Processed
                    && first_index(paths_of(given), modules[i].path) == Some(k);
            assert(after[i] == modules[i]);
        }
    }
    assert forall|i: int| 0 <= i < after.len() implies #[trigger] module_ok(
        after,
        i,
        current,
        given,
        entry_points,
        table,
    ) by {
        if i < modules.len() {
            assert(module_ok(modules, i, current, given, entry_points, table));
            if modules[i].state != State::NotProcessed {
                assert forall|j: int| 0 <= j < after[i].dependencies.len() implies first_index(
                    module_paths(after),
                    #[trigger] after[i].dependencies[j],
                ) is Some by {
                    lemma_first_index_pushed(
                        module_paths(modules),
                        added.path,
                        modules[i].dependencies[j],
                        0,
                    );
                }
            }
        }
    }
    assert forall|i: int, j: int|
        0 <= i < after.len() && after[i].state != State::NotProcessed && 0 <= j
            < after[i].dependencies.len() implies #[trigger] dependency_linked(
        after,
        mapped,
        edges,
        waiting,
        i,
        j,
    ) by {
        if i < modules.len() {
            assert(dependency_linked(modules, mapping, edges, waiting, i, j));
            lemma_first_index_pushed(
                module_paths(modules),
                added.path,
                modules[i].dependencies[j],
                0,
            );
            lemma_first_index(module_paths(modules), modules[i].dependencies[j], 0);
        }
    }
}

/// The file of a module whose own interval is not known yet is as given.
pub(crate) proof fn lemma_entry_intact(
    modules: Seq<ModuleModel>,
    current: Seq<(String, ModuleSource)>,
    given: Seq<(String, ModuleSource)>,
    position: int,
    k: int,
)
    requires
        sources_ok(current, given, modules),
        distinct_paths(modules),
        0 <= position < modules.len(),
        modules[position].state != State::Processed,
        first_index(paths_of(given), modules[position].path) == Some(k),
    ensures
        0 <= k < given.len(),
        current[k].1 == given[k].1,
        paths_of(current) == paths_of(given),
{
    lemma_first_index(paths_of(given), modules[position].path, 0);
    if entry_settled(modules, given, k) {
        let i = choose|i: int|
            0 <= i < modules.len() && (#[trigger] modules[i]).state == State::Processed
                && first_index(paths_of(given), modules[i].path) == Some(k);
        lemma_first_index(paths_of(given), modules[i].path, 0);
    }
}

/// The edges that wait to be added, as a set.
pub(crate) open spec fn pending(add_edges: Seq<(usize, usize)>) -> Set<(int, int)> {
    Set::new(
        |edge: (int, int)|
            exists|k: int|
                0 <= k < add_edges.len() && (#[trigger] add_edges[k]).0 as int == edge.0
                    && add_edges[k].1 as int == edge.1,
    )
}

/// The module at `position` with its state and dependencies replaced.
pub(crate) open spec fn scanned_module(
    module: ModuleModel,
    dependencies: Seq<Seq<char>>,
) -> ModuleModel {
    ModuleModel { state: State::Processing, dependencies, ..module }
}

/// The module at `position` with its state and own interval replaced.
pub(crate) open spec fn settled_module(
    module: ModuleModel,
    own_interval: SdkVersionOut,
) -> ModuleModel {
    ModuleModel { state: State::Processed, own_interval, ..module }
}

/// A module whose imports became known, and whose edges wait to be added,
/// fits in with the rest.
pub(crate) proof fn lemma_consistent_scanned(
    modules: Seq<ModuleModel>,
    mapping: Seq<usize>,
    nodes: Map<int, int>,
    edges: Set<(int, int)>,
    waiting: Set<(int, int)>,
    longer: Set<(int, int)>,
    current: Seq<(String, ModuleSource)>,
    given: Seq<(String, ModuleSource)>,
    entry_points: Seq<Seq<char>>,
    table: VersionFile,
    position: int,
    dependencies: Seq<Seq<char>>,
)
    requires
        consistent(modules, mapping, nodes, edges, waiting, current, given, entry_points, table),
        0 <= position < modules.len(),
        modules[position].state == State::NotProcessed,
        source_of(given, modules[position].path) is Some,
        source_of(given, modules[position].path)->0 is Parsed,
        unresolved_of(source_of(given, modules[position].path)->0).len() == 0,
        dependencies == dependencies_of(source_of(given, modules[position].path)->0),
        forall|j: int|
            0 <= j < dependencies.len() ==> first_index(
                module_paths(modules),
                #[trigger] dependencies[j],
            ) is Some,
        forall|edge: (int, int)|
            longer.contains(edge) <==> waiting.contains(edge) || exists|j: int|
                0 <= j < dependencies.len() && edge == (
                    mapping[first_index(
                        module_paths(modules),
                        #[trigger] dependencies[j],
                    )->0] as int,
                    mapping[position] as int,
                ),
    ensures
        consistent(
            modules.update(position, scanned_module(modules[position], dependencies)),
            mapping,
            nodes,
            edges,
            longer,
            current,
            given,
            entry_points,
            table,
        ),
{
    let after = modules.update(position, scanned_module(modules[position], dependencies));
    assert(module_paths(after) =~= module_paths(modules));
    let at = first_index(paths_of(given), modules[position].path);
    lemma_entry_intact(modules, current, given, position, at->0);
    assert forall|k: int| 0 <= k < given.len() implies (#[trigger] current[k]).1 == given[k].1
        || entry_settled(after, given, k) by {
        if current[k].1 != given[k].1 {
            let i = choose|i: int|
                0 <= i < modules.len() && (#[trigger] modules[i]).state == State::Processed
                    && first_index(paths_of(given), modules[i].path) == Some(k);
            assert(after[i] == modules[i]);
        }
    }
    assert forall|i: int| 0 <= i < after.len() implies #[trigger] module_ok(
        after,
        i,
        current,
        given,
        entry_points,
        table,
    ) by {
        assert(module_ok(modules, i, current, given, entry_points, table));
    }
    assert forall|a: int, b: int| #[trigger]
        edges.union(longer).contains((a, b)) implies nodes.contains_key(
        a,
    ) && nodes.contains_key(b) && after[nodes[b]].state != State::NotProcessed
        && after[nodes[b]].dependencies.contains(after[nodes[a]].path) by {
        if !edges.union(waiting).contains((a, b)) {
            let j = choose|j: int|
                0 <= j < dependencies.len() && (a, b) == (
                    mapping[first_index(
                        module_paths(modules),
                        #[trigger] dependencies[j],
                    )->0] as int,
                    mapping[position] as int,
                );
            lemma_first_index(module_paths(modules), dependencies[j], 0);
        }
    }
    assert forall|i: int, j: int|
        0 <= i < after.len() && after[i].state != State::NotProcessed && 0 <= j
            < after[i].dependencies.len() implies #[trigger] dependency_linked(
        after,
        mapping,
        edges,
        longer,
        i,
        j,
    ) by {
        if i != position {
            assert(dependency_linked(modules, mapping, edges, waiting, i, j));
        }
    }
}

/// A module whose own interval became known, and whose version checks were
/// made neutral, fits in with the rest.
pub(crate) proof fn lemma_consistent_settled(
    modules: Seq<ModuleModel>,
    mapping: Seq<usize>,
    nodes: Map<int, int>,
    edges: Set<(int, int)>,
    waiting: Set<(int, int)>,
    current: Seq<(String, ModuleSource)>,
    changed: Seq<(String, ModuleSource)>,
    given: Seq<(String, ModuleSource)>,
    entry_points: Seq<Seq<char>>,
    table: VersionFile,
    position: int,
    k: int,
)
    requires
        consistent(modules, mapping, nodes, edges, waiting, current, given, entry_points, table),
        0 <= position < modules.len(),
        modules[position].state == State::Processing,
        first_index(paths_of(given), modules[position].path) == Some(k),
        changed.len() == current.len(),
        forall|e: int| 0 <= e < current.len() && e != k ==> changed[e] == current[e],
        changed[k].0 == current[k].0,
        source_neutralized(given[k].1, changed[k].1, table),
    ensures
        consistent(
            modules.update(
                position,
                settled_module(modules[position], own_interval_of(given[k].1, table)),
            ),
            mapping,
            nodes,
            edges,
            waiting,
            changed,
            given,
            entry_points,
            table,
        ),
{
    let after = modules.update(
        position,
        settled_module(modules[position], own_interval_of(given[k].1, table)),
    );
    assert(module_paths(after) =~= module_paths(modules));
    lemma_first_index(paths_of(given), modules[position].path, 0);
    assert forall|e: int| 0 <= e < given.len() implies (#[trigger] changed[e]).1 == given[e].1
        || entry_settled(after, given, e) by {
        if e == k {
            assert(after[position].state == State::Processed);
        } else if current[e].1 != given[e].1 {
            let i = choose|i: int|
                0 <= i < modules.len() && (#[trigger] modules[i]).state == State::Processed
                    && first_index(paths_of(given), modules[i].path) == Some(e);
            assert(after[i] == modules[i]);
        }
    }
    assert forall|i: int| 0 <= i < after.len() implies #[trigger] module_ok(
        after,
        i,
        changed,
        given,
        entry_points,
        table,
    ) by {
        assert(module_ok(modules, i, current, given, entry_points, table));
        if i != position {
            if modules[i].state != State::NotProcessed {
                lemma_first_index(paths_of(given), modules[i].path, 0);
            }
        }
    }
    assert forall|i: int, j: int|
        0 <= i < after.len() && after[i].state != State::NotProcessed && 0 <= j
            < after[i].dependencies.len() implies #[trigger] dependency_linked(
        after,
        mapping,
        edges,
        waiting,
        i,
        j,
    ) by {
        assert(dependency_linked(modules, mapping, edges, waiting, i, j));
    }
}

/// A module that moves on by one state adds one to the progress, whatever
/// modules are new.
pub(crate) proof fn lemma_progress_advanced(
    before: Seq<ModuleModel>,
    after: Seq<ModuleModel>,
    index: int,
    count: int,
)
    requires
        0 <= index < before.len() <= after.len(),
        0 <= count <= after.len(),
        forall|i: int| 0 <= i < before.len() && i != index ==> after[i].state == before[i].state,
        forall|i: int| before.len() <= i < after.len() ==> after[i].state == State::NotProcessed,
        rank(after[index].state) == rank(before[index].state) + 1,
    ensures
        progress(after, count) == progress(
            before,
            if count <= before.len() {
                count
            } else {
                before.len() as int
            },
        ) + if index < count {
            1nat
        } else {
            0nat
        },
    decreases count,
{
    if count > 0 {
        lemma_progress_advanced(before, after, index, count - 1);
    }
}

/// An edge that waits to be added can be added.
pub(crate) proof fn lemma_consistent_edge_added(
    modules: Seq<ModuleModel>,
    mapping: Seq<usize>,
    nodes: Map<int, int>,
    edges: Set<(int, int)>,
    waiting: Set<(int, int)>,
    current: Seq<(String, ModuleSource)>,
    given: Seq<(String, ModuleSource)>,
    entry_points: Seq<Seq<char>>,
    table: VersionFile,
    edge: (int, int),
)
    requires
        consistent(modules, mapping, nodes, edges, waiting, current, given, entry_points, table),
        waiting.contains(edge),
    ensures
        consistent(
            modules,
            mapping,
            nodes,
            edges.insert(edge),
            waiting,
            current,
            given,
            entry_points,
            table,
        ),
{
    assert(edges.insert(edge).union(waiting) =~= edges.union(waiting));
    assert forall|i: int, j: int|
        0 <= i < modules.len() && modules[i].state != State::NotProcessed && 0 <= j
            < modules[i].dependencies.len() implies #[trigger] dependency_linked(
        modules,
        mapping,
        edges.insert(edge),
        waiting,
        i,
        j,
    ) by {
        assert(dependency_linked(modules, mapping, edges, waiting, i, j));
    }
}

/// Once every edge that waited is in the graph, none waits.
pub(crate) proof fn lemma_consistent_none_waiting(
    modules: Seq<ModuleModel>,
    mapping: Seq<usize>,
    nodes: Map<int, int>,
    edges: Set<(int, int)>,
    waiting: Set<(int, int)>,
    current: Seq<(String, ModuleSource)>,
    given: Seq<(String, ModuleSource)>,
    entry_points: Seq<Seq<char>>,
    table: VersionFile,
)
    requires
        consistent(modules, mapping, nodes, edges, waiting, current, given, entry_points, table),
        forall|edge: (int, int)| waiting.contains(edge) ==> edges.contains(edge),
    ensures
        consistent(
            modules,
            mapping,
            nodes,
            edges,
            Set::empty(),
            current,
            given,
            entry_points,
            table,
        ),
{
    assert(edges.union(Set::empty()) =~= edges.union(waiting));
    assert forall|i: int, j: int|
        0 <= i < modules.len() && modules[i].state != State::NotProcessed && 0 <= j
            < modules[i].dependencies.len() implies #[trigger] dependency_linked(
        modules,
        mapping,
        edges,
        Set::empty(),
        i,
        j,
    ) by {
        assert(dependency_linked(modules, mapping, edges, waiting, i, j));
    }
}

/// The paths of the modules that the nodes of `path` stand for.
pub(crate) open spec fn paths_along(
    modules: Seq<ModuleModel>,
    nodes: Map<int, int>,
    path: Seq<int>,
) -> Seq<Seq<char>> {
    Seq::new(path.len(), |k: int| modules[nodes[path[k]]].path)
}

/// A cycle of the graph is a cycle of imports, and the scan of each module on
/// it succeeded.
pub(crate) proof fn lemma_cycle_of_imports(
    modules: Seq<ModuleModel>,
    mapping: Seq<usize>,
    nodes: Map<int, int>,
    edges: Set<(int, int)>,
    current: Seq<(String, ModuleSource)>,
    given: Seq<(String, ModuleSource)>,
    entry_points: Seq<Seq<char>>,
    table: VersionFile,
    path: Seq<int>,
)
    requires
        consistent(
            modules,
            mapping,
            nodes,
            edges,
            Set::empty(),
            current,
            given,
            entry_points,
            table,
        ),
        is_cycle(edges, path),
    ensures
        is_import_cycle(given, paths_along(modules, nodes, path)),
        forall|k: int|
            0 <= k < path.len() ==> fully_resolved(
                given,
                #[trigger] paths_along(modules, nodes, path)[k],
            ),
{
    assert(edges.union(Set::empty()) =~= edges);
    assert forall|a: int, b: int| #[trigger] edges.contains((a, b)) implies imports(
        given,
        modules[nodes[b]].path,
        modules[nodes[a]].path,
    ) && fully_resolved(given, modules[nodes[b]].path) by {
        assert(module_ok(modules, nodes[b], current, given, entry_points, table));
    }
    assert forall|k: int| 0 <= k < path.len() implies fully_resolved(
        given,
        #[trigger] paths_along(modules, nodes, path)[k],
    ) by {
        if k == 0 {
            assert(edges.contains((path.last(), path[0])));
        } else {
            assert(edges.contains((path[k - 1], path[k - 1 + 1])));
        }
    }
}

/// Whether the node `index` is among the first `count` of `order`.
pub(crate) open spec fn visited(order: Seq<usize>, count: int, index: usize) -> bool {
    exists|j: int| 0 <= j < count && #[trigger] order[j] == index
}

/// Whether `changed` is `module` but for its final interval.
pub(crate) open spec fn same_but_final(module: ModuleModel, changed: ModuleModel) -> bool {
    changed == (ModuleModel { final_interval: changed.final_interval, ..module })
}

/// The nodes of the modules of `cycle`.
pub(crate) open spec fn nodes_along(
    modules: Seq<ModuleModel>,
    mapping: Seq<usize>,
    cycle: Seq<Seq<char>>,
) -> Seq<int> {
    Seq::new(
        cycle.len(),
        |k: int| mapping[first_index(module_paths(modules), cycle[k])->0] as int,
    )
}

/// Whether the module `importer` has the module `imported` among its
/// dependencies, and the edge for it is in the graph.
pub(crate) proof fn lemma_import_has_edge(
    modules: Seq<ModuleModel>,
    mapping: Seq<usize>,
    nodes: Map<int, int>,
    edges: Set<(int, int)>,
    current: Seq<(String, ModuleSource)>,
    given: Seq<(String, ModuleSource)>,
    entry_points: Seq<Seq<char>>,
    table: VersionFile,
    importer: Seq<char>,
    imported: Seq<char>,
)
    requires
        consistent(
            modules,
            mapping,
            nodes,
            edges,
            Set::empty(),
            current,
            given,
            entry_points,
            table,
        ),
        forall|i: int| 0 <= i < modules.len() ==> modules[i].state == State::Processed,
        has_module(modules, importer),
        imports(given, importer, imported),
    ensures
        first_index(module_paths(modules), imported) is Some,
        edges.contains(
            (
                mapping[first_index(module_paths(modules), imported)->0] as int,
                mapping[first_index(module_paths(modules), importer)->0] as int,
            ),
        ),
{
    lemma_module_found(modules, importer);
    lemma_found_module(modules, importer);
    let i = first_index(module_paths(modules), importer)->0;
    assert(module_ok(modules, i, current, given, entry_points, table));
    let j = choose|j: int|
        0 <= j < modules[i].dependencies.len() && modules[i].dependencies[j] == imported;
    assert(dependency_linked(modules, mapping, edges, Set::empty(), i, j));
}

/// A graph that has a topological order holds no cycle of imports.
pub(crate) proof fn lemma_no_import_cycle(
    modules: Seq<ModuleModel>,
    mapping: Seq<usize>,
    nodes: Map<int, int>,
    edges: Set<(int, int)>,
    current: Seq<(String, ModuleSource)>,
    given: Seq<(String, ModuleSource)>,
    entry_points: Seq<Seq<char>>,
    table: VersionFile,
    order: Seq<int>,
    cycle: Seq<Seq<char>>,
)
    requires
        consistent(
            modules,
            mapping,
            nodes,
            edges,
            Set::empty(),
            current,
            given,
            entry_points,
            table,
        ),
        forall|i: int| 0 <= i < modules.len() ==> modules[i].state == State::Processed,
        is_topological_order(order, nodes.dom(), edges),
        forall|k: int| 0 <= k < cycle.len() ==> has_module(modules, #[trigger] cycle[k]),
    ensures
        !is_import_cycle(given, cycle),
{
    if is_import_cycle(given, cycle) {
        let path = nodes_along(modules, mapping, cycle);
        assert forall|k: int| 0 <= k < path.len() - 1 implies edges.contains(
            (#[trigger] path[k], path[k + 1]),
        ) by {
            lemma_import_has_edge(
                modules,
                mapping,
                nodes,
                edges,
                current,
                given,
                entry_points,
                table,
                cycle[k + 1],
                cycle[k],
            );
        }
        lemma_import_has_edge(
            modules,
            mapping,
            nodes,
            edges,
            current,
            given,
            entry_points,
            table,
            cycle[0],
            cycle.last(),
        );
        assert(edges.union(Set::empty()) =~= edges);
        lemma_ordered_graph_has_no_cycle(order, nodes.dom(), edges, path);
    }
}

/// The final interval that the module at `index` is owed: its own interval,
/// narrowed by the final intervals of its dependencies.
pub(crate) open spec fn final_owed(modules: Seq<ModuleModel>, index: int) -> SdkVersionOut {
    intersection(
        modules[index].own_interval,
        dependencies_interval(
            modules,
            modules[index].dependencies,
            modules[index].dependencies.len() as int,
        ),
    )
}

/// Whether `modules` are the modules `built` with the final interval set for
/// those whose nodes are among the first `count` of `order`, and for no
/// other.
pub(crate) open spec fn finals_set(
    built: Seq<ModuleModel>,
    modules: Seq<ModuleModel>,
    mapping: Seq<usize>,
    order: Seq<usize>,
    count: int,
) -> bool {
    &&& modules.len() == built.len()
    &&& forall|i: int| 0 <= i < built.len() ==> same_but_final(built[i], #[trigger] modules[i])
    &&& forall|i: int|
        0 <= i < built.len() ==> (#[trigger] modules[i]).final_interval == if visited(
            order,
            count,
            mapping[i],
        ) {
            Some(final_owed(modules, i))
        } else {
            None
        }
}

/// The module `m` does not come after a module that depends on it.
pub(crate) proof fn lemma_dependency_comes_first(
    built: Seq<ModuleModel>,
    mapping: Seq<usize>,
    nodes: Map<int, int>,
    edges: Set<(int, int)>,
    current: Seq<(String, ModuleSource)>,
    given: Seq<(String, ModuleSource)>,
    entry_points: Seq<Seq<char>>,
    table: VersionFile,
    order: Seq<usize>,
    i: int,
    j: int,
    at: int,
    k: int,
)
    requires
        consistent(
            built,
            mapping,
            nodes,
            edges,
            Set::empty(),
            current,
            given,
            entry_points,
            table,
        ),
        forall|i: int| 0 <= i < built.len() ==> built[i].state == State::Processed,
        is_topological_order(as_ints(order), nodes.dom(), edges),
        0 <= i < built.len(),
        0 <= j < built[i].dependencies.len(),
        0 <= at <= k < order.len(),
        order[at] == mapping[i],
    ensures
        first_index(module_paths(built), built[i].dependencies[j]) is Some,
        mapping[first_index(module_paths(built), built[i].dependencies[j])->0] != order[k],
{
    assert(dependency_linked(built, mapping, edges, Set::empty(), i, j));
    let m = first_index(module_paths(built), built[i].dependencies[j])->0;
    if mapping[m] == order[k] {
        assert(as_ints(order)[k] == mapping[m] as int);
        assert(as_ints(order)[at] == mapping[i] as int);
    }
}

/// Setting the final interval of the next module in topological order keeps
/// the final intervals that were set as they are owed.
pub(crate) proof fn lemma_final_set(
    built: Seq<ModuleModel>,
    modules: Seq<ModuleModel>,
    mapping: Seq<usize>,
    nodes: Map<int, int>,
    edges: Set<(int, int)>,
    current: Seq<(String, ModuleSource)>,
    given: Seq<(String, ModuleSource)>,
    entry_points: Seq<Seq<char>>,
    table: VersionFile,
    order: Seq<usize>,
    k: int,
    position: int,
)
    requires
        consistent(
            built,
            mapping,
            nodes,
            edges,
            Set::empty(),
            current,
            given,
            entry_points,
            table,
        ),
        forall|i: int| 0 <= i < built.len() ==> built[i].state == State::Processed,
        is_topological_order(as_ints(order), nodes.dom(), edges),
        0 <= k < order.len(),
        0 <= position < built.len(),
        order[k] == mapping[position],
        finals_set(built, modules, mapping, order, k),
    ensures
        finals_set(
            built,
            modules.update(
                position,
                ModuleModel {
                    final_interval: Some(final_owed(modules, position)),
                    ..modules[position]
                },
            ),
            mapping,
            order,
            k + 1,
        ),
{
    let after = modules.update(
        position,
        ModuleModel { final_interval: Some(final_owed(modules, position)), ..modules[position] },
    );
    assert(module_paths(after) =~= module_paths(modules));
    assert(module_paths(built) =~= module_paths(modules));
    assert forall|i: int| 0 <= i < built.len() implies (#[trigger] after[i]).final_interval
        == if visited(order, k + 1, mapping[i]) {
        Some(final_owed(after, i))
    } else {
        None
    } by {
        let seen = visited(order, k, mapping[i]);
        if i == position || seen {
            let at = if i == position {
                k
            } else {
                choose|at: int| 0 <= at < k && #[trigger] order[at] == mapping[i]
            };
            assert forall|j: int| 0 <= j < modules[i].dependencies.len() implies final_of(
                after,
                #[trigger] modules[i].dependencies[j],
            ) == final_of(modules, modules[i].dependencies[j]) by {
                lemma_dependency_comes_first(
                    built,
                    mapping,
                    nodes,
                    edges,
                    current,
                    given,
                    entry_points,
                    table,
                    order,
                    i,
                    j,
                    at,
                    k,
                );
                lemma_found_module(built, built[i].dependencies[j]);
            }
            lemma_dependencies_interval_frame(
                after,
                modules,
                modules[i].dependencies,
                modules[i].dependencies.len() as int,
            );
        } else {
            if visited(order, k + 1, mapping[i]) {
                let at = choose|at: int| 0 <= at < k + 1 && #[trigger] order[at] == mapping[i];
                if at < k {
                    assert(visited(order, k, mapping[i]));
                } else {
                    assert(nodes[mapping[i] as int] == i);
                }
            }
        }
    }
}

/// Once the final interval of every module is set, the analysis is complete.
pub(crate) proof fn lemma_analysis_complete(
    built: Seq<ModuleModel>,
    modules: Seq<ModuleModel>,
    mapping: Seq<usize>,
    nodes: Map<int, int>,
    edges: Set<(int, int)>,
    current: Seq<(String, ModuleSource)>,
    given: Seq<(String, ModuleSource)>,
    entry_points: Seq<Seq<char>>,
    table: VersionFile,
    order: Seq<usize>,
)
    requires
        consistent(
            built,
            mapping,
            nodes,
            edges,
            Set::empty(),
            current,
            given,
            entry_points,
            table,
        ),
        forall|i: int| 0 <= i < built.len() ==> built[i].state == State::Processed,
        forall|t: int|
            0 <= t < entry_points.len() ==> first_index(
                module_paths(built),
                #[trigger] entry_points[t],
            ) is Some,
        is_topological_order(as_ints(order), nodes.dom(), edges),
        finals_set(built, modules, mapping, order, order.len() as int),
        entries_lead(built, distinct_entries(entry_points, entry_points.len() as int)),
    ensures
        analysis_complete(modules, given, entry_points, table),
        sources_settled(current, given, modules, table),
{
    lemma_order_ranks(
        built,
        mapping,
        nodes,
        edges,
        current,
        given,
        entry_points,
        table,
        order,
    );
    lemma_ranked_frame(built, modules, ranks_by(order, mapping));
    assert forall|k: int| 0 <= k < given.len() implies if entry_of_module(modules, given, k) {
        source_neutralized(given[k].1, (#[trigger] current[k]).1, table)
    } else {
        current[k].1 == given[k].1
    } by {
        if entry_of_module(modules, given, k) {
            let i = choose|i: int|
                0 <= i < modules.len() && first_index(
                    paths_of(given),
                    (#[trigger] modules[i]).path,
                ) == Some(k);
            assert(module_ok(built, i, current, given, entry_points, table));
        } else if current[k].1 != given[k].1 {
            let i = choose|i: int|
                0 <= i < built.len() && (#[trigger] built[i]).state == State::Processed
                    && first_index(paths_of(given), built[i].path) == Some(k);
            assert(same_but_final(built[i], modules[i]));
        }
    }
    assert(module_paths(built) =~= module_paths(modules));
    assert forall|i: int| 0 <= i < modules.len() implies #[trigger] module_complete(
        modules,
        i,
        given,
        table,
    ) by {
        assert(module_ok(built, i, current, given, entry_points, table));
        let at = choose|at: int|
            0 <= at < as_ints(order).len() && as_ints(order)[at] == mapping[i] as int;
        assert(order[at] == mapping[i]);
        assert forall|j: int| 0 <= j < modules[i].dependencies.len() implies has_module(
            modules,
            #[trigger] modules[i].dependencies[j],
        ) by {
            lemma_found_module(modules, modules[i].dependencies[j]);
        }
    }
    assert forall|i: int| 0 <= i < modules.len() implies reachable(
        given,
        entry_points,
        (#[trigger] modules[i]).path,
    ) && (modules[i].is_entry_point <==> entry_points.contains(modules[i].path)) by {
        assert(module_ok(built, i, current, given, entry_points, table));
    }
    assert forall|t: int| 0 <= t < entry_points.len() implies has_module(
        modules,
        #[trigger] entry_points[t],
    ) by {
        lemma_found_module(modules, entry_points[t]);
    }
    assert forall|cycle: Seq<Seq<char>>|
        (forall|k: int| 0 <= k < cycle.len() ==> has_module(modules, #[trigger] cycle[k]))
            implies !#[trigger] is_import_cycle(given, cycle) by {
        lemma_no_import_cycle(
            built,
            mapping,
            nodes,
            edges,
            current,
            given,
            entry_points,
            table,
            as_ints(order),
            cycle,
        );
    }
}

/// Whether `modules` are the modules `base`, each with the path and the role
/// it had, followed by modules that are no entry points.
pub(crate) open spec fn grown_from(base: Seq<ModuleModel>, modules: Seq<ModuleModel>) -> bool {
    &&& base.len() <= modules.len()
    &&& forall|i: int|
        0 <= i < base.len() ==> (#[trigger] modules[i]).path == base[i].path
            && modules[i].is_entry_point == base[i].is_entry_point
    &&& forall|i: int| base.len() <= i < modules.len() ==> !(#[trigger] modules[i]).is_entry_point
}

/// Growing twice is growing.
pub(crate) proof fn lemma_grown_twice(
    base: Seq<ModuleModel>,
    between: Seq<ModuleModel>,
    modules: Seq<ModuleModel>,
)
    requires
        grown_from(base, between),
        grown_from(between, modules),
    ensures
        grown_from(base, modules),
{
}

/// The position of the node `index` in `order`.
pub(crate) open spec fn position_in(order: Seq<usize>, index: usize) -> nat {
    choose|at: nat| at < order.len() && order[at as int] == index
}

/// The position, in `order`, of the node of each module.
pub(crate) open spec fn ranks_by(order: Seq<usize>, mapping: Seq<usize>) -> Seq<nat> {
    Seq::new(mapping.len(), |i: int| position_in(order, mapping[i]))
}

/// A topological order of the graph ranks every module above its
/// dependencies.
pub(crate) proof fn lemma_order_ranks(
    built: Seq<ModuleModel>,
    mapping: Seq<usize>,
    nodes: Map<int, int>,
    edges: Set<(int, int)>,
    current: Seq<(String, ModuleSource)>,
    given: Seq<(String, ModuleSource)>,
    entry_points: Seq<Seq<char>>,
    table: VersionFile,
    order: Seq<usize>,
)
    requires
        consistent(
            built,
            mapping,
            nodes,
            edges,
            Set::empty(),
            current,
            given,
            entry_points,
            table,
        ),
        forall|i: int| 0 <= i < built.len() ==> built[i].state == State::Processed,
        is_topological_order(as_ints(order), nodes.dom(), edges),
    ensures
        ranked(built, ranks_by(order, mapping)),
{
    let ranks = ranks_by(order, mapping);
    assert forall|i: int, j: int|
        0 <= i < built.len() && 0 <= j < built[i].dependencies.len() implies {
        let m = first_index(module_paths(built), #[trigger] built[i].dependencies[j]);
        m is Some && ranks[m->0] < ranks[i]
    } by {
        assert(dependency_linked(built, mapping, edges, Set::empty(), i, j));
        lemma_found_module(built, built[i].dependencies[j]);
        let m = first_index(module_paths(built), built[i].dependencies[j])->0;
        let low = position_in(order, mapping[m]) as int;
        let high = position_in(order, mapping[i]) as int;
        assert(as_ints(order)[low] == mapping[m] as int);
        assert(as_ints(order)[high] == mapping[i] as int);
    }
}

/// A ranking of modules ranks them whatever their final intervals are.
pub(crate) proof fn lemma_ranked_frame(
    built: Seq<ModuleModel>,
    modules: Seq<ModuleModel>,
    ranks: Seq<nat>,
)
    requires
        ranked(built, ranks),
        modules.len() == built.len(),
        forall|i: int| 0 <= i < built.len() ==> same_but_final(built[i], #[trigger] modules[i]),
    ensures
        ranked(modules, ranks),
{
    assert(module_paths(built) =~= module_paths(modules));
    assert forall|i: int, j: int|
        0 <= i < modules.len() && 0 <= j < modules[i].dependencies.len() implies {
        let m = first_index(module_paths(modules), #[trigger] modules[i].dependencies[j]);
        m is Some && ranks[m->0] < ranks[i]
    } by {}
}

/// Modules that grew from the entry points start with the entry points.
pub(crate) proof fn lemma_lead_grown(
    base: Seq<ModuleModel>,
    modules: Seq<ModuleModel>,
    lead: Seq<Seq<char>>,
)
    requires
        entries_lead(base, lead),
        base.len() == lead.len(),
        grown_from(base, modules),
    ensures
        entries_lead(modules, lead),
{
}

} // verus!

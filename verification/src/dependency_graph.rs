//! The graph of the modules that a set of flows is made of, and the versions
//! that each module can run on once its dependencies are taken into account.

use crate::analysis::{
    analysis_complete, dependencies_interval, distinct_entries, entries_lead, entry_points_of,
    entry_versions, explains, final_of, fresh_module, imports, lemma_reachable_entry,
    lemma_reachable_step, module_paths, reachable, source_neutralized, sources_settled,
    versions_view, ModuleModel,
};
use crate::consistency::{
    consistent, final_owed, finals_set, grown_from, lemma_analysis_complete,
    lemma_consistent_edge_added, lemma_consistent_none_waiting, lemma_consistent_pushed,
    lemma_consistent_scanned, lemma_consistent_settled, lemma_cycle_of_imports,
    lemma_entry_intact, lemma_final_set, lemma_first_index_pushed, lemma_grown_twice,
    lemma_lead_grown, lemma_progress_advanced, lemma_progress_bound, mapping_ok, module_ok,
    paths_along, pending, progress, rank, scanned_module, settled_module, visited,
};
use crate::dependency_visitor::RequireDependencyProcessor;
use crate::graph::{
    as_ints, graph_add_edge, graph_add_node, graph_edges, graph_new, graph_node_weight,
    graph_nodes, graph_toposort, is_cycle, is_topological_order, no_edges, no_nodes, on_cycle,
    DependencyGraph,
};
use crate::resources::{
    dependencies_of, first_index, first_index_from, lemma_first_index, own_interval_of, paths_of,
    source_of, unresolved_of, ModuleSource, Resources,
};
use crate::sdk_version::SdkVersionOut;
use crate::utils::{normalize_path, texts};
use crate::version_visitor::{VersionFile, VersionResolver};
use vstd::prelude::*;

verus! {

/// How far the analysis of a module has come.
#[derive(Debug, Clone, Copy, PartialEq, Eq)]
pub enum State {
    /// Known by its path only.
    NotProcessed,
    /// Parsed, and its imports are known.
    Processing,
    /// The versions that its own code can run on are known.
    Processed,
}

impl Default for State {
    fn default() -> (state: Self)
        ensures
            state == State::NotProcessed,
    {
        State::NotProcessed
    }
}

/// Why no version could be computed.
#[derive(Debug, Clone, PartialEq, Eq)]
pub enum VersionError {
    /// The module is needed and nothing is known of its file.
    SourceNotLoaded { path: String },
    /// The file of the module could not be parsed.
    ParseFailure { path: String },
    /// The module imports literal paths that lead to no file: `imports`, in
    /// source order.
    UnresolvableImport { path: String, imports: Vec<String> },
    /// The module depends on itself, directly or through other modules.
    CyclicDependency { path: String },
}

/// One module of the graph.
#[derive(Debug)]
pub struct DependencyGraphNode {
    depends_on: Vec<String>,
    is_top_node: bool,
    sdk_version: SdkVersionOut,
    final_version: Option<SdkVersionOut>,
    state: State,
    path: String,
}

impl View for DependencyGraphNode {
    type V = ModuleModel;

    closed spec fn view(&self) -> ModuleModel {
        ModuleModel {
            path: self.path@,
            state: self.state,
            dependencies: texts(self.depends_on@),
            own_interval: self.sdk_version,
            final_interval: self.final_version,
            is_entry_point: self.is_top_node,
        }
    }
}

impl DependencyGraphNode {
    /// A module that is known by its path only.
    pub fn new(is_top_node: bool, path: String) -> (node: Self)
        ensures
            node@ == fresh_module(is_top_node, path@),
    {
        let node = Self {
            is_top_node,
            path,
            depends_on: Vec::new(),
            sdk_version: SdkVersionOut::default(),
            final_version: None,
            state: State::NotProcessed,
        };
        assert(node@.dependencies =~= Seq::<Seq<char>>::empty());
        node
    }

    /// An entry point that is known by its path only.
    pub fn create_top_node(path: String) -> (node: Self)
        ensures
            node@ == fresh_module(true, path@),
    {
        DependencyGraphNode::new(true, path)
    }

    /// A dependency that is known by its path only.
    pub fn create_node(path: String) -> (node: Self)
        ensures
            node@ == fresh_module(false, path@),
    {
        DependencyGraphNode::new(false, path)
    }

    /// Whether the versions that the module's own code can run on are known.
    pub fn is_done(&self) -> (done: bool)
        ensures
            done == (self@.state == State::Processed),
    {
        matches!(self.state, State::Processed)
    }

    /// Whether the module still has to be moved on.
    pub fn is_not_done(&self) -> (not_done: bool)
        ensures
            not_done == (self@.state != State::Processed),
    {
        !self.is_done()
    }
}

/// The modules of a set of flows, and what is known of them so far.
pub struct Work {
    graph: DependencyGraph,
    /// The index, in the graph, of the node of each module.
    node_mapping: Vec<usize>,
    nodes: Vec<DependencyGraphNode>,
    resources: Resources,
    given: Ghost<Seq<(String, ModuleSource)>>,
    top_node_paths: Vec<String>,
    version_file: VersionFile,
}

impl Work {
    /// The modules found so far, in the order in which they were found.
    pub closed spec fn modules(&self) -> Seq<ModuleModel> {
        Seq::new(self.nodes@.len(), |i: int| self.nodes@[i]@)
    }

    /// The files that the analysis was given.
    pub closed spec fn given(&self) -> Seq<(String, ModuleSource)> {
        self.given@
    }

    /// The canonical paths of the flows that the analysis is about.
    pub closed spec fn entry_points(&self) -> Seq<Seq<char>> {
        entry_points_of(self.top_node_paths@)
    }

    /// The table of gated functions.
    pub closed spec fn table(&self) -> VersionFile {
        self.version_file
    }

    /// The files as they stand: those given, with the trees that the analysis
    /// changed.
    pub closed spec fn sources(&self) -> Seq<(String, ModuleSource)> {
        self.resources@
    }

    /// Whether nothing was analysed yet.
    pub closed spec fn fresh(&self) -> bool {
        &&& self.nodes@.len() == 0
        &&& self.node_mapping@.len() == 0
        &&& graph_nodes(self.graph) == no_nodes()
        &&& graph_edges(self.graph) == no_edges()
        &&& self.resources@ == self.given@
    }

    /// Whether `self` is `before` but for the modules, the graph and the
    /// trees of the files.
    spec fn same_task(&self, before: &Self) -> bool {
        &&& self.given@ == before.given@
        &&& self.top_node_paths == before.top_node_paths
        &&& self.version_file == before.version_file
    }

    spec fn inv(&self, waiting: Set<(int, int)>) -> bool {
        consistent(
            self.modules(),
            self.node_mapping@,
            graph_nodes(self.graph),
            graph_edges(self.graph),
            waiting,
            self.resources@,
            self.given@,
            self.entry_points(),
            self.table(),
        )
    }

    /// Whether each entry point is a module.
    spec fn entries_present(&self, count: int) -> bool {
        forall|t: int|
            0 <= t < count ==> first_index(
                module_paths(self.modules()),
                #[trigger] self.entry_points()[t],
            ) is Some
    }

    /// An analysis of the flows at `top_node_paths` over the files in
    /// `resources`, with nothing analysed yet.
    pub fn new(
        resources: Resources,
        top_node_paths: Vec<String>,
        version_file: VersionFile,
    ) -> (work: Self)
        ensures
            work.fresh(),
            work.given() == resources@,
            work.sources() == resources@,
            work.entry_points() == entry_points_of(top_node_paths@),
            work.table() == version_file,
    {
        let ghost given = resources@;
        Self {
            graph: graph_new(),
            node_mapping: Vec::new(),
            nodes: Vec::new(),
            resources,
            given: Ghost(given),
            top_node_paths,
            version_file,
        }
    }

    fn find_node(&self, path: &String) -> (position: Option<usize>)
        ensures
            position is Some <==> first_index(module_paths(self.modules()), path@) is Some,
            position is Some ==> position->0 == first_index(module_paths(self.modules()), path@)->0,
            position is Some ==> position->0 < self.modules().len(),
    {
        let mut i: usize = 0;
        while i < self.nodes.len()
            invariant
                i <= self.nodes@.len(),
                first_index(module_paths(self.modules()), path@) == first_index_from(
                    module_paths(self.modules()),
                    path@,
                    i as int,
                ),
            decreases self.nodes@.len() - i,
        {
            if self.nodes[i].path == *path {
                return Some(i);
            }
            i += 1;
        }
        None
    }

    fn insert_node(
        &mut self,
        node: DependencyGraphNode,
        Ghost(waiting): Ghost<Set<(int, int)>>,
    ) -> (position: usize)
        requires
            old(self).inv(waiting),
            first_index(module_paths(old(self).modules()), node@.path) is None,
            node@ == fresh_module(node@.is_entry_point, node@.path),
            reachable(old(self).given(), old(self).entry_points(), node@.path),
            node@.is_entry_point <==> old(self).entry_points().contains(node@.path),
        ensures
            final(self).inv(waiting),
            final(self).same_task(old(self)),
            final(self).modules() == old(self).modules().push(node@),
            final(self).resources == old(self).resources,
            graph_edges(final(self).graph) == graph_edges(old(self).graph),
            position == old(self).modules().len(),
            final(self).node_mapping@.drop_last() == old(self).node_mapping@,
    {
        let position = self.nodes.len();
        let ghost added = node@;
        let index = graph_add_node(&mut self.graph, position);
        self.node_mapping.push(index);
        self.nodes.push(node);
        proof {
            assert(self.modules() =~= old(self).modules().push(added));
            lemma_consistent_pushed(
                old(self).modules(),
                old(self).node_mapping@,
                graph_nodes(old(self).graph),
                graph_edges(old(self).graph),
                waiting,
                old(self).resources@,
                old(self).given@,
                old(self).entry_points(),
                old(self).table(),
                added,
                index,
            );
        }
        position
    }

    /// Makes a module of each of `deps` that is not one yet.
    fn add_dependencies_to_graph(
        &mut self,
        deps: &Vec<String>,
        Ghost(waiting): Ghost<Set<(int, int)>>,
    )
        requires
            old(self).inv(waiting),
            old(self).entries_present(old(self).entry_points().len() as int),
            forall|j: int|
                0 <= j < deps@.len() ==> reachable(
                    old(self).given(),
                    old(self).entry_points(),
                    #[trigger] deps@[j]@,
                ),
        ensures
            final(self).inv(waiting),
            final(self).same_task(old(self)),
            final(self).entries_present(final(self).entry_points().len() as int),
            final(self).resources == old(self).resources,
            graph_edges(final(self).graph) == graph_edges(old(self).graph),
            final(self).modules().len() >= old(self).modules().len(),
            forall|i: int|
                0 <= i < old(self).modules().len()
                    ==> final(self).modules()[i] == old(self).modules()[i],
            forall|i: int|
                0 <= i < old(self).modules().len()
                    ==> final(self).node_mapping@[i] == old(self).node_mapping@[i],
            forall|i: int|
                old(self).modules().len() <= i < final(self).modules().len()
                    ==> final(self).modules()[i].state == State::NotProcessed,
            forall|j: int|
                0 <= j < deps@.len() ==> first_index(
                    module_paths(final(self).modules()),
                    #[trigger] deps@[j]@,
                ) is Some,
            grown_from(old(self).modules(), final(self).modules()),
    {
        let mut j: usize = 0;
        while j < deps.len()
            invariant
                j <= deps@.len(),
                self.inv(waiting),
                self.same_task(old(self)),
                self.entries_present(self.entry_points().len() as int),
                self.resources == old(self).resources,
                graph_edges(self.graph) == graph_edges(old(self).graph),
                self.modules().len() >= old(self).modules().len(),
                forall|i: int|
                    0 <= i < old(self).modules().len()
                        ==> self.modules()[i] == old(self).modules()[i],
                forall|i: int|
                    0 <= i < old(self).modules().len()
                        ==> self.node_mapping@[i] == old(self).node_mapping@[i],
                forall|i: int|
                    old(self).modules().len() <= i < self.modules().len()
                        ==> self.modules()[i].state == State::NotProcessed,
                grown_from(old(self).modules(), self.modules()),
                forall|jj: int|
                    0 <= jj < j ==> first_index(
                        module_paths(self.modules()),
                        #[trigger] deps@[jj]@,
                    ) is Some,
                forall|jj: int|
                    0 <= jj < deps@.len() ==> reachable(
                        self.given(),
                        self.entry_points(),
                        #[trigger] deps@[jj]@,
                    ),
            decreases deps@.len() - j,
        {
            if self.find_node(&deps[j]).is_none() {
                let ghost before = *self;
                let node = DependencyGraphNode::create_node(deps[j].clone());
                proof {
                    let path = deps@[j as int]@;
                    if self.entry_points().contains(path) {
                        let t = choose|t: int|
                            0 <= t < self.entry_points().len() && self.entry_points()[t] == path;
                        assert(first_index(
                            module_paths(self.modules()),
                            self.entry_points()[t],
                        ) is Some);
                    }
                }
                self.insert_node(node, Ghost(waiting));
                proof {
                    let added = self.modules().last();
                    assert forall|jj: int| 0 <= jj < j + 1 implies first_index(
                        module_paths(self.modules()),
                        #[trigger] deps@[jj]@,
                    ) is Some by {
                        assert(module_paths(self.modules()) =~= module_paths(before.modules()).push(
                            added.path,
                        ));
                        lemma_first_index_pushed(
                            module_paths(before.modules()),
                            added.path,
                            deps@[jj]@,
                            0,
                        );
                    }
                    assert forall|t: int| 0 <= t < self.entry_points().len() implies first_index(
                        module_paths(self.modules()),
                        #[trigger] self.entry_points()[t],
                    ) is Some by {
                        assert(module_paths(self.modules()) =~= module_paths(before.modules()).push(
                            added.path,
                        ));
                        lemma_first_index_pushed(
                            module_paths(before.modules()),
                            added.path,
                            self.entry_points()[t],
                            0,
                        );
                    }
                }
            }
            j += 1;
        }
    }

    /// What holds after the module at `node_index` was moved on by one state:
    /// it kept its path and has the next state, the other modules that were
    /// there are as they were, and those that are new are known by their path
    /// only.
    spec fn advanced(&self, before: &Self, node_index: int) -> bool {
        &&& self.same_task(before)
        &&& self.entries_present(self.entry_points().len() as int)
        &&& graph_edges(self.graph) == graph_edges(before.graph)
        &&& self.modules().len() >= before.modules().len()
        &&& forall|i: int|
            0 <= i < before.modules().len() && i != node_index ==> self.modules()[i]
                == before.modules()[i]
        &&& forall|i: int|
            0 <= i < before.modules().len() ==> self.node_mapping@[i] == before.node_mapping@[i]
        &&& forall|i: int|
            before.modules().len() <= i < self.modules().len() ==> self.modules()[i].state
                == State::NotProcessed
        &&& self.modules()[node_index].path == before.modules()[node_index].path
        &&& rank(self.modules()[node_index].state) == rank(before.modules()[node_index].state) + 1
        &&& grown_from(before.modules(), self.modules())
    }

    /// What holds after the imports of the module at `node_index` were
    /// collected: it depends on the files that the imports in its tree lead
    /// to, in source order, and no file has changed.
    spec fn scanned(&self, before: &Self, node_index: int) -> bool {
        let module = before.modules()[node_index];
        &&& source_of(self.given(), module.path) is Some
        &&& self.modules()[node_index] == scanned_module(
            module,
            dependencies_of(source_of(self.given(), module.path)->0),
        )
        &&& self.sources() == before.sources()
    }

    /// What holds after the own interval of the module at `node_index` was
    /// computed: the interval is the one that its tree as given demands, no
    /// module was added, the stored tree of the module is the given one with
    /// its version checks made neutral, and every other file is as it was.
    spec fn settled(&self, before: &Self, node_index: int) -> bool {
        let module = before.modules()[node_index];
        let found = first_index(paths_of(self.given()), module.path);
        &&& found is Some
        &&& 0 <= found->0 < self.given().len()
        &&& self.modules().len() == before.modules().len()
        &&& self.modules()[node_index] == settled_module(
            module,
            own_interval_of(self.given()[found->0].1, self.table()),
        )
        &&& self.sources().len() == before.sources().len()
        &&& forall|e: int|
            0 <= e < before.sources().len() && e != found->0 ==> self.sources()[e]
                == before.sources()[e]
        &&& self.sources()[found->0].0 == before.sources()[found->0].0
        &&& source_neutralized(
            self.given()[found->0].1,
            self.sources()[found->0].1,
            self.table(),
        )
    }

    /// The files that the imports of the module at `node_index` lead to, in
    /// source order. The file of the module is the entry `k`. Fails if the
    /// file was not parsed or one of the imports leads nowhere.
    fn collect_dependencies(&self, node_index: usize, k: usize) -> (collected: Result<
        Vec<String>,
        VersionError,
    >)
        requires
            node_index < self.modules().len(),
            k < self.given().len(),
            first_index(paths_of(self.given()), self.modules()[node_index as int].path) == Some(
                k as int,
            ),
            self.sources().len() == self.given().len(),
            self.sources()[k as int].1 == self.given()[k as int].1,
            reachable(self.given(), self.entry_points(), self.modules()[node_index as int].path),
        ensures
            match collected {
                Ok(deps) => {
                    &&& self.given()[k as int].1 is Parsed
                    &&& unresolved_of(self.given()[k as int].1).len() == 0
                    &&& texts(deps@) == dependencies_of(self.given()[k as int].1)
                },
                Err(error) => explains(error, self.given(), self.entry_points()),
            },
    {
        let path = self.nodes[node_index].path.clone();
        let (deps, errors) = match self.resources.entry(k) {
            ModuleSource::Unparsable => {
                return Err(VersionError::ParseFailure { path });
            },
            ModuleSource::Parsed { block, locations } => {
                let mut visitor = RequireDependencyProcessor::new(path.clone(), locations);
                visitor.visit_block(block);
                visitor.into_parts()
            },
        };
        if errors.len() > 0 {
            return Err(VersionError::UnresolvableImport { path, imports: errors });
        }
        Ok(deps)
    }

    /// Moves the module at `node_index` on by one state. A module known by
    /// its path only has its imports collected, each of which becomes a
    /// module, and its edges put among those that wait in `add_edges`. A
    /// module whose imports are known has its own interval computed, and the
    /// version checks in its stored tree made neutral. A module that is done
    /// is left alone, and so is everything where the step fails.
    fn advance_work(&mut self, node_index: usize, add_edges: &mut Vec<(usize, usize)>) -> (advanced:
        Result<State, VersionError>)
        requires
            old(self).inv(pending(old(add_edges)@)),
            old(self).entries_present(old(self).entry_points().len() as int),
            node_index < old(self).modules().len(),
        ensures
            old(self).modules()[node_index as int].state == State::Processed ==> advanced is Ok
                && advanced->Ok_0 == State::Processed && *final(self) == *old(self)
                && final(add_edges)@ == old(add_edges)@,
            old(self).modules()[node_index as int].state != State::Processed && advanced is Ok
                ==> final(self).inv(pending(final(add_edges)@)) && final(self).advanced(
                old(self),
                node_index as int,
            ) && advanced->Ok_0 == final(self).modules()[node_index as int].state,
            old(self).modules()[node_index as int].state == State::NotProcessed && advanced is Ok
                ==> final(self).scanned(old(self), node_index as int),
            old(self).modules()[node_index as int].state == State::Processing && advanced is Ok
                ==> final(self).settled(old(self), node_index as int),
            advanced is Err ==> explains(
                advanced->Err_0,
                old(self).given(),
                old(self).entry_points(),
            ) && *final(self) == *old(self) && final(add_edges)@ == old(add_edges)@,
    {
        let scanning = match self.nodes[node_index].state {
            State::NotProcessed => true,
            State::Processing => false,
            State::Processed => {
                return Ok(State::Processed);
            },
        };
        let ghost waiting = pending(add_edges@);
        let ghost module = self.modules()[node_index as int];
        proof {
            assert(module_ok(
                self.modules(),
                node_index as int,
                self.resources@,
                self.given@,
                self.entry_points(),
                self.table(),
            ));
            assert(paths_of(self.resources@) =~= paths_of(self.given@));
        }
        let path = self.nodes[node_index].path.clone();
        let found = self.resources.position(&path);
        let k = match found {
            Some(k) => k,
            None => {
                return Err(VersionError::SourceNotLoaded { path });
            },
        };
        proof {
            lemma_entry_intact(
                self.modules(),
                self.resources@,
                self.given@,
                node_index as int,
                k as int,
            );
        }
        if scanning {
            let deps = match self.collect_dependencies(node_index, k) {
                Ok(deps) => deps,
                Err(error) => {
                    return Err(error);
                },
            };
            proof {
                assert forall|j: int| 0 <= j < deps@.len() implies reachable(
                    self.given(),
                    self.entry_points(),
                    #[trigger] deps@[j]@,
                ) by {
                    assert(texts(deps@)[j] == deps@[j]@);
                    lemma_reachable_step(
                        self.given(),
                        self.entry_points(),
                        module.path,
                        deps@[j]@,
                    );
                }
            }
            self.add_dependencies_to_graph(&deps, Ghost(waiting));
            let ghost grown = *self;
            let target = self.node_mapping[node_index];
            let mut j: usize = 0;
            while j < deps.len()
                invariant
                    j <= deps@.len(),
                    *self == grown,
                    node_index < self.modules().len(),
                    self.node_mapping@.len() == self.modules().len(),
                    target == self.node_mapping@[node_index as int],
                    forall|jj: int|
                        0 <= jj < deps@.len() ==> first_index(
                            module_paths(self.modules()),
                            #[trigger] deps@[jj]@,
                        ) is Some,
                    add_edges@.len() == old(add_edges)@.len() + j,
                    forall|e: int|
                        0 <= e < old(add_edges)@.len() ==> add_edges@[e] == old(add_edges)@[e],
                    forall|jj: int|
                        0 <= jj < j ==> add_edges@[old(add_edges)@.len() + jj] == (
                            self.node_mapping@[first_index(
                                module_paths(self.modules()),
                                #[trigger] deps@[jj]@,
                            )->0],
                            target,
                        ),
                decreases deps@.len() - j,
            {
                let found = self.find_node(&deps[j]);
                let m = found.unwrap();
                add_edges.push((self.node_mapping[m], target));
                j += 1;
            }
            let ghost dependencies = texts(deps@);
            let node = &mut self.nodes[node_index];
            node.state = State::Processing;
            node.depends_on = deps;
            proof {
                let longer = pending(add_edges@);
                let before = grown.modules();
                assert(self.modules() =~= before.update(
                    node_index as int,
                    scanned_module(before[node_index as int], dependencies),
                ));
                assert forall|edge: (int, int)|
                    longer.contains(edge) <==> waiting.contains(edge) || exists|j: int|
                        0 <= j < dependencies.len() && edge == (
                            grown.node_mapping@[first_index(
                                module_paths(before),
                                #[trigger] dependencies[j],
                            )->0] as int,
                            grown.node_mapping@[node_index as int] as int,
                        ) by {
                    if longer.contains(edge) {
                        let e = choose|e: int|
                            0 <= e < add_edges@.len() && (#[trigger] add_edges@[e]).0 as int
                                == edge.0 && add_edges@[e].1 as int == edge.1;
                        if e >= old(add_edges)@.len() {
                            let jj = e - old(add_edges)@.len();
                            assert(dependencies[jj] == deps@[jj]@);
                        }
                    }
                    if waiting.contains(edge) {
                        let e = choose|e: int|
                            0 <= e < old(add_edges)@.len() && (#[trigger] old(
                                add_edges,
                            )@[e]).0 as int == edge.0 && old(add_edges)@[e].1 as int == edge.1;
                        assert(add_edges@[e] == old(add_edges)@[e]);
                    }
                }
                lemma_consistent_scanned(
                    before,
                    grown.node_mapping@,
                    graph_nodes(grown.graph),
                    graph_edges(grown.graph),
                    waiting,
                    longer,
                    grown.resources@,
                    grown.given@,
                    grown.entry_points(),
                    grown.table(),
                    node_index as int,
                    dependencies,
                );
                assert(module_paths(self.modules()) =~= module_paths(before));
            }
            Ok(State::Processing)
        } else {
            let ghost before = *self;
            let mut version_visitor = VersionResolver::new(&self.version_file);
            match self.resources.block_mut(k) {
                Some(block) => {
                    version_visitor.visit_block(block);
                },
                None => {},
            }
            let own = version_visitor.sdk_version();
            let node = &mut self.nodes[node_index];
            node.sdk_version = own;
            node.state = State::Processed;
            proof {
                assert(self.modules() =~= before.modules().update(
                    node_index as int,
                    settled_module(
                        before.modules()[node_index as int],
                        own_interval_of(before.given@[k as int].1, before.table()),
                    ),
                ));
                lemma_consistent_settled(
                    before.modules(),
                    before.node_mapping@,
                    graph_nodes(before.graph),
                    graph_edges(before.graph),
                    waiting,
                    before.resources@,
                    self.resources@,
                    before.given@,
                    before.entry_points(),
                    before.table(),
                    node_index as int,
                    k as int,
                );
                assert(module_paths(self.modules()) =~= module_paths(before.modules()));
            }
            Ok(State::Processed)
        }
    }

    /// Makes a module of each entry point.
    fn create_top_nodes(&mut self)
        requires
            old(self).fresh(),
        ensures
            final(self).inv(Set::empty()),
            final(self).same_task(old(self)),
            final(self).entries_present(final(self).entry_points().len() as int),
            entries_lead(
                final(self).modules(),
                distinct_entries(
                    final(self).entry_points(),
                    final(self).entry_points().len() as int,
                ),
            ),
            final(self).modules().len() == distinct_entries(
                final(self).entry_points(),
                final(self).entry_points().len() as int,
            ).len(),
    {
        let mut t: usize = 0;
        while t < self.top_node_paths.len()
            invariant
                t <= self.top_node_paths@.len(),
                self.top_node_paths@.len() == self.entry_points().len(),
                self.inv(Set::empty()),
                self.same_task(old(self)),
                self.entries_present(t as int),
                module_paths(self.modules()) == distinct_entries(self.entry_points(), t as int),
                forall|i: int|
                    0 <= i < self.modules().len() ==> (#[trigger] self.modules()[i]).is_entry_point,
            decreases self.top_node_paths@.len() - t,
        {
            let path = normalize_path(self.top_node_paths[t].as_str());
            proof {
                let known = module_paths(self.modules());
                lemma_first_index(known, path@, 0);
                if first_index(known, path@) is Some {
                } else if known.contains(path@) {
                    let at = choose|at: int| 0 <= at < known.len() && known[at] == path@;
                    assert(known[at] != path@);
                }
            }
            if self.find_node(&path).is_none() {
                let ghost before = *self;
                proof {
                    lemma_reachable_entry(self.given(), self.entry_points(), t as int);
                }
                self.insert_node(DependencyGraphNode::create_top_node(path), Ghost(Set::empty()));
                proof {
                    let added = self.modules().last();
                    assert(module_paths(self.modules()) =~= module_paths(before.modules()).push(
                        added.path,
                    ));
                    assert forall|u: int| 0 <= u < t + 1 implies first_index(
                        module_paths(self.modules()),
                        #[trigger] self.entry_points()[u],
                    ) is Some by {
                        lemma_first_index_pushed(
                            module_paths(before.modules()),
                            added.path,
                            self.entry_points()[u],
                            0,
                        );
                    }
                }
            }
            t += 1;
        }
    }

    /// The position of the first module whose own interval is not known.
    fn first_not_done(&self) -> (position: Option<usize>)
        ensures
            position is Some
                ==> position->0 < self.modules().len() && self.modules()[position->0 as int].state
                != State::Processed,
            position is None ==> forall|i: int|
                0 <= i < self.modules().len() ==> self.modules()[i].state == State::Processed,
    {
        let mut i: usize = 0;
        while i < self.nodes.len()
            invariant
                i <= self.nodes@.len(),
                forall|j: int| 0 <= j < i ==> self.modules()[j].state == State::Processed,
            decreases self.nodes@.len() - i,
        {
            if self.nodes[i].is_not_done() {
                return Some(i);
            }
            i += 1;
        }
        None
    }

    /// The error for a cycle that the node `index` lies on.
    fn cycle_error(&self, index: usize) -> (error: VersionError)
        requires
            self.inv(Set::empty()),
            graph_nodes(self.graph).contains_key(index as int),
            on_cycle(graph_edges(self.graph), index as int),
        ensures
            explains(error, self.given(), self.entry_points()),
    {
        let position = graph_node_weight(&self.graph, index).unwrap();
        proof {
            let path = choose|path: Seq<int>| #[trigger]
                is_cycle(graph_edges(self.graph), path) && path[0] == index as int;
            lemma_cycle_of_imports(
                self.modules(),
                self.node_mapping@,
                graph_nodes(self.graph),
                graph_edges(self.graph),
                self.resources@,
                self.given@,
                self.entry_points(),
                self.table(),
                path,
            );
            assert(module_ok(
                self.modules(),
                position as int,
                self.resources@,
                self.given@,
                self.entry_points(),
                self.table(),
            ));
        }
        VersionError::CyclicDependency { path: self.nodes[position].path.clone() }
    }

    /// Adds the edges that wait in `add_edges` to the graph.
    fn add_waiting_edges(&mut self, add_edges: &Vec<(usize, usize)>)
        requires
            old(self).inv(pending(add_edges@)),
        ensures
            final(self).inv(Set::empty()),
            final(self).same_task(old(self)),
            final(self).nodes == old(self).nodes,
            final(self).node_mapping == old(self).node_mapping,
    {
        let mut e: usize = 0;
        while e < add_edges.len()
            invariant
                e <= add_edges@.len(),
                self.inv(pending(add_edges@)),
                self.same_task(old(self)),
                self.nodes == old(self).nodes,
                self.node_mapping == old(self).node_mapping,
                forall|d: int|
                    0 <= d < e ==> graph_edges(self.graph).contains(
                        ((#[trigger] add_edges@[d]).0 as int, add_edges@[d].1 as int),
                    ),
            decreases add_edges@.len() - e,
        {
            let ghost before = *self;
            let ghost edge = (add_edges@[e as int].0 as int, add_edges@[e as int].1 as int);
            proof {
                assert(graph_edges(self.graph).union(pending(add_edges@)).contains(edge));
            }
            graph_add_edge(&mut self.graph, add_edges[e].0, add_edges[e].1);
            proof {
                lemma_consistent_edge_added(
                    before.modules(),
                    before.node_mapping@,
                    graph_nodes(before.graph),
                    graph_edges(before.graph),
                    pending(add_edges@),
                    before.resources@,
                    before.given@,
                    before.entry_points(),
                    before.table(),
                    edge,
                );
            }
            e += 1;
        }
        proof {
            lemma_consistent_none_waiting(
                self.modules(),
                self.node_mapping@,
                graph_nodes(self.graph),
                graph_edges(self.graph),
                pending(add_edges@),
                self.resources@,
                self.given@,
                self.entry_points(),
                self.table(),
            );
        }
    }

    /// Moves every module whose own interval is not known on by one state, in
    /// a topological order of the graph as it stands, and then adds the edges
    /// that were found. `open` is the position of such a module.
    fn run_pass(&mut self, open: usize) -> (passed: Result<(), VersionError>)
        requires
            old(self).inv(Set::empty()),
            old(self).entries_present(old(self).entry_points().len() as int),
            open < old(self).modules().len(),
            old(self).modules()[open as int].state != State::Processed,
        ensures
            passed is Ok ==> final(self).inv(Set::empty()) && final(self).same_task(old(self))
                && final(self).entries_present(final(self).entry_points().len() as int)
                && progress(final(self).modules(), final(self).modules().len() as int) > progress(
                old(self).modules(),
                old(self).modules().len() as int,
            ) && grown_from(old(self).modules(), final(self).modules()),
            passed is Err ==> explains(passed->Err_0, old(self).given(), old(self).entry_points()),
    {
        let sorted = graph_toposort(&self.graph);
        let node_indexes = match sorted {
            Ok(node_indexes) => node_indexes,
            Err(index) => {
                return Err(self.cycle_error(index));
            },
        };
        let mut add_edges: Vec<(usize, usize)> = Vec::new();
        let ghost start = *self;
        let ghost mut advanced: nat = 0;
        proof {
            assert(pending(add_edges@) =~= Set::<(int, int)>::empty());
        }
        let mut k: usize = 0;
        while k < node_indexes.len()
            invariant
                k <= node_indexes@.len(),
                self.inv(pending(add_edges@)),
                self.same_task(old(self)),
                start.same_task(old(self)),
                self.entries_present(self.entry_points().len() as int),
                graph_edges(self.graph) == graph_edges(start.graph),
                self.modules().len() >= start.modules().len(),
                grown_from(start.modules(), self.modules()),
                start.modules() == old(self).modules(),
                forall|i: int|
                    0 <= i < start.modules().len() ==> self.node_mapping@[i]
                        == start.node_mapping@[i],
                is_topological_order(
                    as_ints(node_indexes@),
                    graph_nodes(start.graph).dom(),
                    graph_edges(start.graph),
                ),
                mapping_ok(
                    graph_nodes(start.graph),
                    start.node_mapping@,
                    start.modules().len() as int,
                ),
                progress(self.modules(), self.modules().len() as int) == progress(
                    start.modules(),
                    start.modules().len() as int,
                ) + advanced,
                forall|i: int|
                    0 <= i < start.modules().len() ==> visited(
                        node_indexes@,
                        k as int,
                        #[trigger] start.node_mapping@[i],
                    ) || self.modules()[i].state == start.modules()[i].state,
                open < start.modules().len(),
                start.modules()[open as int].state != State::Processed,
                visited(node_indexes@, k as int, start.node_mapping@[open as int])
                    ==> advanced >= 1,
            decreases node_indexes@.len() - k,
        {
            let index = node_indexes[k];
            let ghost p = graph_nodes(start.graph)[index as int];
            proof {
                assert(as_ints(node_indexes@)[k as int] == index as int);
                assert(self.node_mapping@[p] == index);
            }
            let position = graph_node_weight(&self.graph, index).unwrap();
            let ghost before = *self;
            proof {
                if visited(node_indexes@, k as int, index) {
                    let j = choose|j: int| 0 <= j < k && #[trigger] node_indexes@[j] == index;
                    assert(as_ints(node_indexes@)[j] == as_ints(node_indexes@)[k as int]);
                }
            }
            if self.nodes[position].is_not_done() {
                match self.advance_work(position, &mut add_edges) {
                    Ok(_) => {
                        proof {
                            lemma_progress_advanced(
                                before.modules(),
                                self.modules(),
                                position as int,
                                self.modules().len() as int,
                            );
                            advanced = advanced + 1;
                        }
                    },
                    Err(error) => {
                        return Err(error);
                    },
                }
            }
            proof {
                if visited(node_indexes@, k + 1, start.node_mapping@[open as int]) {
                    let j = choose|j: int|
                        0 <= j < k + 1 && #[trigger] node_indexes@[j]
                            == start.node_mapping@[open as int];
                    if j < k {
                        assert(visited(node_indexes@, k as int, start.node_mapping@[open as int]));
                    } else {
                        assert(position == open);
                    }
                }
            }
            k += 1;
        }
        proof {
            let wanted = start.node_mapping@[open as int];
            let i = choose|i: int|
                0 <= i < as_ints(node_indexes@).len() && as_ints(node_indexes@)[i] == wanted as int;
            assert(node_indexes@[i] == wanted);
        }
        self.add_waiting_edges(&add_edges);
        Ok(())
    }

    /// Runs passes until the own interval of every module is known.
    fn build_graph(&mut self) -> (built: Result<(), VersionError>)
        requires
            old(self).inv(Set::empty()),
            old(self).entries_present(old(self).entry_points().len() as int),
        ensures
            built is Ok ==> final(self).inv(Set::empty()) && final(self).same_task(old(self))
                && final(self).entries_present(final(self).entry_points().len() as int)
                && grown_from(old(self).modules(), final(self).modules()) && forall|i: int|
                0 <= i < final(self).modules().len() ==> final(self).modules()[i].state
                    == State::Processed,
            built is Err ==> explains(built->Err_0, old(self).given(), old(self).entry_points()),
    {
        let mut open = self.first_not_done();
        let count = self.nodes.len();
        proof {
            assert(self.modules().len() == count);
            lemma_progress_bound(self.modules(), self.modules().len() as int);
        }
        while open.is_some()
            invariant
                self.inv(Set::empty()),
                grown_from(old(self).modules(), self.modules()),
                self.same_task(old(self)),
                self.entries_present(self.entry_points().len() as int),
                open is Some
                    ==> open->0 < self.modules().len() && self.modules()[open->0 as int].state
                    != State::Processed,
                open is None ==> forall|i: int|
                    0 <= i < self.modules().len() ==> self.modules()[i].state == State::Processed,
                progress(self.modules(), self.modules().len() as int) <= 2 * self.modules().len(),
                self.modules().len() <= usize::MAX,
            decreases 2 * usize::MAX - progress(self.modules(), self.modules().len() as int),
        {
            match self.run_pass(open.unwrap()) {
                Ok(()) => {},
                Err(error) => {
                    return Err(error);
                },
            }
            let count = self.nodes.len();
            proof {
                assert(self.modules().len() == count);
                lemma_progress_bound(self.modules(), self.modules().len() as int);
            }
            open = self.first_not_done();
        }
        Ok(())
    }

    /// The intersection of the final intervals of the dependencies of the
    /// module at `position`.
    fn dependencies_version(&self, position: usize) -> (version: SdkVersionOut)
        requires
            position < self.modules().len(),
        ensures
            version == dependencies_interval(
                self.modules(),
                self.modules()[position as int].dependencies,
                self.modules()[position as int].dependencies.len() as int,
            ),
    {
        let ghost dependencies = self.modules()[position as int].dependencies;
        let mut version = SdkVersionOut::default();
        let mut j: usize = 0;
        while j < self.nodes[position].depends_on.len()
            invariant
                position < self.nodes@.len(),
                j <= self.nodes@[position as int].depends_on@.len(),
                dependencies == texts(self.nodes@[position as int].depends_on@),
                version == dependencies_interval(self.modules(), dependencies, j as int),
            decreases self.nodes@[position as int].depends_on@.len() - j,
        {
            let found = self.find_node(&self.nodes[position].depends_on[j]);
            let dependency_version = match found {
                Some(m) => match self.nodes[m].final_version {
                    Some(version) => version,
                    None => SdkVersionOut::default(),
                },
                None => SdkVersionOut::default(),
            };
            version = SdkVersionOut::sdk_version_intersection(version, dependency_version);
            j += 1;
        }
        version
    }

    /// Gives every module its final interval, dependencies first.
    fn propagate(&mut self) -> (propagated: Result<(), VersionError>)
        requires
            old(self).inv(Set::empty()),
            old(self).entries_present(old(self).entry_points().len() as int),
            forall|i: int|
                0 <= i < old(self).modules().len() ==> old(self).modules()[i].state
                    == State::Processed,
            entries_lead(
                old(self).modules(),
                distinct_entries(old(self).entry_points(), old(self).entry_points().len() as int),
            ),
        ensures
            propagated is Ok ==> final(self).same_task(old(self)) && analysis_complete(
                final(self).modules(),
                final(self).given(),
                final(self).entry_points(),
                final(self).table(),
            ) && sources_settled(
                final(self).sources(),
                final(self).given(),
                final(self).modules(),
                final(self).table(),
            ),
            propagated is Err ==> explains(
                propagated->Err_0,
                old(self).given(),
                old(self).entry_points(),
            ),
    {
        let sorted = graph_toposort(&self.graph);
        let node_indexes = match sorted {
            Ok(node_indexes) => node_indexes,
            Err(index) => {
                return Err(self.cycle_error(index));
            },
        };
        let ghost built = self.modules();
        proof {
            assert forall|i: int| 0 <= i < built.len() implies (#[trigger] built[i]).final_interval
                == if visited(node_indexes@, 0, self.node_mapping@[i]) {
                Some(final_owed(built, i))
            } else {
                None
            } by {
                assert(module_ok(
                    built,
                    i,
                    self.resources@,
                    self.given@,
                    self.entry_points(),
                    self.table(),
                ));
            }
        }
        let mut k: usize = 0;
        while k < node_indexes.len()
            invariant
                k <= node_indexes@.len(),
                self.same_task(old(self)),
                self.graph == old(self).graph,
                self.node_mapping == old(self).node_mapping,
                self.resources == old(self).resources,
                built == old(self).modules(),
                old(self).inv(Set::empty()),
                forall|i: int| 0 <= i < built.len() ==> built[i].state == State::Processed,
                is_topological_order(
                    as_ints(node_indexes@),
                    graph_nodes(self.graph).dom(),
                    graph_edges(self.graph),
                ),
                finals_set(built, self.modules(), self.node_mapping@, node_indexes@, k as int),
            decreases node_indexes@.len() - k,
        {
            let index = node_indexes[k];
            proof {
                assert(as_ints(node_indexes@)[k as int] == index as int);
            }
            let position = graph_node_weight(&self.graph, index).unwrap();
            let ghost before = self.modules();
            let dependencies_version = self.dependencies_version(position);
            let node = &mut self.nodes[position];
            node.final_version = Some(
                SdkVersionOut::sdk_version_intersection(node.sdk_version, dependencies_version),
            );
            proof {
                assert(self.modules() =~= before.update(
                    position as int,
                    ModuleModel {
                        final_interval: Some(final_owed(before, position as int)),
                        ..before[position as int]
                    },
                ));
                lemma_final_set(
                    built,
                    before,
                    self.node_mapping@,
                    graph_nodes(self.graph),
                    graph_edges(self.graph),
                    self.resources@,
                    self.given@,
                    self.entry_points(),
                    self.table(),
                    node_indexes@,
                    k as int,
                    position as int,
                );
            }
            k += 1;
        }
        proof {
            lemma_analysis_complete(
                built,
                self.modules(),
                self.node_mapping@,
                graph_nodes(self.graph),
                graph_edges(self.graph),
                self.resources@,
                self.given@,
                self.entry_points(),
                self.table(),
                node_indexes@,
            );
        }
        Ok(())
    }

    /// Finds every module that the entry points depend on, computes what the
    /// code of each demands, and narrows the interval of each module by those
    /// of its dependencies. Succeeds if the file of every module that is
    /// needed was given and parsed, every import led to a file, and no module
    /// depends on itself; else says what stood in the way.
    pub fn compute_dependency_graph(self) -> (computed: Result<Work, VersionError>)
        requires
            self.fresh(),
        ensures
            match computed {
                Ok(work) => {
                    &&& work.given() == self.given()
                    &&& work.entry_points() == self.entry_points()
                    &&& work.table() == self.table()
                    &&& analysis_complete(
                        work.modules(),
                        self.given(),
                        self.entry_points(),
                        self.table(),
                    )
                    &&& sources_settled(work.sources(), self.given(), work.modules(), self.table())
                },
                Err(error) => explains(error, self.given(), self.entry_points()),
            },
    {
        let mut work = self;
        work.create_top_nodes();
        match work.build_graph() {
            Ok(()) => {},
            Err(error) => {
                return Err(error);
            },
        }
        match work.propagate() {
            Ok(()) => {},
            Err(error) => {
                return Err(error);
            },
        }
        Ok(work)
    }

    /// The files as they stand: those given, with the trees that the analysis
    /// changed.
    pub fn resources(&self) -> (resources: &Resources)
        ensures
            resources@ == self.sources(),
    {
        &self.resources
    }

    /// The final interval of each entry point, by its canonical path.
    pub fn get_versions(&self) -> (versions: Vec<(String, SdkVersionOut)>)
        ensures
            versions_view(versions@) == entry_versions(
                self.modules(),
                self.modules().len() as int,
            ),
    {
        let mut versions: Vec<(String, SdkVersionOut)> = Vec::new();
        let mut i: usize = 0;
        while i < self.nodes.len()
            invariant
                i <= self.nodes@.len(),
                versions_view(versions@) == entry_versions(self.modules(), i as int),
            decreases self.nodes@.len() - i,
        {
            if self.nodes[i].is_top_node {
                if let Some(version) = self.nodes[i].final_version {
                    versions.push((self.nodes[i].path.clone(), version));
                }
            }
            i += 1;
        }
        versions
    }
}

} // verus!

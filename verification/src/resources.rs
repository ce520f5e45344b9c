//! The parsed modules that an analysis can draw on.

use crate::dependency_visitor::{block_imports, misses, targets, RequireLocations};
use crate::nodes::Block;
use crate::sdk_version::SdkVersionOut;
use crate::version_visitor::{block_demand, VersionFile};
use vstd::prelude::*;

verus! {

/// What reading and parsing the file of a module gave.
#[derive(Debug, PartialEq, Eq)]
pub enum ModuleSource {
    /// The file was parsed: its tree, and where its imports lead.
    Parsed { block: Block, locations: RequireLocations },
    /// The file could not be parsed.
    Unparsable,
}

/// The index of the first of `paths` from index `from` on that is `path`.
pub open spec fn first_index_from(paths: Seq<Seq<char>>, path: Seq<char>, from: int) -> Option<int>
    decreases paths.len() - from,
{
    if from < 0 || from >= paths.len() {
        None
    } else if paths[from] == path {
        Some(from)
    } else {
        first_index_from(paths, path, from + 1)
    }
}

/// The index of the first of `paths` that is `path`.
pub open spec fn first_index(paths: Seq<Seq<char>>, path: Seq<char>) -> Option<int> {
    first_index_from(paths, path, 0)
}

/// What a first index says: it holds the path, and nothing before it does.
pub proof fn lemma_first_index(paths: Seq<Seq<char>>, path: Seq<char>, from: int)
    requires
        0 <= from,
    ensures
        match first_index_from(paths, path, from) {
            Some(index) => from <= index < paths.len() && paths[index] == path && forall|j: int|
                from <= j < index ==> paths[j] != path,
            None => forall|j: int| from <= j < paths.len() ==> paths[j] != path,
        },
    decreases paths.len() - from,
{
    if from < paths.len() && paths[from] != path {
        lemma_first_index(paths, path, from + 1);
    }
}

/// The paths of a list of modules.
pub open spec fn paths_of(entries: Seq<(String, ModuleSource)>) -> Seq<Seq<char>> {
    Seq::new(entries.len(), |i: int| entries[i].0@)
}

/// What the first of `entries` for `path` holds.
pub open spec fn source_of(entries: Seq<(String, ModuleSource)>, path: Seq<char>) -> Option<
    ModuleSource,
> {
    match first_index(paths_of(entries), path) {
        Some(index) => Some(entries[index].1),
        None => None,
    }
}

/// The files that the imports of a module lead to, in source order.
pub open spec fn dependencies_of(source: ModuleSource) -> Seq<Seq<char>> {
    match source {
        ModuleSource::Parsed { block, locations } => targets(block_imports(block), locations@),
        ModuleSource::Unparsable => Seq::empty(),
    }
}

/// The literal paths that a module imports and that lead nowhere.
pub open spec fn unresolved_of(source: ModuleSource) -> Seq<Seq<char>> {
    match source {
        ModuleSource::Parsed { block, locations } => misses(block_imports(block), locations@),
        ModuleSource::Unparsable => Seq::empty(),
    }
}

/// The versions that a module can run on, going by its own code alone.
pub open spec fn own_interval_of(source: ModuleSource, table: VersionFile) -> SdkVersionOut {
    match source {
        ModuleSource::Parsed { block, locations } => block_demand(block, Seq::empty(), table),
        ModuleSource::Unparsable => table.default_interval(),
    }
}

/// The modules that were read, each under the canonical path of its file.
/// Where a path stands twice, the first entry counts.
#[derive(Debug)]
pub struct Resources {
    modules: Vec<(String, ModuleSource)>,
}

impl View for Resources {
    type V = Seq<(String, ModuleSource)>;

    closed spec fn view(&self) -> Seq<(String, ModuleSource)> {
        self.modules@
    }
}

impl Resources {
    /// No module.
    pub fn new() -> (resources: Self)
        ensures
            resources@.len() == 0,
    {
        Resources { modules: Vec::new() }
    }

    /// Adds what reading the file `path` gave.
    pub fn insert(&mut self, path: String, source: ModuleSource)
        ensures
            final(self)@ == old(self)@.push((path, source)),
    {
        self.modules.push((path, source));
    }

    /// The number of entries.
    pub fn len(&self) -> (count: usize)
        ensures
            count == self@.len(),
    {
        self.modules.len()
    }

    /// The index of the entry that counts for `path`.
    pub fn position(&self, path: &String) -> (index: Option<usize>)
        ensures
            index is Some <==> first_index(paths_of(self@), path@) is Some,
            index is Some ==> index->0 == first_index(paths_of(self@), path@)->0,
            index is Some ==> index->0 < self@.len(),
    {
        let mut i: usize = 0;
        while i < self.modules.len()
            invariant
                i <= self.modules@.len(),
                first_index(paths_of(self@), path@) == first_index_from(
                    paths_of(self@),
                    path@,
                    i as int,
                ),
            decreases self.modules@.len() - i,
        {
            if self.modules[i].0 == *path {
                return Some(i);
            }
            i += 1;
        }
        None
    }

    /// What the file `path` gave.
    pub fn get(&self, path: &String) -> (source: Option<&ModuleSource>)
        ensures
            source is Some <==> source_of(self@, path@) is Some,
            source is Some ==> *source->0 == source_of(self@, path@)->0,
    {
        match self.position(path) {
            Some(index) => Some(&self.modules[index].1),
            None => None,
        }
    }

    /// The entry at `index`.
    pub(crate) fn entry(&self, index: usize) -> (source: &ModuleSource)
        requires
            index < self@.len(),
        ensures
            *source == self@[index as int].1,
    {
        &self.modules[index].1
    }

    /// The tree at `index`, for changing it in place, if that entry holds one.
    pub(crate) fn block_mut(&mut self, index: usize) -> (block: Option<&mut Block>)
        requires
            index < old(self)@.len(),
        ensures
            old(self)@[index as int].1 is Parsed <==> block is Some,
            block is Some ==> *block->0 == old(self)@[index as int].1->block,
            block is Some ==> final(self)@ == old(self)@.update(
                index as int,
                (
                    old(self)@[index as int].0,
                    ModuleSource::Parsed {
                        block: *final(block->0),
                        locations: old(self)@[index as int].1->locations,
                    },
                ),
            ),
            block is None ==> final(self)@ == old(self)@,
    {
        match &mut self.modules[index].1 {
            ModuleSource::Parsed { block, locations } => Some(block),
            ModuleSource::Unparsable => None,
        }
    }
}

} // verus!

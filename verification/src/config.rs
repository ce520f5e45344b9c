//! The flows of a project, as its configuration file lists them.

use crate::utils::texts;
use vstd::prelude::*;
use vstd::std_specs::convert::FromSpecImpl;
use vstd::string::*;

verus! {

/// The configuration of a project.
#[derive(Debug, Clone, PartialEq, Eq)]
pub struct Config {
    pub settings: Settings,
    pub platforms: Vec<Platform>,
}

/// Where bundles go, and the definition files that the analyzer is given.
#[derive(Debug, Clone, PartialEq, Eq)]
pub struct Settings {
    pub output_directory: String,
    pub definition_files: Option<Vec<String>>,
}

/// A platform and its flows.
#[derive(Debug, Clone, PartialEq, Eq)]
pub struct Platform {
    pub name: String,
    pub description: String,
    pub flows: Vec<Flow>,
}

/// A platform without its flows.
#[derive(Debug, Clone, PartialEq, Eq)]
pub struct SimplePlatform {
    pub name: String,
    pub description: String,
}

impl From<Platform> for SimplePlatform {
    fn from(platform: Platform) -> (simple: Self) {
        Self { name: platform.name, description: platform.description }
    }
}

impl FromSpecImpl<Platform> for SimplePlatform {
    open spec fn obeys_from_spec() -> bool {
        true
    }

    open spec fn from_spec(platform: Platform) -> Self {
        SimplePlatform { name: platform.name, description: platform.description }
    }
}

impl<'a> From<&'a Platform> for SimplePlatform {
    fn from(platform: &'a Platform) -> (simple: Self) {
        Self { name: platform.name.clone(), description: platform.description.clone() }
    }
}

impl<'a> FromSpecImpl<&'a Platform> for SimplePlatform {
    open spec fn obeys_from_spec() -> bool {
        true
    }

    open spec fn from_spec(platform: &'a Platform) -> Self {
        SimplePlatform { name: platform.name, description: platform.description }
    }
}

/// A flow: a script at `path`, known to users by `name` and to clients by
/// `alias`.
#[derive(Debug, Clone, PartialEq, Eq)]
pub struct Flow {
    pub name: String,
    pub alias: String,
    pub description: String,
    pub min_sdk_version: Option<String>,
    pub retrieves: Option<Vec<String>>,
    pub path: String,
}

/// The first of `flows`, from index `from` on, that is named `name`.
pub open spec fn flow_named(flows: Seq<Flow>, name: Seq<char>, from: int) -> Option<Flow>
    decreases flows.len() - from,
{
    if from < 0 || from >= flows.len() {
        None
    } else if flows[from].name@ == name {
        Some(flows[from])
    } else {
        flow_named(flows, name, from + 1)
    }
}

/// The first flow named `name` of the first of `platforms`, from index `from`
/// on, that has one.
pub open spec fn flow_of(platforms: Seq<Platform>, name: Seq<char>, from: int) -> Option<Flow>
    decreases platforms.len() - from,
{
    if from < 0 || from >= platforms.len() {
        None
    } else {
        match flow_named(platforms[from].flows@, name, 0) {
            Some(flow) => Some(flow),
            None => flow_of(platforms, name, from + 1),
        }
    }
}

/// `path` as seen from the directory `base`: `path` itself if it starts at
/// the root, else `base`, a separator where `base` does not end in one, and
/// `path`.
pub open spec fn joined_path(base: Seq<char>, path: Seq<char>) -> Seq<char> {
    if path.len() > 0 && path[0] == '/' {
        path
    } else if base.len() == 0 || base.last() == '/' {
        base + path
    } else {
        base + seq!['/'] + path
    }
}

/// The paths of the flows of the first `count` of `flows`, each as seen from
/// `base`.
pub open spec fn flow_paths_from(flows: Seq<Flow>, base: Seq<char>, count: int) -> Seq<Seq<char>>
    decreases count,
{
    if count <= 0 || count > flows.len() {
        Seq::empty()
    } else {
        flow_paths_from(flows, base, count - 1).push(joined_path(base, flows[count - 1].path@))
    }
}

/// The paths of the flows of the first `count` of `platforms`, each as seen
/// from `base`, platform by platform.
pub open spec fn flows_paths(platforms: Seq<Platform>, base: Seq<char>, count: int) -> Seq<
    Seq<char>,
>
    decreases count,
{
    if count <= 0 || count > platforms.len() {
        Seq::empty()
    } else {
        flows_paths(platforms, base, count - 1) + flow_paths_from(
            platforms[count - 1].flows@,
            base,
            platforms[count - 1].flows@.len() as int,
        )
    }
}

fn join_path(base: &str, path: &str) -> (joined: String)
    ensures
        joined@ == joined_path(base@, path@),
{
    proof {
        reveal_strlit("/");
    }
    let base_length = base.unicode_len();
    if path.unicode_len() > 0 && path.get_char(0) == '/' {
        String::from_str(path)
    } else if base_length == 0 || base.get_char(base_length - 1) == '/' {
        let mut joined = String::from_str(base);
        joined.append(path);
        joined
    } else {
        let mut joined = String::from_str(base);
        joined.append("/");
        joined.append(path);
        joined
    }
}

impl Config {
    /// The path of every flow, as seen from the directory `current_dir`,
    /// platform by platform.
    pub fn get_flows_paths(&self, current_dir: &str) -> (files: Vec<String>)
        ensures
            texts(files@) == flows_paths(
                self.platforms@,
                current_dir@,
                self.platforms@.len() as int,
            ),
    {
        let mut files: Vec<String> = Vec::new();
        let mut p: usize = 0;
        while p < self.platforms.len()
            invariant
                p <= self.platforms@.len(),
                texts(files@) == flows_paths(self.platforms@, current_dir@, p as int),
            decreases self.platforms@.len() - p,
        {
            let platform = &self.platforms[p];
            let ghost before = texts(files@);
            let mut f: usize = 0;
            while f < platform.flows.len()
                invariant
                    f <= platform.flows@.len(),
                    texts(files@) == before + flow_paths_from(
                        platform.flows@,
                        current_dir@,
                        f as int,
                    ),
                decreases platform.flows@.len() - f,
            {
                let ghost sofar = texts(files@);
                let file = join_path(current_dir, platform.flows[f].path.as_str());
                files.push(file);
                assert(texts(files@) =~= sofar.push(
                    joined_path(current_dir@, platform.flows@[f as int].path@),
                ));
                f += 1;
            }
            p += 1;
        }
        files
    }

    /// The first flow named `flow_name`, platform by platform.
    pub fn get_flow(&self, flow_name: &str) -> (flow: Option<&Flow>)
        ensures
            flow is Some <==> flow_of(self.platforms@, flow_name@, 0) is Some,
            flow is Some ==> *flow->0 == flow_of(self.platforms@, flow_name@, 0)->0,
    {
        let wanted = String::from_str(flow_name);
        let mut p: usize = 0;
        while p < self.platforms.len()
            invariant
                p <= self.platforms@.len(),
                wanted@ == flow_name@,
                flow_of(self.platforms@, flow_name@, 0) == flow_of(
                    self.platforms@,
                    flow_name@,
                    p as int,
                ),
            decreases self.platforms@.len() - p,
        {
            let platform = &self.platforms[p];
            let mut f: usize = 0;
            while f < platform.flows.len()
                invariant
                    f <= platform.flows@.len(),
                    wanted@ == flow_name@,
                    p < self.platforms@.len(),
                    *platform == self.platforms@[p as int],
                    flow_of(self.platforms@, flow_name@, 0) == flow_of(
                        self.platforms@,
                        flow_name@,
                        p as int,
                    ),
                    flow_named(platform.flows@, flow_name@, 0) == flow_named(
                        platform.flows@,
                        flow_name@,
                        f as int,
                    ),
                decreases platform.flows@.len() - f,
            {
                if platform.flows[f].name == wanted {
                    return Some(&platform.flows[f]);
                }
                f += 1;
            }
            p += 1;
        }
        None
    }
}

} // verus!

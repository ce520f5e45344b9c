//! The versions of the flows of a project.

use crate::config::{Config, Flow, Platform};
use crate::analysis::{
    analysis_complete, entry_points_of, explains, sources_settled, versions_view,
};
use crate::dependency_graph::{VersionError, Work};
use crate::resources::Resources;
use crate::sdk_version::SdkVersionOut;
use crate::utils::{normalize_path, normalized, texts};
use crate::version_visitor::VersionFile;
use vstd::prelude::*;

verus! {

/// The modules of the flows at `flow_paths`, over the files in `resources`,
/// each with the versions it can run on, or what stood in the way.
pub fn compute_version_for_flows(
    resources: Resources,
    flow_paths: Vec<String>,
    version_file: VersionFile,
) -> (computed: Result<Work, VersionError>)
    ensures
        match computed {
            Ok(work) => {
                &&& work.given() == resources@
                &&& work.entry_points() == entry_points_of(flow_paths@)
                &&& work.table() == version_file
                &&& analysis_complete(
                    work.modules(),
                    resources@,
                    entry_points_of(flow_paths@),
                    version_file,
                )
                &&& sources_settled(work.sources(), resources@, work.modules(), version_file)
            },
            Err(error) => explains(error, resources@, entry_points_of(flow_paths@)),
        },
{
    let work = Work::new(resources, flow_paths, version_file);
    work.compute_dependency_graph()
}

/// The paths of the first `count` of `flows`, as the configuration gives
/// them.
pub open spec fn paths_of_flows(flows: Seq<Flow>, count: int) -> Seq<Seq<char>>
    decreases count,
{
    if count <= 0 || count > flows.len() {
        Seq::empty()
    } else {
        paths_of_flows(flows, count - 1).push(flows[count - 1].path@)
    }
}

/// The paths of the flows of the first `count` of `platforms`, platform by
/// platform.
pub open spec fn paths_of_platforms(platforms: Seq<Platform>, count: int) -> Seq<Seq<char>>
    decreases count,
{
    if count <= 0 || count > platforms.len() {
        Seq::empty()
    } else {
        paths_of_platforms(platforms, count - 1) + paths_of_flows(
            platforms[count - 1].flows@,
            platforms[count - 1].flows@.len() as int,
        )
    }
}

/// The alias of the last of the first `count` of `flows` whose file has the
/// canonical path `path`.
pub open spec fn alias_among(flows: Seq<Flow>, path: Seq<char>, count: int) -> Option<Seq<char>>
    decreases count,
{
    if count <= 0 || count > flows.len() {
        None
    } else if normalized(flows[count - 1].path@, false) == path {
        Some(flows[count - 1].alias@)
    } else {
        alias_among(flows, path, count - 1)
    }
}

/// The alias of the last flow, among the first `count` of `platforms`, whose
/// file has the canonical path `path`.
pub open spec fn alias_of(platforms: Seq<Platform>, path: Seq<char>, count: int) -> Option<
    Seq<char>,
>
    decreases count,
{
    if count <= 0 || count > platforms.len() {
        None
    } else {
        match alias_among(
            platforms[count - 1].flows@,
            path,
            platforms[count - 1].flows@.len() as int,
        ) {
            Some(alias) => Some(alias),
            None => alias_of(platforms, path, count - 1),
        }
    }
}

/// The first `count` of `versions`, each under the alias of its flow in place
/// of its path; those whose path is the path of no flow are left out.
pub open spec fn versions_by_alias(
    platforms: Seq<Platform>,
    versions: Seq<(String, SdkVersionOut)>,
    count: int,
) -> Seq<(Seq<char>, SdkVersionOut)>
    decreases count,
{
    if count <= 0 || count > versions.len() {
        Seq::empty()
    } else {
        let rest = versions_by_alias(platforms, versions, count - 1);
        match alias_of(platforms, versions[count - 1].0@, platforms.len() as int) {
            Some(alias) => rest.push((alias, versions[count - 1].1)),
            None => rest,
        }
    }
}

/// The path of every flow of `config`, platform by platform.
pub fn flow_paths(config: &Config) -> (paths: Vec<String>)
    ensures
        texts(paths@) == paths_of_platforms(config.platforms@, config.platforms@.len() as int),
{
    let mut paths: Vec<String> = Vec::new();
    let mut p: usize = 0;
    while p < config.platforms.len()
        invariant
            p <= config.platforms@.len(),
            texts(paths@) == paths_of_platforms(config.platforms@, p as int),
        decreases config.platforms@.len() - p,
    {
        let platform = &config.platforms[p];
        let ghost before = texts(paths@);
        let mut f: usize = 0;
        while f < platform.flows.len()
            invariant
                f <= platform.flows@.len(),
                texts(paths@) == before + paths_of_flows(platform.flows@, f as int),
            decreases platform.flows@.len() - f,
        {
            let ghost sofar = texts(paths@);
            paths.push(platform.flows[f].path.clone());
            assert(texts(paths@) =~= sofar.push(platform.flows@[f as int].path@));
            f += 1;
        }
        p += 1;
    }
    paths
}

/// The alias of the flow whose file has the canonical path `path`.
pub fn find_alias<'a>(config: &'a Config, path: &String) -> (alias: Option<&'a String>)
    ensures
        alias is Some <==> alias_of(config.platforms@, path@, config.platforms@.len() as int)
            is Some,
        alias is Some ==> alias->0@ == alias_of(
            config.platforms@,
            path@,
            config.platforms@.len() as int,
        )->0,
{
    let mut count: usize = config.platforms.len();
    while count > 0
        invariant
            count <= config.platforms@.len(),
            alias_of(config.platforms@, path@, config.platforms@.len() as int) == alias_of(
                config.platforms@,
                path@,
                count as int,
            ),
        decreases count,
    {
        count -= 1;
        let platform = &config.platforms[count];
        let mut flows: usize = platform.flows.len();
        while flows > 0
            invariant
                flows <= platform.flows@.len(),
                count < config.platforms@.len(),
                *platform == config.platforms@[count as int],
                alias_of(config.platforms@, path@, config.platforms@.len() as int) == alias_of(
                    config.platforms@,
                    path@,
                    count + 1,
                ),
                alias_among(platform.flows@, path@, platform.flows@.len() as int) == alias_among(
                    platform.flows@,
                    path@,
                    flows as int,
                ),
            decreases flows,
        {
            flows -= 1;
            if normalize_path(platform.flows[flows].path.as_str()) == *path {
                return Some(&platform.flows[flows].alias);
            }
        }
    }
    None
}

/// `versions`, each under the alias of its flow in place of its path.
pub fn alias_versions(config: &Config, versions: &Vec<(String, SdkVersionOut)>) -> (by_alias: Vec<
    (String, SdkVersionOut),
>)
    ensures
        versions_view(by_alias@) == versions_by_alias(
            config.platforms@,
            versions@,
            versions@.len() as int,
        ),
{
    let mut by_alias: Vec<(String, SdkVersionOut)> = Vec::new();
    let mut i: usize = 0;
    while i < versions.len()
        invariant
            i <= versions@.len(),
            versions_view(by_alias@) == versions_by_alias(
                config.platforms@,
                versions@,
                i as int,
            ),
        decreases versions@.len() - i,
    {
        if let Some(alias) = find_alias(config, &versions[i].0) {
            by_alias.push((alias.clone(), versions[i].1));
        }
        i += 1;
    }
    by_alias
}

} // verus!

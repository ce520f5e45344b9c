//! What a server of flows looks up in the configuration.

use crate::config::{Config, Flow, Platform, SimplePlatform};
use vstd::prelude::*;
use vstd::std_specs::convert::FromSpec;
use vstd::string::*;

verus! {

/// Who a script belongs to.
#[derive(Debug, Clone, Copy, PartialEq, Eq)]
pub enum LuaScriptOwnerType {
    Custom,
    Opacity,
}

/// The index of the last of the first `count` of `platforms` that is named
/// `name`.
pub open spec fn platform_index(
    platforms: Seq<Platform>,
    name: Seq<char>,
    count: int,
) -> Option<int>
    decreases count,
{
    if count <= 0 || count > platforms.len() {
        None
    } else if platforms[count - 1].name@ == name {
        Some(count - 1)
    } else {
        platform_index(platforms, name, count - 1)
    }
}

/// The flow that the last of the first `count` of `flows` with the alias
/// `alias` stands for.
pub open spec fn flow_aliased(flows: Seq<Flow>, alias: Seq<char>, count: int) -> Option<Flow>
    decreases count,
{
    if count <= 0 || count > flows.len() {
        None
    } else if flows[count - 1].alias@ == alias {
        Some(flows[count - 1])
    } else {
        flow_aliased(flows, alias, count - 1)
    }
}

/// The last flow with the alias `alias` among the first `count` of
/// `platforms`, with the index of the last platform that is named like the
/// platform of that flow.
pub open spec fn flow_and_platform(
    platforms: Seq<Platform>,
    alias: Seq<char>,
    count: int,
) -> Option<
    (Flow, int),
>
    decreases count,
{
    if count <= 0 || count > platforms.len() {
        None
    } else {
        match flow_aliased(
            platforms[count - 1].flows@,
            alias,
            platforms[count - 1].flows@.len() as int,
        ) {
            Some(flow) => match platform_index(
                platforms,
                platforms[count - 1].name@,
                platforms.len() as int,
            ) {
                Some(index) => Some((flow, index)),
                None => None,
            },
            None => flow_and_platform(platforms, alias, count - 1),
        }
    }
}

/// Each platform of `config` without its flows, in order.
pub fn get_platform_vector(config: &Config) -> (platforms: Vec<SimplePlatform>)
    ensures
        platforms@.len() == config.platforms@.len(),
        forall|i: int|
            0 <= i < platforms@.len() ==> #[trigger] platforms@[i] == SimplePlatform::from_spec(
                &config.platforms@[i],
            ),
{
    let mut platforms: Vec<SimplePlatform> = Vec::new();
    let mut i: usize = 0;
    while i < config.platforms.len()
        invariant
            i <= config.platforms@.len(),
            platforms@.len() == i,
            forall|j: int|
                0 <= j < i ==> #[trigger] platforms@[j] == SimplePlatform::from_spec(
                    &config.platforms@[j],
                ),
        decreases config.platforms@.len() - i,
    {
        platforms.push(SimplePlatform::from(&config.platforms[i]));
        i += 1;
    }
    platforms
}

/// The index of the platform that `name` stands for: the last one named so.
pub fn get_platform_index(config: &Config, name: &str) -> (index: Option<usize>)
    ensures
        index is Some <==> platform_index(
            config.platforms@,
            name@,
            config.platforms@.len() as int,
        ) is Some,
        index is Some ==> index->0 == platform_index(
            config.platforms@,
            name@,
            config.platforms@.len() as int,
        )->0,
        index is Some ==> index->0 < config.platforms@.len(),
{
    let wanted = String::from_str(name);
    let mut count: usize = config.platforms.len();
    while count > 0
        invariant
            count <= config.platforms@.len(),
            wanted@ == name@,
            platform_index(config.platforms@, name@, config.platforms@.len() as int)
                == platform_index(config.platforms@, name@, count as int),
        decreases count,
    {
        count -= 1;
        if config.platforms[count].name == wanted {
            return Some(count);
        }
    }
    None
}

/// For each platform of `config`, in order, its name with the index of the
/// platform that the name stands for.
pub fn get_alias_to_platform_index_map(config: &Config) -> (map: Vec<(String, usize)>)
    ensures
        map@.len() == config.platforms@.len(),
        forall|i: int|
            0 <= i < map@.len() ==> (#[trigger] map@[i]).0@ == config.platforms@[i].name@
                && platform_index(
                config.platforms@,
                config.platforms@[i].name@,
                config.platforms@.len() as int,
            ) == Some(map@[i].1 as int),
{
    let mut map: Vec<(String, usize)> = Vec::new();
    let mut i: usize = 0;
    while i < config.platforms.len()
        invariant
            i <= config.platforms@.len(),
            map@.len() == i,
            forall|j: int|
                0 <= j < i ==> (#[trigger] map@[j]).0@ == config.platforms@[j].name@
                    && platform_index(
                    config.platforms@,
                    config.platforms@[j].name@,
                    config.platforms@.len() as int,
                ) == Some(map@[j].1 as int),
        decreases config.platforms@.len() - i,
    {
        let name = config.platforms[i].name.clone();
        match get_platform_index(config, name.as_str()) {
            Some(index) => {
                map.push((name, index));
            },
            None => {
                proof {
                    lemma_named_platform_is_found(
                        config.platforms@,
                        i as int,
                        config.platforms@.len() as int,
                    );
                }
                map.push((name, i));
            },
        }
        i += 1;
    }
    map
}

/// A platform is found under its own name.
proof fn lemma_named_platform_is_found(platforms: Seq<Platform>, index: int, count: int)
    requires
        0 <= index < count <= platforms.len(),
    ensures
        platform_index(platforms, platforms[index].name@, count) is Some,
    decreases count,
{
    if platforms[count - 1].name@ != platforms[index].name@ {
        lemma_named_platform_is_found(platforms, index, count - 1);
    }
}

/// The flow that `alias` stands for, the last one with that alias, and the
/// index of the platform that the name of its platform stands for.
pub fn get_alias_to_flow_map_and_platform_index<'a>(config: &'a Config, alias: &str) -> (found:
    Option<(&'a Flow, usize)>)
    ensures
        match found {
            Some((flow, index)) => flow_and_platform(
                config.platforms@,
                alias@,
                config.platforms@.len() as int,
            ) == Some((*flow, index as int)),
            None => flow_and_platform(config.platforms@, alias@, config.platforms@.len() as int)
                is None,
        },
{
    let wanted = String::from_str(alias);
    let mut count: usize = config.platforms.len();
    while count > 0
        invariant
            count <= config.platforms@.len(),
            wanted@ == alias@,
            flow_and_platform(config.platforms@, alias@, config.platforms@.len() as int)
                == flow_and_platform(config.platforms@, alias@, count as int),
        decreases count,
    {
        count -= 1;
        let platform = &config.platforms[count];
        let mut flows: usize = platform.flows.len();
        while flows > 0
            invariant
                flows <= platform.flows@.len(),
                wanted@ == alias@,
                count < config.platforms@.len(),
                *platform == config.platforms@[count as int],
                flow_and_platform(config.platforms@, alias@, config.platforms@.len() as int)
                    == flow_and_platform(config.platforms@, alias@, count + 1),
                flow_aliased(platform.flows@, alias@, platform.flows@.len() as int)
                    == flow_aliased(platform.flows@, alias@, flows as int),
            decreases flows,
        {
            flows -= 1;
            if platform.flows[flows].alias == wanted {
                proof {
                    lemma_named_platform_is_found(
                        config.platforms@,
                        count as int,
                        config.platforms@.len() as int,
                    );
                }
                return match get_platform_index(config, platform.name.as_str()) {
                    Some(index) => Some((&platform.flows[flows], index)),
                    None => None,
                };
            }
        }
    }
    None
}

/// The lowest SDK version that `flow` says it needs; "1" where it says
/// nothing.
pub fn min_sdk(flow: &Flow) -> (version: String)
    ensures
        version@ == match flow.min_sdk_version {
            Some(stated) => stated@,
            None => "1"@,
        },
{
    match &flow.min_sdk_version {
        None => String::from_str("1"),
        Some(min_sdk) => min_sdk.clone(),
    }
}

} // verus!

//! Infers, for each flow of a project, the range of SDK versions it can run on.
//!
//! A flow is a script that calls into a versioned host SDK and may import other
//! modules. The range of a flow is what its own calls demand, narrowed by the
//! ranges of every module it depends on.

pub mod analysis;
pub mod bindings;
pub mod config;
mod consistency;
pub mod dependency_graph;
pub mod dependency_visitor;
pub mod graph;
pub mod has_call_to_function_visitor;
pub mod nodes;
pub mod require_path;
pub mod resources;
pub mod sdk_version;
pub mod serve;
pub mod utils;
pub mod version;
pub mod version_visitor;

//! The parser-plugin ABI and the daemon status record.
use crate::text::{chars_of, eq_lit};
use vstd::prelude::*;

verus! {

broadcast use vstd::string::group_string_axioms;

/// A parsed result returned by a WASM or native parser plugin.
#[derive(Clone, Debug, PartialEq, Eq)]
pub struct PluginResult {
    /// Plugin name.
    pub plugin: String,
    /// Number of nodes contributed by the plugin.
    pub nodes: usize,
}

/// The export names a parser plugin must provide.
pub open spec fn is_plugin_export(name: Seq<char>) -> bool {
    name == "apex_plugin_version"@ || name == "apex_parse"@ || name == "apex_free"@
}

/// Validates a plugin export name against the Apex ABI contract.
pub fn validate_export(name: &str) -> (r: bool)
    ensures
        r == is_plugin_export(name@),
{
    let v = chars_of(name);
    eq_lit(v.as_slice(), "apex_plugin_version") || eq_lit(v.as_slice(), "apex_parse") || eq_lit(
        v.as_slice(),
        "apex_free",
    )
}

/// Daemon status returned by the local development server.
#[derive(Clone, Debug, PartialEq, Eq)]
pub struct DaemonStatus {
    /// Workspace path being served.
    pub workspace: String,
    /// Number of parsed nodes currently available.
    pub nodes: usize,
}

} // verus!

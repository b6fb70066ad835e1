//! The MCP server's own rules: whether it may start, and what the settings
//! panel shows about it.
use vstd::prelude::*;

verus! {

/// What the settings panel shows about the MCP server.
#[derive(Debug, Clone, PartialEq, Eq)]
pub struct McpInfo {
    pub enabled: bool,
    pub binary_found: bool,
    /// JSON to paste into the configuration of an MCP client; `None` when
    /// the server binary was not found.
    pub config_snippet: Option<String>,
}

/// The message printed before the server exits when it is disabled.
pub open spec fn disabled_message() -> Seq<char> {
    "ramus-mcp è disabilitato (Impostazioni → MCP in Ramus). Riabilitalo per usare questo server."@
}

/// `None` when the server may start; otherwise the message to print on
/// standard error before exiting.
pub fn mcp_disabled_message(enabled: bool) -> (m: Option<&'static str>)
    ensures
        match m {
            None => enabled,
            Some(t) => !enabled && t@ == disabled_message(),
        },
{
    if enabled {
        None
    } else {
        Some("ramus-mcp è disabilitato (Impostazioni → MCP in Ramus). Riabilitalo per usare questo server.")
    }
}

} // verus!

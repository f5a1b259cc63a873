//! Agent tool-call events: what an observation stream hands the matcher.

use vstd::prelude::*;

pub mod claude;

use crate::symbols::Span;
use crate::tracking::ReadDepth;

verus! {

/// A parsed agent tool-call event. The event source derives the read depth
/// and the optional targeting (a symbol name path, or a line range) from the
/// raw tool invocation; `Stale` is never produced by an event source.
#[derive(Debug, Clone)]
pub struct AgentToolCall {
    pub agent_id: String,
    pub tool_name: String,
    pub file_path: Option<String>,
    pub read_depth: ReadDepth,
    pub description: String,
    pub timestamp_str: String,
    /// Full or partial name path of the targeted symbol, if any.
    pub target_symbol: Option<String>,
    /// Half-open line range the event targeted, if any.
    pub target_lines: Option<Span>,
}

} // verus!

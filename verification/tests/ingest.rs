//! Event-source helpers: session-file recognition, tool-call mapping, and
//! small display utilities.

use ambits::ingest::claude::{is_uuid, map_tool_call, short_path, ToolCallInput};
use ambits::parser::python::PythonParser;
use ambits::parser::rust::RustParser;
use ambits::parser::typescript::TypescriptParser;
use ambits::serena::{estimate_total_lines, lsp_kind_to_symbol_kind};
use ambits::symbols::merkle::content_hash;
use ambits::symbols::{Span, SymbolKind, SymbolNode};
use ambits::tracking::agents::{AgentNode, AgentTree};
use ambits::tracking::ReadDepth;
use ambits::ui::short_id;

fn empty_input() -> ToolCallInput {
    ToolCallInput {
        file_path: None,
        relative_path: None,
        notebook_path: None,
        path: None,
        pattern: None,
        substring_pattern: None,
        file_mask: None,
        name_path_pattern: None,
        name_path: None,
        include_body: None,
        offset: None,
        limit: None,
    }
}

#[test]
fn test_is_uuid() {
    assert!(is_uuid("c4d0275f-5c57-4192-962e-ada3c2efec60"));
    assert!(is_uuid("07f66211-6835-43d3-91d5-e3468d705fc5"));
    assert!(!is_uuid("agent-a09c164"));
    assert!(!is_uuid("sessions-index"));
    assert!(!is_uuid("not-a-uuid-at-all"));
    assert!(!is_uuid(""));
}

#[test]
fn test_parse_read_tool_call() {
    let mut input = empty_input();
    input.file_path = Some("/foo/bar/src/main.rs".to_string());
    let event = map_tool_call("mcp__acp__Read", &input, "abc-123", "t").unwrap();
    assert_eq!(event.read_depth, ReadDepth::FullBody);
    assert_eq!(event.file_path.as_deref(), Some("/foo/bar/src/main.rs"));
    assert_eq!(event.description, "Read src/main.rs");
}

#[test]
fn test_parse_grep_tool_call() {
    let mut input = empty_input();
    input.pattern = Some("AuthService".to_string());
    let event = map_tool_call("Grep", &input, "abc", "t").unwrap();
    assert_eq!(event.read_depth, ReadDepth::Overview);
    assert_eq!(event.file_path, None);
    assert_eq!(event.description, "Search \"AuthService\"");
}

#[test]
fn map_tool_call_depths() {
    let mut with_path = empty_input();
    with_path.file_path = Some("a/b.rs".to_string());
    assert_eq!(
        map_tool_call("Edit", &with_path, "a", "t").unwrap().read_depth,
        ReadDepth::FullBody
    );
    assert_eq!(
        map_tool_call("Write", &with_path, "a", "t").unwrap().read_depth,
        ReadDepth::FullBody
    );
    let glob = empty_input();
    assert_eq!(map_tool_call("Glob", &glob, "a", "t").unwrap().read_depth, ReadDepth::NameOnly);
    let mut fs = empty_input();
    fs.name_path_pattern = Some("x".to_string());
    assert_eq!(
        map_tool_call("mcp__serena__find_symbol", &fs, "a", "t").unwrap().read_depth,
        ReadDepth::Signature
    );
    fs.include_body = Some(true);
    assert_eq!(
        map_tool_call("mcp__serena__find_symbol", &fs, "a", "t").unwrap().read_depth,
        ReadDepth::FullBody
    );
    assert_eq!(
        map_tool_call("mcp__serena__find_referencing_symbols", &fs, "a", "t").unwrap().read_depth,
        ReadDepth::Overview
    );
}

#[test]
fn map_tool_call_untracked_or_missing_path() {
    let input = empty_input();
    assert!(map_tool_call("TodoWrite", &input, "a", "t").is_none());
    // A Read without any path yields nothing.
    assert!(map_tool_call("Read", &input, "a", "t").is_none());
}

#[test]
fn map_tool_call_read_line_range() {
    let mut input = empty_input();
    input.file_path = Some("f.rs".to_string());
    input.offset = Some(10);
    input.limit = Some(20);
    let event = map_tool_call("Read", &input, "a", "t").unwrap();
    assert_eq!(event.target_lines, Some(Span { start: 10, end: 30 }));
}

#[test]
fn short_path_keeps_last_two_segments() {
    assert_eq!(short_path("/foo/bar/src/main.rs"), "src/main.rs");
    assert_eq!(short_path("main.rs"), "main.rs");
    assert_eq!(short_path(""), "");
}

#[test]
fn short_id_truncates() {
    assert_eq!(short_id("abcdefghijklmnop"), "abcdefghijkl");
    assert_eq!(short_id("short"), "short");
    assert_eq!(short_id("exactly12chr"), "exactly12chr");
}

#[test]
fn extensions_returns_ts() {
    let parser = TypescriptParser::new();
    assert_eq!(parser.extensions(), vec!["ts".to_string()]);
}

#[test]
fn extensions_of_other_parsers() {
    assert_eq!(RustParser::new().extensions(), vec!["rs".to_string()]);
    assert_eq!(PythonParser::new().extensions(), vec!["py".to_string()]);
}

#[test]
fn lsp_kind_mapping() {
    assert_eq!(lsp_kind_to_symbol_kind(12), SymbolKind::Function);
    assert_eq!(lsp_kind_to_symbol_kind(5), SymbolKind::Struct);
    assert_eq!(lsp_kind_to_symbol_kind(6), SymbolKind::Method);
    assert_eq!(lsp_kind_to_symbol_kind(11), SymbolKind::Trait);
    assert_eq!(lsp_kind_to_symbol_kind(999), SymbolKind::Function);
}

#[test]
fn estimate_total_lines_takes_max() {
    let mk = |end: usize| SymbolNode {
        id: "f.rs::x".to_string(),
        name: "x".to_string(),
        kind: SymbolKind::Function,
        label: "fn".to_string(),
        file_path: String::new(),
        byte_range: Span { start: 0, end: 1 },
        line_range: Span { start: 1, end },
        content_hash: content_hash("x"),
        merkle_hash: Vec::new(),
        children: Vec::new(),
        estimated_tokens: 1,
    };
    assert_eq!(estimate_total_lines(&vec![mk(4), mk(17), mk(9)]), 17);
    assert_eq!(estimate_total_lines(&Vec::new()), 0);
}

#[test]
fn agent_tree_tracks_children() {
    let mut tree = AgentTree::new();
    tree.add_agent(AgentNode {
        id: "root".to_string(),
        parent_id: None,
        session_file: "root.jsonl".to_string(),
        label: "main".to_string(),
    });
    tree.add_agent(AgentNode {
        id: "agent-1".to_string(),
        parent_id: Some("root".to_string()),
        session_file: "a1.jsonl".to_string(),
        label: "sub".to_string(),
    });
    tree.add_agent(AgentNode {
        id: "agent-2".to_string(),
        parent_id: Some("root".to_string()),
        session_file: "a2.jsonl".to_string(),
        label: "sub".to_string(),
    });
    assert_eq!(tree.root_id.as_deref(), Some("root"));
    let kids = tree.children_of("root");
    assert_eq!(kids.len(), 2);
    assert_eq!(kids[0].id, "agent-1");
    assert_eq!(kids[1].id, "agent-2");
    assert_eq!(tree.children_of("agent-1").len(), 0);
}

#[test]
fn map_tool_call_notebook_edit() {
    let mut input = empty_input();
    input.notebook_path = Some("nb/analysis.ipynb".to_string());
    let event = map_tool_call("NotebookEdit", &input, "a", "t").unwrap();
    assert_eq!(event.read_depth, ReadDepth::FullBody);
    assert_eq!(event.file_path.as_deref(), Some("nb/analysis.ipynb"));
    assert_eq!(event.description, "NotebookEdit nb/analysis.ipynb");
}

#[test]
fn map_tool_call_glob_defaults() {
    let input = empty_input();
    let event = map_tool_call("Glob", &input, "a", "t").unwrap();
    assert_eq!(event.description, "Glob *");
    assert_eq!(event.file_path, None);
    assert_eq!(event.target_symbol, None);
}

#[test]
fn map_tool_call_symbol_edit_targets() {
    let mut input = empty_input();
    input.name_path = Some("App/handle_key".to_string());
    input.relative_path = Some("src/app.rs".to_string());
    let event = map_tool_call("mcp__serena__replace_symbol_body", &input, "a", "t").unwrap();
    assert_eq!(event.read_depth, ReadDepth::FullBody);
    assert_eq!(event.target_symbol.as_deref(), Some("App/handle_key"));
    assert_eq!(event.file_path.as_deref(), Some("src/app.rs"));
    assert_eq!(event.description, "ReplaceSymbol App/handle_key");
}

//! Matcher and ledger behaviour: marking, targeting, upgrades, staleness.

use ambits::app::{mark_file_symbols, mark_targeted_symbols, normalize_tool_path, process_agent_event, symbol_matches_target};
use ambits::coverage::{count_symbols, coverage_status_from_counts, FileCoverageStatus};
use ambits::ingest::AgentToolCall;
use ambits::symbols::merkle::content_hash;
use ambits::symbols::{FileSymbols, ProjectTree, Span, SymbolKind, SymbolNode};
use ambits::tracking::{ContextLedger, ReadDepth};

fn sym(id: &str, name: &str) -> SymbolNode {
    let hash = content_hash(name);
    SymbolNode {
        id: id.to_string(),
        name: name.to_string(),
        kind: SymbolKind::Function,
        label: "fn".to_string(),
        file_path: String::new(),
        byte_range: Span { start: 0, end: 100 },
        line_range: Span { start: 1, end: 10 },
        content_hash: hash.clone(),
        merkle_hash: hash,
        children: Vec::new(),
        estimated_tokens: 30,
    }
}

fn sym_with_children(id: &str, name: &str, children: Vec<SymbolNode>) -> SymbolNode {
    let mut s = sym(id, name);
    s.children = children;
    s
}

fn sym_with_lines(id: &str, name: &str, start: usize, end: usize) -> SymbolNode {
    let mut s = sym(id, name);
    s.line_range = Span { start, end };
    s
}

fn file(path: &str, symbols: Vec<SymbolNode>) -> FileSymbols {
    let symbols = symbols
        .into_iter()
        .map(|mut s| {
            s.file_path = path.to_string();
            s
        })
        .collect();
    FileSymbols {
        file_path: path.to_string(),
        symbols,
        total_lines: 100,
    }
}

fn project(files: Vec<FileSymbols>) -> ProjectTree {
    ProjectTree {
        root: "/test/project".to_string(),
        files,
    }
}

fn tool_call(tool: &str, path: &str, depth: ReadDepth) -> AgentToolCall {
    AgentToolCall {
        agent_id: "agent-1".to_string(),
        tool_name: tool.to_string(),
        file_path: Some(path.to_string()),
        read_depth: depth,
        description: format!("{tool} {path}"),
        timestamp_str: "2025-01-01T00:00:00Z".to_string(),
        target_symbol: None,
        target_lines: None,
    }
}

fn tool_call_targeted(tool: &str, path: &str, depth: ReadDepth, symbol: &str) -> AgentToolCall {
    let mut tc = tool_call(tool, path, depth);
    tc.target_symbol = Some(symbol.to_string());
    tc
}

fn tool_call_lines(tool: &str, path: &str, depth: ReadDepth, start: usize, end: usize) -> AgentToolCall {
    let mut tc = tool_call(tool, path, depth);
    tc.target_lines = Some(Span { start, end });
    tc
}

#[test]
fn normalize_tool_path_absolute() {
    let result = normalize_tool_path("/project/src/main.rs", "/project");
    assert_eq!(result, "src/main.rs".to_string());
}

#[test]
fn normalize_tool_path_relative() {
    let result = normalize_tool_path("src/main.rs", "/project");
    assert_eq!(result, "src/main.rs".to_string());
}

#[test]
fn mark_file_symbols_recursive() {
    let child = sym("mock/f.rs::child", "child");
    let parent = sym_with_children("mock/f.rs::parent", "parent", vec![child]);
    let event = tool_call("Read", "mock/f.rs", ReadDepth::FullBody);
    let mut ledger = ContextLedger::new();

    mark_file_symbols(&vec![parent], &event, &mut ledger);

    assert_eq!(ledger.depth_of("mock/f.rs::parent"), ReadDepth::FullBody);
    assert_eq!(ledger.depth_of("mock/f.rs::child"), ReadDepth::FullBody);
}

#[test]
fn mark_targeted_by_name() {
    let s1 = sym("mock/f.rs::alpha", "alpha");
    let s2 = sym("mock/f.rs::beta", "beta");
    let event = tool_call_targeted("find_symbol", "mock/f.rs", ReadDepth::FullBody, "beta");
    let mut ledger = ContextLedger::new();

    mark_targeted_symbols(&vec![s1, s2], &event, &mut ledger);

    assert_eq!(ledger.depth_of("mock/f.rs::alpha"), ReadDepth::Unseen);
    assert_eq!(ledger.depth_of("mock/f.rs::beta"), ReadDepth::FullBody);
}

#[test]
fn mark_targeted_by_lines() {
    let s1 = sym_with_lines("mock/f.rs::a", "a", 1, 5);
    let s2 = sym_with_lines("mock/f.rs::b", "b", 10, 20);
    let event = tool_call_lines("Read", "mock/f.rs", ReadDepth::FullBody, 12, 18);
    let mut ledger = ContextLedger::new();

    mark_targeted_symbols(&vec![s1, s2], &event, &mut ledger);

    assert_eq!(ledger.depth_of("mock/f.rs::a"), ReadDepth::Unseen);
    assert_eq!(ledger.depth_of("mock/f.rs::b"), ReadDepth::FullBody);
}

#[test]
fn coverage_status_from_counts_variants() {
    let mut ledger = ContextLedger::new();
    let syms = vec![sym("s1", "s1"), sym("s2", "s2")];

    // No coverage.
    let (total, seen, full) = count_symbols(&syms, &ledger);
    assert_eq!(coverage_status_from_counts(total, seen, full), FileCoverageStatus::NotCovered);

    // Partial: one seen, one unseen.
    ledger.record("s1".into(), ReadDepth::NameOnly, vec![0u8; 32], "ag".into(), 10);
    let (total, seen, full) = count_symbols(&syms, &ledger);
    assert_eq!(coverage_status_from_counts(total, seen, full), FileCoverageStatus::PartiallyCovered);

    // All seen (both NameOnly) but none FullBody.
    ledger.record("s2".into(), ReadDepth::NameOnly, vec![0u8; 32], "ag".into(), 10);
    let (total, seen, full) = count_symbols(&syms, &ledger);
    assert_eq!(coverage_status_from_counts(total, seen, full), FileCoverageStatus::AllSeen);

    // One FullBody, one NameOnly: all seen, not all full.
    ledger.record("s1".into(), ReadDepth::FullBody, vec![0u8; 32], "ag".into(), 10);
    let (total, seen, full) = count_symbols(&syms, &ledger);
    assert_eq!(coverage_status_from_counts(total, seen, full), FileCoverageStatus::AllSeen);

    // Full: both FullBody.
    ledger.record("s2".into(), ReadDepth::FullBody, vec![0u8; 32], "ag".into(), 10);
    let (total, seen, full) = count_symbols(&syms, &ledger);
    assert_eq!(coverage_status_from_counts(total, seen, full), FileCoverageStatus::FullyCovered);

    // Direct FullBody with unseen siblings: partially covered.
    assert_eq!(coverage_status_from_counts(3, 1, 1), FileCoverageStatus::PartiallyCovered);
}

#[test]
fn symbol_matches_target_formats() {
    // Plain name match.
    let s = sym("mock/app.rs::App/handle_key", "handle_key");
    let event = tool_call_targeted("find_symbol", "mock/app.rs", ReadDepth::FullBody, "handle_key");
    assert!(symbol_matches_target(&s, &event));

    // Name path suffix match.
    let event2 = tool_call_targeted("find_symbol", "mock/app.rs", ReadDepth::FullBody, "App/handle_key");
    assert!(symbol_matches_target(&s, &event2));

    // Non-match.
    let event3 = tool_call_targeted("find_symbol", "mock/app.rs", ReadDepth::FullBody, "other_fn");
    assert!(!symbol_matches_target(&s, &event3));
}

#[test]
fn overlap_is_strict_on_touching_ranges() {
    let s = sym_with_lines("mock/f.rs::spanning", "spanning", 10, 20);
    let touching = tool_call_lines("Read", "mock/f.rs", ReadDepth::FullBody, 20, 30);
    assert!(!symbol_matches_target(&s, &touching));
    let inside = tool_call_lines("Read", "mock/f.rs", ReadDepth::FullBody, 12, 18);
    assert!(symbol_matches_target(&s, &inside));
    let straddling = tool_call_lines("Read", "mock/f.rs", ReadDepth::FullBody, 5, 15);
    assert!(symbol_matches_target(&s, &straddling));
}

#[test]
fn cascade_records_descendants_of_matched_container() {
    let leaf = sym("mock/f.rs::App/handle_key/inner", "inner");
    let method = sym_with_children("mock/f.rs::App/handle_key", "handle_key", vec![leaf]);
    let container = sym_with_children("mock/f.rs::App", "App", vec![method]);
    let event = tool_call_targeted("find_symbol", "mock/f.rs", ReadDepth::Signature, "App");
    let mut ledger = ContextLedger::new();

    mark_targeted_symbols(&vec![container], &event, &mut ledger);

    assert_eq!(ledger.depth_of("mock/f.rs::App"), ReadDepth::Signature);
    assert_eq!(ledger.depth_of("mock/f.rs::App/handle_key"), ReadDepth::Signature);
    assert_eq!(ledger.depth_of("mock/f.rs::App/handle_key/inner"), ReadDepth::Signature);
}

#[test]
fn record_is_monotonic_over_depths() {
    let mut ledger = ContextLedger::new();
    let depths = [
        ReadDepth::NameOnly,
        ReadDepth::FullBody,
        ReadDepth::Overview,
        ReadDepth::Signature,
        ReadDepth::NameOnly,
    ];
    for d in depths {
        ledger.record("x".into(), d, vec![0u8; 32], "ag".into(), 1);
    }
    assert_eq!(ledger.depth_of("x"), ReadDepth::FullBody);
}

#[test]
fn stale_record_always_applies() {
    let mut ledger = ContextLedger::new();
    ledger.record("x".into(), ReadDepth::FullBody, vec![0u8; 32], "ag".into(), 1);
    ledger.record("x".into(), ReadDepth::Stale, vec![1u8; 32], "ag".into(), 1);
    assert_eq!(ledger.depth_of("x"), ReadDepth::Stale);
    // Stale is sticky: a later plain read does not clear it.
    ledger.record("x".into(), ReadDepth::FullBody, vec![2u8; 32], "ag".into(), 1);
    assert_eq!(ledger.depth_of("x"), ReadDepth::Stale);
}

#[test]
fn seen_vs_full_counts() {
    let syms = vec![sym("a", "a"), sym("b", "b"), sym("c", "c")];
    let mut ledger = ContextLedger::new();
    for s in &syms {
        ledger.record(s.id.clone(), ReadDepth::FullBody, s.content_hash.clone(), "ag".into(), 1);
    }
    assert_eq!(count_symbols(&syms, &ledger), (3, 3, 3));

    // Record one at NameOnly instead: depth cannot drop, so use a fresh ledger.
    let mut ledger2 = ContextLedger::new();
    ledger2.record("a".into(), ReadDepth::NameOnly, vec![0u8; 32], "ag".into(), 1);
    ledger2.record("b".into(), ReadDepth::FullBody, vec![0u8; 32], "ag".into(), 1);
    ledger2.record("c".into(), ReadDepth::FullBody, vec![0u8; 32], "ag".into(), 1);
    assert_eq!(count_symbols(&syms, &ledger2), (3, 3, 2));
}

#[test]
fn process_agent_event_updates_ledger() {
    let syms = vec![sym("mock/f.rs::alpha", "alpha"), sym("mock/f.rs::beta", "beta")];
    let tree = project(vec![file("mock/f.rs", syms)]);
    let mut ledger = ContextLedger::new();

    let event = tool_call("Read", "/test/project/mock/f.rs", ReadDepth::FullBody);
    process_agent_event(&tree, &mut ledger, &event);

    assert_eq!(ledger.depth_of("mock/f.rs::alpha"), ReadDepth::FullBody);
    assert_eq!(ledger.depth_of("mock/f.rs::beta"), ReadDepth::FullBody);
}

#[test]
fn process_agent_event_targeted() {
    let syms = vec![sym("mock/f.rs::alpha", "alpha"), sym("mock/f.rs::beta", "beta")];
    let tree = project(vec![file("mock/f.rs", syms)]);
    let mut ledger = ContextLedger::new();

    let event = tool_call_targeted("find_symbol", "/test/project/mock/f.rs", ReadDepth::FullBody, "beta");
    process_agent_event(&tree, &mut ledger, &event);

    assert_eq!(ledger.depth_of("mock/f.rs::alpha"), ReadDepth::Unseen);
    assert_eq!(ledger.depth_of("mock/f.rs::beta"), ReadDepth::FullBody);
}

#[test]
fn depth_upgrade_invariant() {
    let tree = project(vec![file("mock/f.rs", vec![sym("mock/f.rs::x", "x")])]);
    let mut ledger = ContextLedger::new();

    // Grep does not target a file, so only the Read sets depth; the second
    // grep must not downgrade it.
    let grep = AgentToolCall {
        agent_id: "s1".into(),
        tool_name: "Grep".into(),
        file_path: None,
        read_depth: ReadDepth::Overview,
        description: "Search \"pattern\"".into(),
        timestamp_str: "2025-01-01T00:00:00Z".into(),
        target_symbol: None,
        target_lines: None,
    };
    process_agent_event(&tree, &mut ledger, &grep);
    let read = tool_call("Read", "/test/project/mock/f.rs", ReadDepth::FullBody);
    process_agent_event(&tree, &mut ledger, &read);
    process_agent_event(&tree, &mut ledger, &grep);

    assert_eq!(ledger.depth_of("mock/f.rs::x"), ReadDepth::FullBody);
}

#[test]
fn reconcile_marks_changed_symbol_stale() {
    let mut old_a = sym("mock/f.rs::a", "a");
    old_a.content_hash = content_hash("version1");
    let mut ledger = ContextLedger::new();
    ledger.record("mock/f.rs::a".into(), ReadDepth::FullBody, content_hash("version1"), "ag".into(), 1);

    let mut new_a = sym("mock/f.rs::a", "a");
    new_a.content_hash = content_hash("version2");
    let new_b = sym("mock/f.rs::b", "b");

    ambits::reconcile::mark_stale_symbols(&vec![old_a], &vec![new_a, new_b], &mut ledger);

    assert_eq!(ledger.depth_of("mock/f.rs::a"), ReadDepth::Stale);
    // The brand-new symbol stays unseen.
    assert_eq!(ledger.depth_of("mock/f.rs::b"), ReadDepth::Unseen);
}

#[test]
fn reconcile_leaves_unchanged_symbol_alone() {
    let mut old_a = sym("mock/f.rs::a", "a");
    old_a.content_hash = content_hash("same");
    let mut ledger = ContextLedger::new();
    ledger.record("mock/f.rs::a".into(), ReadDepth::FullBody, content_hash("same"), "ag".into(), 1);

    let mut new_a = sym("mock/f.rs::a", "a");
    new_a.content_hash = content_hash("same");

    ambits::reconcile::mark_stale_symbols(&vec![old_a], &vec![new_a], &mut ledger);
    assert_eq!(ledger.depth_of("mock/f.rs::a"), ReadDepth::FullBody);
}

#[test]
fn total_seen_and_count_by_depth() {
    let mut ledger = ContextLedger::new();
    ledger.record("a".into(), ReadDepth::NameOnly, vec![0u8; 32], "ag".into(), 1);
    ledger.record("b".into(), ReadDepth::FullBody, vec![0u8; 32], "ag".into(), 1);
    ledger.record("c".into(), ReadDepth::FullBody, vec![0u8; 32], "ag".into(), 1);
    assert_eq!(ledger.total_seen(), 3);
    let counts = ledger.count_by_depth();
    assert_eq!(counts.name_only, 1);
    assert_eq!(counts.full_body, 2);
    assert_eq!(counts.unseen, 0);
    assert_eq!(counts.stale, 0);
}

#[test]
fn normalize_tool_path_root_itself() {
    assert_eq!(normalize_tool_path("/project", "/project"), "".to_string());
    assert_eq!(normalize_tool_path("/other/src/x.rs", "/project"), "/other/src/x.rs".to_string());
}

#[test]
fn targeted_event_with_no_match_writes_nothing() {
    let syms = vec![sym("mock/f.rs::alpha", "alpha")];
    let event = tool_call_targeted("find_symbol", "mock/f.rs", ReadDepth::FullBody, "missing");
    let mut ledger = ContextLedger::new();
    mark_targeted_symbols(&syms, &event, &mut ledger);
    assert_eq!(ledger.depth_of("mock/f.rs::alpha"), ReadDepth::Unseen);
    assert_eq!(ledger.total_seen(), 0);
}

//! Coverage reports: counts, percentages, sort order, formatting, and the
//! tree-view rows.

use ambits::app::{build_tree_rows, SortMode};
use ambits::coverage::{CoverageFormatter, CoverageReport, FileCoverage, TextFormatter};
use ambits::symbols::merkle::content_hash;
use ambits::symbols::{FileSymbols, ProjectTree, Span, SymbolKind, SymbolNode};
use ambits::tracking::{ContextLedger, ReadDepth};

fn sym(id: &str, name: &str) -> SymbolNode {
    let hash = content_hash(name);
    SymbolNode {
        id: id.to_string(),
        name: name.to_string(),
        kind: SymbolKind::Function,
        label: "fn".to_string(),
        file_path: String::new(),
        byte_range: Span { start: 0, end: 100 },
        line_range: Span { start: 1, end: 10 },
        content_hash: hash.clone(),
        merkle_hash: hash,
        children: Vec::new(),
        estimated_tokens: 30,
    }
}

fn file(path: &str, symbols: Vec<SymbolNode>) -> FileSymbols {
    let symbols = symbols
        .into_iter()
        .map(|mut s| {
            s.file_path = path.to_string();
            s
        })
        .collect();
    FileSymbols {
        file_path: path.to_string(),
        symbols,
        total_lines: 100,
    }
}

fn project(files: Vec<FileSymbols>) -> ProjectTree {
    ProjectTree {
        root: "/test/project".to_string(),
        files,
    }
}

#[test]
fn coverage_sort_order() {
    let files = vec![
        file("mock/a.rs", vec![sym("mock/a.rs::a1", "a1"), sym("mock/a.rs::a2", "a2")]),
        file("mock/b.rs", vec![sym("mock/b.rs::b1", "b1"), sym("mock/b.rs::b2", "b2")]),
        file("mock/c.rs", vec![sym("mock/c.rs::c1", "c1")]),
    ];
    let tree = project(files);
    let mut ledger = ContextLedger::new();

    // mock/b.rs: 50% (1 of 2 full); mock/c.rs: 100%; mock/a.rs: 0%.
    ledger.record("mock/b.rs::b1".into(), ReadDepth::FullBody, vec![0u8; 32], "ag".into(), 10);
    ledger.record("mock/c.rs::c1".into(), ReadDepth::FullBody, vec![0u8; 32], "ag".into(), 10);

    let report = CoverageReport::from_project(&tree, &ledger);
    let paths: Vec<&str> = report.files.iter().map(|f| f.path.as_str()).collect();
    assert_eq!(paths, vec!["mock/a.rs", "mock/b.rs", "mock/c.rs"]);
}

#[test]
fn full_pipeline_read() {
    let files = vec![
        file(
            "mock/file_a.rs",
            vec![sym("mock/file_a.rs::foo", "foo"), sym("mock/file_a.rs::bar", "bar")],
        ),
        file("mock/file_b.rs", vec![sym("mock/file_b.rs::baz", "baz")]),
    ];
    let tree = project(files);
    let mut ledger = ContextLedger::new();

    // A Read event with an absolute path gets normalized against the root.
    let input = ambits::ingest::claude::ToolCallInput {
        file_path: Some("/test/project/mock/file_a.rs".to_string()),
        relative_path: None,
        notebook_path: None,
        path: None,
        pattern: None,
        substring_pattern: None,
        file_mask: None,
        name_path_pattern: None,
        name_path: None,
        include_body: None,
        offset: None,
        limit: None,
    };
    let event = ambits::ingest::claude::map_tool_call("mcp__acp__Read", &input, "s1", "2025-01-01T00:00:00Z")
        .expect("Read with a path maps to an event");
    assert_eq!(event.read_depth, ReadDepth::FullBody);
    ambits::app::process_agent_event(&tree, &mut ledger, &event);

    let report = CoverageReport::from_project(&tree, &ledger);
    let fa = report.files.iter().find(|f| f.path == "mock/file_a.rs").unwrap();
    assert_eq!(fa.full_count, 2);
    assert_eq!(fa.full_percent(), 100);

    let fb = report.files.iter().find(|f| f.path == "mock/file_b.rs").unwrap();
    assert_eq!(fb.full_count, 0);
    assert_eq!(fb.full_percent(), 0);
}

#[test]
fn targeted_symbol_partial() {
    let files = vec![
        file("mock/f.rs", vec![sym("mock/f.rs::alpha", "alpha"), sym("mock/f.rs::beta", "beta")]),
    ];
    let tree = project(files);
    let mut ledger = ContextLedger::new();

    let input = ambits::ingest::claude::ToolCallInput {
        file_path: None,
        relative_path: Some("mock/f.rs".to_string()),
        notebook_path: None,
        path: None,
        pattern: None,
        substring_pattern: None,
        file_mask: None,
        name_path_pattern: Some("beta".to_string()),
        name_path: None,
        include_body: Some(true),
        offset: None,
        limit: None,
    };
    let event = ambits::ingest::claude::map_tool_call("mcp__serena__find_symbol", &input, "s1", "t")
        .expect("find_symbol maps to an event");
    ambits::app::process_agent_event(&tree, &mut ledger, &event);

    assert_eq!(ledger.depth_of("mock/f.rs::alpha"), ReadDepth::Unseen);
    assert_eq!(ledger.depth_of("mock/f.rs::beta"), ReadDepth::FullBody);

    let report = CoverageReport::from_project(&tree, &ledger);
    let f = report.files.iter().find(|f| f.path == "mock/f.rs").unwrap();
    assert_eq!(f.seen_count, 1);
    assert_eq!(f.full_count, 1);
    assert_eq!(f.total_symbols, 2);
}

#[test]
fn stale_detection() {
    let mut ledger = ContextLedger::new();
    let h1 = content_hash("version1");
    let h2 = content_hash("version2");

    ledger.record("s1".into(), ReadDepth::FullBody, h1, "ag".into(), 10);
    assert_eq!(ledger.depth_of("s1"), ReadDepth::FullBody);

    // Content changed: mark stale.
    ledger.mark_stale_if_changed("s1", &h2);
    assert_eq!(ledger.depth_of("s1"), ReadDepth::Stale);

    // Stale still counts as seen in coverage, but never as full.
    let s = sym("s1", "s1");
    let (total, seen, full) = ambits::coverage::count_symbols(&vec![s], &ledger);
    assert_eq!(total, 1);
    assert_eq!(seen, 1);
    assert_eq!(full, 0);
}

#[test]
fn text_formatter_structure() {
    let files = vec![file("mock/main.rs", vec![sym("mock/main.rs::main", "main")])];
    let tree = project(files);
    let mut ledger = ContextLedger::new();
    ledger.record("mock/main.rs::main".into(), ReadDepth::FullBody, vec![0u8; 32], "ag".into(), 10);

    let mut report = CoverageReport::from_project(&tree, &ledger);
    report.session_id = Some("test-session-123".into());

    let formatter = TextFormatter::default();
    let output = CoverageFormatter::format(&formatter, &report);

    assert!(output.contains("test-session-123"), "should contain session id");
    assert!(output.contains("File"), "should contain header");
    assert!(output.contains("Symbols"), "should contain header");
    assert!(output.contains("mock/main.rs"), "should contain file path");
    assert!(output.contains("TOTAL"), "should contain total row");
    assert!(output.contains("100%"), "should show 100% for full coverage");
}

#[test]
fn percent_rounds_down_and_handles_empty() {
    let row = FileCoverage {
        path: "x.rs".into(),
        total_symbols: 3,
        seen_count: 2,
        full_count: 1,
    };
    assert_eq!(row.seen_percent(), 66);
    assert_eq!(row.full_percent(), 33);
    let empty = FileCoverage {
        path: "y.rs".into(),
        total_symbols: 0,
        seen_count: 0,
        full_count: 0,
    };
    assert_eq!(empty.seen_percent(), 0);
    assert_eq!(empty.full_percent(), 0);
}

#[test]
fn report_totals_sum_over_files() {
    let report = CoverageReport {
        session_id: None,
        files: vec![
            FileCoverage { path: "a".into(), total_symbols: 2, seen_count: 1, full_count: 0 },
            FileCoverage { path: "b".into(), total_symbols: 3, seen_count: 3, full_count: 2 },
        ],
    };
    assert_eq!(report.total_symbols(), 5);
    assert_eq!(report.total_seen(), 4);
    assert_eq!(report.total_full(), 2);
}

#[test]
fn rebuild_tree_rows_alphabetical() {
    let tree = project(vec![
        file("mock/a.rs", vec![sym("mock/a.rs::a", "a")]),
        file("mock/z.rs", vec![sym("mock/z.rs::z", "z")]),
    ]);
    let ledger = ContextLedger::new();
    // All files start collapsed, as the application does.
    let collapsed = vec!["mock/a.rs".to_string(), "mock/z.rs".to_string()];
    let rows = build_tree_rows(&tree, &ledger, &collapsed, SortMode::Alphabetical);
    let file_rows: Vec<&str> = rows
        .iter()
        .filter(|r| r.is_file)
        .map(|r| r.display_name.as_str())
        .collect();
    assert_eq!(file_rows, vec!["mock/a.rs", "mock/z.rs"]);
}

#[test]
fn rebuild_tree_rows_by_coverage() {
    let tree = project(vec![
        file("mock/a.rs", vec![sym("mock/a.rs::x", "x")]),
        file("mock/b.rs", vec![sym("mock/b.rs::y", "y")]),
    ]);
    let mut ledger = ContextLedger::new();
    // Covered files sort before uncovered ones.
    ledger.record("mock/a.rs::x".into(), ReadDepth::FullBody, vec![0u8; 32], "ag".into(), 10);
    let collapsed = vec!["mock/a.rs".to_string(), "mock/b.rs".to_string()];
    let rows = build_tree_rows(&tree, &ledger, &collapsed, SortMode::ByCoverage);
    let file_rows: Vec<&str> = rows
        .iter()
        .filter(|r| r.is_file)
        .map(|r| r.display_name.as_str())
        .collect();
    assert_eq!(file_rows, vec!["mock/a.rs", "mock/b.rs"]);
}

#[test]
fn tree_rows_expand_symbols() {
    let tree = project(vec![file("mock/a.rs", vec![sym("mock/a.rs::alpha", "alpha")])]);
    let ledger = ContextLedger::new();
    // Nothing collapsed: the symbol row appears under its file.
    let rows = build_tree_rows(&tree, &ledger, &Vec::new(), SortMode::Alphabetical);
    assert_eq!(rows.len(), 2);
    assert!(rows[0].is_file);
    assert_eq!(rows[1].display_name, "alpha");
    assert_eq!(rows[1].line_range, "L1-10");
    assert_eq!(rows[0].line_range, "100 lines");
}

#[test]
fn text_formatter_empty_report() {
    let formatter = TextFormatter::default();
    let report = CoverageReport { session_id: None, files: Vec::new() };
    let output = formatter.format(&report);
    assert!(output.contains("Coverage Report (session: none)"));
    assert!(output.contains("TOTAL"));
}

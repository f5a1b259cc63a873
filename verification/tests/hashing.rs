//! Content hashing, normalization, token estimation, and Merkle hashes.

use ambits::symbols::merkle::{compute_merkle_hash, content_hash, estimate_tokens, normalize_source};
use ambits::symbols::{Span, SymbolKind, SymbolNode};

fn sym_with_text(id: &str, text: &str) -> SymbolNode {
    SymbolNode {
        id: id.to_string(),
        name: id.to_string(),
        kind: SymbolKind::Function,
        label: "fn".to_string(),
        file_path: String::new(),
        byte_range: Span { start: 0, end: text.len() },
        line_range: Span { start: 1, end: 2 },
        content_hash: content_hash(text),
        merkle_hash: Vec::new(),
        children: Vec::new(),
        estimated_tokens: estimate_tokens(text),
    }
}

#[test]
fn test_normalize_collapses_whitespace() {
    let input = "fn  foo(\n    x: i32,\n    y: i32\n) -> i32 {\n    x + y\n}";
    let normalized = normalize_source(input);
    assert_eq!(normalized, "fn foo( x: i32, y: i32 ) -> i32 { x + y }");
}

#[test]
fn test_content_hash_deterministic() {
    let h1 = content_hash("fn foo() {}");
    let h2 = content_hash("fn foo() {}");
    assert_eq!(h1, h2);
}

#[test]
fn test_content_hash_whitespace_insensitive() {
    let h1 = content_hash("fn foo() { }");
    let h2 = content_hash("fn  foo()  {  }");
    assert_eq!(h1, h2);
}

#[test]
fn test_content_hash_detects_changes() {
    let h1 = content_hash("fn foo() {}");
    let h2 = content_hash("fn bar() {}");
    assert_ne!(h1, h2);
}

#[test]
fn test_content_hash_is_a_real_digest() {
    // 32 bytes whatever the input length, and not the input itself.
    let h = content_hash("ab");
    assert_eq!(h.len(), 32);
    assert_ne!(h, "ab".as_bytes().to_vec());
}

#[test]
fn test_estimate_tokens() {
    // "fn foo() {}" is 11 bytes; 11 / 3.5 rounded up is 4.
    assert_eq!(estimate_tokens("fn foo() {}"), 4);
}

#[test]
fn test_estimate_tokens_empty() {
    assert_eq!(estimate_tokens(""), 0);
}

#[test]
fn merkle_changes_propagate_to_ancestors_not_siblings() {
    let leaf_a = sym_with_text("f.rs::p/a", "fn a() {}");
    let leaf_b = sym_with_text("f.rs::p/b", "fn b() {}");
    let mut parent = sym_with_text("f.rs::p", "mod p");
    parent.children = vec![leaf_a, leaf_b];
    let mut root = parent;
    compute_merkle_hash(&mut root);
    let root_hash_before = root.merkle_hash.clone();
    let sibling_hash_before = root.children[1].merkle_hash.clone();

    // Change the first leaf's text and recompute bottom-up.
    root.children[0].content_hash = content_hash("fn a() { changed(); }");
    compute_merkle_hash(&mut root);

    assert_ne!(root.merkle_hash, root_hash_before, "ancestor hash must change");
    assert_eq!(
        root.children[1].merkle_hash, sibling_hash_before,
        "sibling hash must not change"
    );
}

#[test]
fn merkle_differs_from_content_hash_for_parents() {
    let leaf = sym_with_text("f.rs::p/a", "fn a() {}");
    let mut parent = sym_with_text("f.rs::p", "mod p");
    parent.children = vec![leaf];
    compute_merkle_hash(&mut parent);
    assert_eq!(parent.merkle_hash.len(), 32);
    assert_ne!(parent.merkle_hash, parent.content_hash);
}

//! Pure pieces of the language-server symbol-cache reader: line estimation
//! and the mapping from LSP symbol kinds to this crate's symbol kinds.

use vstd::prelude::*;

use crate::symbols::{SymbolKind, SymbolNode};

verus! {

/// The largest ending line among the top-level symbols (0 with none): a
/// lower bound used as the file's line count when no source is available.
pub open spec fn spec_max_end_line(nodes: Seq<SymbolNode>) -> nat
    decreases nodes.len(),
{
    if nodes.len() == 0 {
        0
    } else if nodes.last().line_range.end >= spec_max_end_line(nodes.drop_last()) {
        nodes.last().line_range.end as nat
    } else {
        spec_max_end_line(nodes.drop_last())
    }
}

/// Estimate a file's total line count from its symbols: the largest line any
/// top-level symbol ends on.
#[verifier::loop_isolation(false)]
pub fn estimate_total_lines(symbols: &Vec<SymbolNode>) -> (r: usize)
    ensures
        r as nat == spec_max_end_line(symbols@),
{
    let mut max: usize = 0;
    let mut i: usize = 0;
    proof {
        assert(symbols@.take(0) =~= Seq::<SymbolNode>::empty());
    }
    while i < symbols.len()
        invariant
            0 <= i <= symbols@.len(),
            max as nat == spec_max_end_line(symbols@.take(i as int)),
        decreases symbols@.len() - i,
    {
        proof {
            assert(symbols@.take(i + 1).drop_last() =~= symbols@.take(i as int));
            assert(symbols@.take(i + 1).last() == symbols@[i as int]);
        }
        let end = symbols[i].line_range.end;
        if end > max {
            max = end;
        }
        i = i + 1;
    }
    proof {
        assert(symbols@.take(symbols@.len() as int) =~= symbols@);
    }
    max
}

/// What an LSP symbol kind maps to.
pub open spec fn spec_kind_of_lsp(kind: i64) -> SymbolKind {
    if kind == 2 || kind == 3 {
        SymbolKind::Module
    } else if kind == 5 || kind == 23 {
        SymbolKind::Struct
    } else if kind == 6 || kind == 9 {
        SymbolKind::Method
    } else if kind == 7 || kind == 8 {
        SymbolKind::Field
    } else if kind == 10 {
        SymbolKind::Enum
    } else if kind == 11 {
        SymbolKind::Trait
    } else if kind == 13 {
        SymbolKind::Static
    } else if kind == 14 || kind == 22 {
        SymbolKind::Constant
    } else if kind == 19 {
        SymbolKind::Impl
    } else if kind == 26 {
        SymbolKind::TypeAlias
    } else {
        SymbolKind::Function
    }
}

/// Map an LSP `SymbolKind` number to this crate's symbol kind; unknown
/// numbers fall back to `Function`.
pub fn lsp_kind_to_symbol_kind(kind: i64) -> (r: SymbolKind)
    ensures
        r == spec_kind_of_lsp(kind),
{
    if kind == 2 || kind == 3 {
        SymbolKind::Module
    } else if kind == 5 || kind == 23 {
        SymbolKind::Struct
    } else if kind == 6 || kind == 9 {
        SymbolKind::Method
    } else if kind == 7 || kind == 8 {
        SymbolKind::Field
    } else if kind == 10 {
        SymbolKind::Enum
    } else if kind == 11 {
        SymbolKind::Trait
    } else if kind == 13 {
        SymbolKind::Static
    } else if kind == 14 || kind == 22 {
        SymbolKind::Constant
    } else if kind == 19 {
        SymbolKind::Impl
    } else if kind == 26 {
        SymbolKind::TypeAlias
    } else {
        SymbolKind::Function
    }
}

} // verus!

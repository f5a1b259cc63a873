//! The symbol data model: a tree of exclusively-owned symbol nodes per file,
//! grouped into a project tree.

use vstd::prelude::*;

pub mod merkle;

verus! {

/// Semantic bucket for a symbol.
#[derive(Debug, Clone, Copy, PartialEq, Eq, Hash, Structural)]
pub enum SymbolKind {
    Module,
    Struct,
    Enum,
    Trait,
    Impl,
    Function,
    Method,
    Constant,
    TypeAlias,
    Static,
    Macro,
    Field,
}

/// A half-open range `[start, end)`, used for byte and line ranges.
#[derive(Debug, Clone, Copy, PartialEq, Eq, Structural)]
pub struct Span {
    pub start: usize,
    pub end: usize,
}

/// One symbol in a file's tree. Children are exclusively owned; there are no
/// shared or back references.
#[derive(Debug)]
pub struct SymbolNode {
    /// Stable id `<file_path>::<name_path>`, where the name path is the
    /// slash-joined chain of names from the file root to this symbol.
    pub id: String,
    /// Display name of the symbol.
    pub name: String,
    /// Semantic bucket.
    pub kind: SymbolKind,
    /// Free-text label (e.g. a language-specific keyword).
    pub label: String,
    /// Path of the owning file.
    pub file_path: String,
    /// Byte range of the symbol's source text.
    pub byte_range: Span,
    /// 1-based, half-open line range.
    pub line_range: Span,
    /// Digest of the symbol's own normalized source text.
    pub content_hash: Vec<u8>,
    /// Digest combining `content_hash` with every child's `merkle_hash`,
    /// valid only after a full bottom-up computation pass.
    pub merkle_hash: Vec<u8>,
    /// Child symbols, in document order.
    pub children: Vec<SymbolNode>,
    /// Estimated token count of the symbol's source text.
    pub estimated_tokens: usize,
}

/// A file's worth of symbols, organized hierarchically.
#[derive(Debug)]
pub struct FileSymbols {
    pub file_path: String,
    pub symbols: Vec<SymbolNode>,
    pub total_lines: usize,
}

/// The full project symbol tree.
#[derive(Debug)]
pub struct ProjectTree {
    pub root: String,
    pub files: Vec<FileSymbols>,
}

/// Number of nodes in the forest `s`, counting every node of every subtree.
pub open spec fn spec_forest_count(s: Seq<SymbolNode>) -> nat
    decreases s,
{
    if s.len() == 0 {
        0
    } else {
        1 + spec_forest_count(s[0].children@) + spec_forest_count(s.skip(1))
    }
}

/// Number of nodes in the subtree rooted at `n`, including `n` itself.
pub open spec fn spec_subtree_count(n: SymbolNode) -> nat {
    1 + spec_forest_count(n.children@)
}

/// Sum of `estimated_tokens` over the whole forest.
pub open spec fn spec_forest_tokens(s: Seq<SymbolNode>) -> nat
    decreases s,
{
    if s.len() == 0 {
        0
    } else {
        (s[0].estimated_tokens + spec_forest_tokens(s[0].children@) + spec_forest_tokens(
            s.skip(1),
        )) as nat
    }
}

/// Sum of `estimated_tokens` over the subtree rooted at `n`.
pub open spec fn spec_subtree_tokens(n: SymbolNode) -> nat {
    (n.estimated_tokens + spec_forest_tokens(n.children@)) as nat
}

/// Total node count over a sequence of files.
pub open spec fn spec_files_count(files: Seq<FileSymbols>) -> nat
    decreases files.len(),
{
    if files.len() == 0 {
        0
    } else {
        spec_forest_count(files[0].symbols@) + spec_files_count(files.skip(1))
    }
}

/// `n` capped at `usize::MAX`: the mathematical value where it fits, the
/// maximum otherwise. Exec counters saturate instead of overflowing.
pub open spec fn spec_cap_usize(n: nat) -> nat {
    if n <= usize::MAX as nat {
        n
    } else {
        usize::MAX as nat
    }
}

/// `a + b` saturating at `usize::MAX`.
pub(crate) fn sat_add(a: usize, b: usize) -> (r: usize)
    ensures
        r as nat == spec_cap_usize(a as nat + b as nat),
{
    if a > usize::MAX - b {
        usize::MAX
    } else {
        a + b
    }
}

pub(crate) proof fn lemma_forest_count_take(s: Seq<SymbolNode>, i: int)
    requires
        0 <= i < s.len(),
    ensures
        spec_forest_count(s.take(i + 1)) == spec_forest_count(s.take(i)) + spec_subtree_count(
            s[i],
        ),
    decreases s.len(), i,
{
    let t1 = s.take(i + 1);
    let t0 = s.take(i);
    if i == 0 {
        assert(t1 =~= seq![s[0]]);
        assert(t0 =~= Seq::<SymbolNode>::empty());
        assert(t1.skip(1) =~= Seq::<SymbolNode>::empty());
    } else {
        lemma_forest_count_take(s.skip(1), i - 1);
        assert(t1.skip(1) =~= s.skip(1).take(i));
        assert(t0.skip(1) =~= s.skip(1).take(i - 1));
        assert(t1[0] == s[0]);
        assert(t0[0] == s[0]);
    }
}

proof fn lemma_forest_tokens_take(s: Seq<SymbolNode>, i: int)
    requires
        0 <= i < s.len(),
    ensures
        spec_forest_tokens(s.take(i + 1)) == spec_forest_tokens(s.take(i)) + spec_subtree_tokens(
            s[i],
        ),
    decreases s.len(), i,
{
    let t1 = s.take(i + 1);
    let t0 = s.take(i);
    if i == 0 {
        assert(t1 =~= seq![s[0]]);
        assert(t0 =~= Seq::<SymbolNode>::empty());
        assert(t1.skip(1) =~= Seq::<SymbolNode>::empty());
    } else {
        lemma_forest_tokens_take(s.skip(1), i - 1);
        assert(t1.skip(1) =~= s.skip(1).take(i));
        assert(t0.skip(1) =~= s.skip(1).take(i - 1));
        assert(t1[0] == s[0]);
        assert(t0[0] == s[0]);
    }
}

proof fn lemma_files_count_take(files: Seq<FileSymbols>, i: int)
    requires
        0 <= i < files.len(),
    ensures
        spec_files_count(files.take(i + 1)) == spec_files_count(files.take(i)) + spec_forest_count(
            files[i].symbols@,
        ),
    decreases files.len(), i,
{
    let t1 = files.take(i + 1);
    let t0 = files.take(i);
    if i == 0 {
        assert(t1 =~= seq![files[0]]);
        assert(t0 =~= Seq::<FileSymbols>::empty());
        assert(t1.skip(1) =~= Seq::<FileSymbols>::empty());
    } else {
        lemma_files_count_take(files.skip(1), i - 1);
        assert(t1.skip(1) =~= files.skip(1).take(i));
        assert(t0.skip(1) =~= files.skip(1).take(i - 1));
        assert(t1[0] == files[0]);
        assert(t0[0] == files[0]);
    }
}

impl SymbolNode {
    /// Count of this symbol plus all of its descendants, saturating at
    /// `usize::MAX`.
    pub fn total_symbols(&self) -> (r: usize)
        ensures
            r as nat == spec_cap_usize(spec_subtree_count(*self)),
        decreases spec_subtree_count(*self),
    {
        let mut total: usize = 1;
        let mut i: usize = 0;
        while i < self.children.len()
            invariant
                0 <= i <= self.children.len(),
                total as nat == spec_cap_usize(1 + spec_forest_count(self.children@.take(i as int))),
            decreases self.children.len() - i,
        {
            proof {
                lemma_forest_count_take(self.children@, i as int);
                lemma_subtree_count_element(self.children@, i as int);
            }
            let c = self.children[i].total_symbols();
            total = sat_add(total, c);
            i = i + 1;
        }
        proof {
            assert(self.children@.take(self.children@.len() as int) =~= self.children@);
        }
        total
    }

    /// Sum of estimated tokens over this symbol and all of its descendants,
    /// saturating at `usize::MAX`.
    pub fn total_tokens(&self) -> (r: usize)
        ensures
            r as nat == spec_cap_usize(spec_subtree_tokens(*self)),
        decreases spec_subtree_count(*self),
    {
        let mut total: usize = self.estimated_tokens;
        let mut i: usize = 0;
        while i < self.children.len()
            invariant
                0 <= i <= self.children.len(),
                total as nat == spec_cap_usize(
                    (self.estimated_tokens + spec_forest_tokens(
                        self.children@.take(i as int),
                    )) as nat,
                ),
            decreases self.children.len() - i,
        {
            proof {
                lemma_forest_tokens_take(self.children@, i as int);
                lemma_subtree_count_element(self.children@, i as int);
            }
            let c = self.children[i].total_tokens();
            total = sat_add(total, c);
            i = i + 1;
        }
        proof {
            assert(self.children@.take(self.children@.len() as int) =~= self.children@);
        }
        total
    }
}

/// Every element of a forest roots a subtree no larger than the whole forest.
pub(crate) proof fn lemma_subtree_count_element(s: Seq<SymbolNode>, i: int)
    requires
        0 <= i < s.len(),
    ensures
        spec_subtree_count(s[i]) <= spec_forest_count(s),
    decreases s.len(),
{
    if i == 0 {
    } else {
        lemma_subtree_count_element(s.skip(1), i - 1);
    }
}

impl FileSymbols {
    /// Count of all symbols in this file, saturating at `usize::MAX`.
    pub fn total_symbols(&self) -> (r: usize)
        ensures
            r as nat == spec_cap_usize(spec_forest_count(self.symbols@)),
    {
        let mut total: usize = 0;
        let mut i: usize = 0;
        while i < self.symbols.len()
            invariant
                0 <= i <= self.symbols.len(),
                total as nat == spec_cap_usize(spec_forest_count(self.symbols@.take(i as int))),
            decreases self.symbols.len() - i,
        {
            proof {
                lemma_forest_count_take(self.symbols@, i as int);
            }
            let c = self.symbols[i].total_symbols();
            total = sat_add(total, c);
            i = i + 1;
        }
        proof {
            assert(self.symbols@.take(self.symbols@.len() as int) =~= self.symbols@);
        }
        total
    }
}

impl ProjectTree {
    /// Count of all symbols in the project, saturating at `usize::MAX`.
    pub fn total_symbols(&self) -> (r: usize)
        ensures
            r as nat == spec_cap_usize(spec_files_count(self.files@)),
    {
        let mut total: usize = 0;
        let mut i: usize = 0;
        while i < self.files.len()
            invariant
                0 <= i <= self.files.len(),
                total as nat == spec_cap_usize(spec_files_count(self.files@.take(i as int))),
            decreases self.files.len() - i,
        {
            proof {
                lemma_files_count_take(self.files@, i as int);
            }
            let c = self.files[i].total_symbols();
            total = sat_add(total, c);
            i = i + 1;
        }
        proof {
            assert(self.files@.take(self.files@.len() as int) =~= self.files@);
        }
        total
    }

    /// Number of files in the project tree.
    pub fn total_files(&self) -> (r: usize)
        ensures
            r == self.files@.len(),
    {
        self.files.len()
    }
}

} // verus!

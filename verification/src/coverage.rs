//! Coverage aggregation: folding the symbol tree and the context ledger into
//! per-file counts, a four-state classification, and a project report.

use vstd::multiset::Multiset;
use vstd::prelude::*;

use crate::symbols::{
    spec_cap_usize, spec_forest_count, FileSymbols, ProjectTree, SymbolNode,
};
use crate::text::{
    append_pad_left, append_pad_right, append_repeat, append_str, chars_of, chars_to_string,
    spec_digits, spec_pad_left, spec_pad_right, spec_repeat_char, usize_to_chars,
};
use crate::tracking::{spec_depth_of, ContextLedger, EntryModel, ReadDepth};

verus! {

/// Number of symbols in the forest whose recorded depth counts as seen
/// (anything but `Unseen`; `Stale` counts).
pub open spec fn spec_seen_count(nodes: Seq<SymbolNode>, m: Map<Seq<char>, EntryModel>) -> nat
    decreases nodes,
{
    if nodes.len() == 0 {
        0
    } else {
        (if spec_depth_of(m, nodes[0].id@).spec_is_seen() {
            1nat
        } else {
            0nat
        }) + spec_seen_count(nodes[0].children@, m) + spec_seen_count(nodes.skip(1), m)
    }
}

/// Number of symbols in the forest whose recorded depth is exactly
/// `FullBody` (`Stale` never counts, even if it was full before going stale).
pub open spec fn spec_full_count(nodes: Seq<SymbolNode>, m: Map<Seq<char>, EntryModel>) -> nat
    decreases nodes,
{
    if nodes.len() == 0 {
        0
    } else {
        (if spec_depth_of(m, nodes[0].id@) == ReadDepth::FullBody {
            1nat
        } else {
            0nat
        }) + spec_full_count(nodes[0].children@, m) + spec_full_count(nodes.skip(1), m)
    }
}

/// Number of symbols in the forest whose recorded depth is not `FullBody`.
pub open spec fn spec_not_full_count(nodes: Seq<SymbolNode>, m: Map<Seq<char>, EntryModel>) -> nat
    decreases nodes,
{
    if nodes.len() == 0 {
        0
    } else {
        (if spec_depth_of(m, nodes[0].id@) == ReadDepth::FullBody {
            0nat
        } else {
            1nat
        }) + spec_not_full_count(nodes[0].children@, m) + spec_not_full_count(nodes.skip(1), m)
    }
}

/// Every symbol in the forest reads at depth `FullBody`.
pub open spec fn spec_forest_all_full(nodes: Seq<SymbolNode>, m: Map<Seq<char>, EntryModel>) -> bool
    decreases nodes,
{
    nodes.len() == 0 || {
        &&& spec_depth_of(m, nodes[0].id@) == ReadDepth::FullBody
        &&& spec_forest_all_full(nodes[0].children@, m)
        &&& spec_forest_all_full(nodes.skip(1), m)
    }
}

/// Every symbol in the forest reads as seen.
pub open spec fn spec_forest_all_seen(nodes: Seq<SymbolNode>, m: Map<Seq<char>, EntryModel>) -> bool
    decreases nodes,
{
    nodes.len() == 0 || {
        &&& spec_depth_of(m, nodes[0].id@).spec_is_seen()
        &&& spec_forest_all_seen(nodes[0].children@, m)
        &&& spec_forest_all_seen(nodes.skip(1), m)
    }
}

/// Seen symbols never outnumber symbols, and fully-read symbols never
/// outnumber seen ones.
pub proof fn lemma_counts_bounded(nodes: Seq<SymbolNode>, m: Map<Seq<char>, EntryModel>)
    ensures
        spec_full_count(nodes, m) <= spec_seen_count(nodes, m),
        spec_seen_count(nodes, m) <= spec_forest_count(nodes),
    decreases nodes,
{
    if nodes.len() > 0 {
        lemma_counts_bounded(nodes[0].children@, m);
        lemma_counts_bounded(nodes.skip(1), m);
    }
}

/// A tree where every symbol was recorded at `FullBody` counts as
/// `seen == full == total`.
pub proof fn lemma_counts_all_full(nodes: Seq<SymbolNode>, m: Map<Seq<char>, EntryModel>)
    requires
        spec_forest_all_full(nodes, m),
    ensures
        spec_seen_count(nodes, m) == spec_forest_count(nodes),
        spec_full_count(nodes, m) == spec_forest_count(nodes),
    decreases nodes,
{
    if nodes.len() > 0 {
        lemma_counts_all_full(nodes[0].children@, m);
        lemma_counts_all_full(nodes.skip(1), m);
    }
}

/// A tree where every symbol was seen counts as `seen == total`.
pub proof fn lemma_counts_all_seen(nodes: Seq<SymbolNode>, m: Map<Seq<char>, EntryModel>)
    requires
        spec_forest_all_seen(nodes, m),
    ensures
        spec_seen_count(nodes, m) == spec_forest_count(nodes),
    decreases nodes,
{
    if nodes.len() > 0 {
        lemma_counts_all_seen(nodes[0].children@, m);
        lemma_counts_all_seen(nodes.skip(1), m);
    }
}

/// Fully-read symbols and not-fully-read symbols partition the tree: with
/// exactly one symbol recorded below `FullBody`, the full count is the total
/// minus one.
pub proof fn lemma_full_plus_not_full(nodes: Seq<SymbolNode>, m: Map<Seq<char>, EntryModel>)
    ensures
        spec_full_count(nodes, m) + spec_not_full_count(nodes, m) == spec_forest_count(nodes),
    decreases nodes,
{
    if nodes.len() > 0 {
        lemma_full_plus_not_full(nodes[0].children@, m);
        lemma_full_plus_not_full(nodes.skip(1), m);
    }
}

proof fn lemma_seen_count_take(nodes: Seq<SymbolNode>, i: int, m: Map<Seq<char>, EntryModel>)
    requires
        0 <= i < nodes.len(),
    ensures
        spec_seen_count(nodes.take(i + 1), m) == spec_seen_count(nodes.take(i), m) + (if spec_depth_of(
            m,
            nodes[i].id@,
        ).spec_is_seen() {
            1nat
        } else {
            0nat
        }) + spec_seen_count(nodes[i].children@, m),
        spec_full_count(nodes.take(i + 1), m) == spec_full_count(nodes.take(i), m) + (if spec_depth_of(
            m,
            nodes[i].id@,
        ) == ReadDepth::FullBody {
            1nat
        } else {
            0nat
        }) + spec_full_count(nodes[i].children@, m),
    decreases nodes.len(), i,
{
    let t1 = nodes.take(i + 1);
    let t0 = nodes.take(i);
    if i == 0 {
        assert(t1 =~= seq![nodes[0]]);
        assert(t0 =~= Seq::<SymbolNode>::empty());
        assert(t1.skip(1) =~= Seq::<SymbolNode>::empty());
    } else {
        lemma_seen_count_take(nodes.skip(1), i - 1, m);
        assert(t1.skip(1) =~= nodes.skip(1).take(i));
        assert(t0.skip(1) =~= nodes.skip(1).take(i - 1));
        assert(t1[0] == nodes[0]);
        assert(t0[0] == nodes[0]);
        assert(nodes.skip(1)[i - 1] == nodes[i]);
    }
}

/// Count symbols recursively against the ledger, returning
/// `(total, seen, full)`, each saturating at `usize::MAX`.
#[verifier::loop_isolation(false)]
pub fn count_symbols(symbols: &Vec<SymbolNode>, ledger: &ContextLedger) -> (r: (usize, usize, usize))
    requires
        ledger.wf(),
    ensures
        r.0 as nat == spec_cap_usize(spec_forest_count(symbols@)),
        r.1 as nat == spec_cap_usize(spec_seen_count(symbols@, ledger@)),
        r.2 as nat == spec_cap_usize(spec_full_count(symbols@, ledger@)),
    decreases spec_forest_count(symbols@),
{
    let mut total: usize = 0;
    let mut seen: usize = 0;
    let mut full: usize = 0;
    let n = symbols.len();
    let mut i: usize = 0;
    proof {
        assert(symbols@.take(0) =~= Seq::<SymbolNode>::empty());
    }
    while i < n
        invariant
            0 <= i <= n,
            total as nat == spec_cap_usize(spec_forest_count(symbols@.take(i as int))),
            seen as nat == spec_cap_usize(spec_seen_count(symbols@.take(i as int), ledger@)),
            full as nat == spec_cap_usize(spec_full_count(symbols@.take(i as int), ledger@)),
        decreases n - i,
    {
        proof {
            crate::symbols::lemma_forest_count_take(symbols@, i as int);
            lemma_seen_count_take(symbols@, i as int, ledger@);
            crate::symbols::lemma_subtree_count_element(symbols@, i as int);
        }
        let sym = &symbols[i];
        total = crate::symbols::sat_add(total, 1);
        let depth = ledger.depth_of(sym.id.as_str());
        if depth.is_seen() {
            seen = crate::symbols::sat_add(seen, 1);
        }
        if matches!(depth, ReadDepth::FullBody) {
            full = crate::symbols::sat_add(full, 1);
        }
        let (child_total, child_seen, child_full) = count_symbols(&sym.children, ledger);
        total = crate::symbols::sat_add(total, child_total);
        seen = crate::symbols::sat_add(seen, child_seen);
        full = crate::symbols::sat_add(full, child_full);
        i = i + 1;
    }
    proof {
        assert(symbols@.take(n as int) =~= symbols@);
    }
    (total, seen, full)
}

/// Four-state coverage classification for a file. Variant order gives the
/// presentation sort: `PartiallyCovered`, `AllSeen`, `FullyCovered`,
/// `NotCovered`.
#[derive(Debug, Clone, Copy, PartialEq, Eq, Structural)]
pub enum FileCoverageStatus {
    PartiallyCovered,
    AllSeen,
    FullyCovered,
    NotCovered,
}

impl FileCoverageStatus {
    /// Position in the presentation sort order.
    pub open spec fn spec_sort_rank(self) -> nat {
        match self {
            FileCoverageStatus::PartiallyCovered => 0,
            FileCoverageStatus::AllSeen => 1,
            FileCoverageStatus::FullyCovered => 2,
            FileCoverageStatus::NotCovered => 3,
        }
    }

    pub(crate) fn sort_rank(self) -> (r: u8)
        ensures
            r as nat == self.spec_sort_rank(),
    {
        match self {
            FileCoverageStatus::PartiallyCovered => 0,
            FileCoverageStatus::AllSeen => 1,
            FileCoverageStatus::FullyCovered => 2,
            FileCoverageStatus::NotCovered => 3,
        }
    }
}

/// The classification a file with these counts gets: `FullyCovered` when
/// every symbol was read in full, `AllSeen` when every symbol was seen but
/// not all in full, `PartiallyCovered` when some but not all were seen — a
/// file with fully-read symbols next to unread siblings is only partially
/// covered — and `NotCovered` when nothing was seen.
pub open spec fn spec_status_from_counts(total: nat, seen: nat, full: nat) -> FileCoverageStatus {
    if total == 0 || full == 0 {
        if seen > 0 && seen == total {
            FileCoverageStatus::AllSeen
        } else if seen > 0 {
            FileCoverageStatus::PartiallyCovered
        } else {
            FileCoverageStatus::NotCovered
        }
    } else if full == total {
        FileCoverageStatus::FullyCovered
    } else if seen == total {
        FileCoverageStatus::AllSeen
    } else {
        FileCoverageStatus::PartiallyCovered
    }
}

/// Classify a file's coverage from its counts.
pub fn coverage_status_from_counts(total: usize, seen: usize, full: usize) -> (r:
    FileCoverageStatus)
    ensures
        r == spec_status_from_counts(total as nat, seen as nat, full as nat),
{
    if total == 0 || full == 0 {
        if seen > 0 && seen == total {
            FileCoverageStatus::AllSeen
        } else if seen > 0 {
            FileCoverageStatus::PartiallyCovered
        } else {
            FileCoverageStatus::NotCovered
        }
    } else if full == total {
        FileCoverageStatus::FullyCovered
    } else if seen == total {
        FileCoverageStatus::AllSeen
    } else {
        FileCoverageStatus::PartiallyCovered
    }
}

/// What a per-file coverage row says, as plain values.
pub ghost struct FileRowModel {
    pub path: Seq<char>,
    pub total: nat,
    pub seen: nat,
    pub full: nat,
}

/// Per-file coverage metrics.
#[derive(Debug, Clone)]
pub struct FileCoverage {
    /// Full relative path to the file.
    pub path: String,
    /// Total number of symbols in the file.
    pub total_symbols: usize,
    /// Symbols with a seen depth (anything past `Unseen`).
    pub seen_count: usize,
    /// Symbols read at exactly `FullBody`.
    pub full_count: usize,
}

impl View for FileCoverage {
    type V = FileRowModel;

    open spec fn view(&self) -> FileRowModel {
        FileRowModel {
            path: self.path@,
            total: self.total_symbols as nat,
            seen: self.seen_count as nat,
            full: self.full_count as nat,
        }
    }
}

/// `count` out of `total` as a whole-number percentage, rounded down;
/// 0 when `total` is 0 (never a division by zero).
pub open spec fn spec_percent(count: nat, total: nat) -> nat {
    if total == 0 {
        0
    } else {
        count * 100 / total
    }
}

proof fn lemma_percent_le_100(count: nat, total: nat)
    requires
        count <= total,
    ensures
        spec_percent(count, total) <= 100,
{
    if total > 0 {
        vstd::arithmetic::div_mod::lemma_div_is_ordered(
            count as int * 100,
            total as int * 100,
            total as int,
        );
        assert(count * 100 <= total * 100) by (nonlinear_arith)
            requires
                count <= total,
        ;
        vstd::arithmetic::div_mod::lemma_div_by_multiple(100, total as int);
        assert(total * 100 == 100 * total) by (nonlinear_arith);
    }
}

fn percent_of(count: usize, total: usize) -> (r: usize)
    requires
        count <= total,
    ensures
        r as nat == spec_percent(count as nat, total as nat),
{
    if total == 0 {
        0
    } else {
        proof {
            lemma_percent_le_100(count as nat, total as nat);
        }
        let wide = (count as u128) * 100 / (total as u128);
        proof {
            assert(wide == (count as nat) * 100 / (total as nat));
        }
        wide as usize
    }
}

impl FileCoverage {
    /// Counts that fit together: seen within total, full within seen.
    pub open spec fn wf(&self) -> bool {
        self.full_count <= self.seen_count && self.seen_count <= self.total_symbols
    }

    /// Percentage of symbols that have been seen, rounded down.
    pub fn seen_percent(&self) -> (r: usize)
        requires
            self.wf(),
        ensures
            r as nat == spec_percent(self@.seen, self@.total),
    {
        percent_of(self.seen_count, self.total_symbols)
    }

    /// Percentage of symbols read in full, rounded down.
    pub fn full_percent(&self) -> (r: usize)
        requires
            self.wf(),
        ensures
            r as nat == spec_percent(self@.full, self@.total),
    {
        percent_of(self.full_count, self.total_symbols)
    }
}

/// Numerator of a row's full-coverage ratio (0 for an empty file).
pub open spec fn spec_pct_num(r: FileRowModel) -> nat {
    if r.total == 0 {
        0
    } else {
        r.full
    }
}

/// Denominator of a row's full-coverage ratio (1 for an empty file).
pub open spec fn spec_pct_den(r: FileRowModel) -> nat {
    if r.total == 0 {
        1
    } else {
        r.total
    }
}

/// Whether row `a`'s full-coverage ratio is at most row `b`'s, compared as
/// exact rationals by cross-multiplication.
pub open spec fn spec_pct_le(a: FileRowModel, b: FileRowModel) -> bool {
    spec_pct_num(a) * spec_pct_den(b) <= spec_pct_num(b) * spec_pct_den(a)
}

proof fn lemma_pct_le_total(a: FileRowModel, b: FileRowModel)
    ensures
        spec_pct_le(a, b) || spec_pct_le(b, a),
{
}

proof fn lemma_pct_le_trans(a: FileRowModel, b: FileRowModel, c: FileRowModel)
    requires
        spec_pct_le(a, b),
        spec_pct_le(b, c),
    ensures
        spec_pct_le(a, c),
{
    let na = spec_pct_num(a);
    let nb = spec_pct_num(b);
    let nc = spec_pct_num(c);
    let da = spec_pct_den(a);
    let db = spec_pct_den(b);
    let dc = spec_pct_den(c);
    assert(na * dc <= nc * da) by (nonlinear_arith)
        requires
            na * db <= nb * da,
            nb * dc <= nc * db,
            da >= 1,
            db >= 1,
            dc >= 1,
            na >= 0,
            nb >= 0,
            nc >= 0,
    ;
}

fn pct_le(a: &FileCoverage, b: &FileCoverage) -> (r: bool)
    ensures
        r == spec_pct_le(a@, b@),
{
    let num_a: u128 = if a.total_symbols == 0 {
        0
    } else {
        a.full_count as u128
    };
    let den_a: u128 = if a.total_symbols == 0 {
        1
    } else {
        a.total_symbols as u128
    };
    let num_b: u128 = if b.total_symbols == 0 {
        0
    } else {
        b.full_count as u128
    };
    let den_b: u128 = if b.total_symbols == 0 {
        1
    } else {
        b.total_symbols as u128
    };
    proof {
        assert(num_a * den_b <= 0xFFFFFFFFFFFFFFFF * 0xFFFFFFFFFFFFFFFF) by (nonlinear_arith)
            requires
                num_a <= 0xFFFFFFFFFFFFFFFFu128,
                den_b <= 0xFFFFFFFFFFFFFFFFu128,
        ;
        assert(num_b * den_a <= 0xFFFFFFFFFFFFFFFF * 0xFFFFFFFFFFFFFFFF) by (nonlinear_arith)
            requires
                num_b <= 0xFFFFFFFFFFFFFFFFu128,
                den_a <= 0xFFFFFFFFFFFFFFFFu128,
        ;
    }
    num_a * den_b <= num_b * den_a
}

/// The coverage row for one file, as computed against the ledger (counts
/// saturate at `usize::MAX`).
pub open spec fn spec_file_row(f: FileSymbols, m: Map<Seq<char>, EntryModel>) -> FileRowModel {
    FileRowModel {
        path: f.file_path@,
        total: spec_cap_usize(spec_forest_count(f.symbols@)),
        seen: spec_cap_usize(spec_seen_count(f.symbols@, m)),
        full: spec_cap_usize(spec_full_count(f.symbols@, m)),
    }
}

/// One coverage row per file, in tree order.
pub open spec fn spec_report_rows(
    files: Seq<FileSymbols>,
    m: Map<Seq<char>, EntryModel>,
) -> Seq<FileRowModel> {
    Seq::new(files.len(), |i: int| spec_file_row(files[i], m))
}

/// Complete coverage report for a project.
#[derive(Debug, Clone)]
pub struct CoverageReport {
    /// Session id, if one is known.
    pub session_id: Option<String>,
    /// Per-file coverage metrics, least-covered files first.
    pub files: Vec<FileCoverage>,
}

/// Sum of the `total_symbols` fields, as a mathematical number.
pub open spec fn spec_sum_total(files: Seq<FileCoverage>) -> nat
    decreases files.len(),
{
    if files.len() == 0 {
        0
    } else {
        (files[0].total_symbols + spec_sum_total(files.skip(1))) as nat
    }
}

/// Sum of the `seen_count` fields.
pub open spec fn spec_sum_seen(files: Seq<FileCoverage>) -> nat
    decreases files.len(),
{
    if files.len() == 0 {
        0
    } else {
        (files[0].seen_count + spec_sum_seen(files.skip(1))) as nat
    }
}

/// Sum of the `full_count` fields.
pub open spec fn spec_sum_full(files: Seq<FileCoverage>) -> nat
    decreases files.len(),
{
    if files.len() == 0 {
        0
    } else {
        (files[0].full_count + spec_sum_full(files.skip(1))) as nat
    }
}

proof fn lemma_sums_take(files: Seq<FileCoverage>, i: int)
    requires
        0 <= i < files.len(),
    ensures
        spec_sum_total(files.take(i + 1)) == spec_sum_total(files.take(i))
            + files[i].total_symbols,
        spec_sum_seen(files.take(i + 1)) == spec_sum_seen(files.take(i)) + files[i].seen_count,
        spec_sum_full(files.take(i + 1)) == spec_sum_full(files.take(i)) + files[i].full_count,
    decreases files.len(), i,
{
    let t1 = files.take(i + 1);
    let t0 = files.take(i);
    if i == 0 {
        assert(t1 =~= seq![files[0]]);
        assert(t0 =~= Seq::<FileCoverage>::empty());
        assert(t1.skip(1) =~= Seq::<FileCoverage>::empty());
    } else {
        lemma_sums_take(files.skip(1), i - 1);
        assert(t1.skip(1) =~= files.skip(1).take(i));
        assert(t0.skip(1) =~= files.skip(1).take(i - 1));
        assert(t1[0] == files[0]);
        assert(t0[0] == files[0]);
        assert(files.skip(1)[i - 1] == files[i]);
    }
}

impl CoverageReport {
    /// Build a coverage report from a project tree and context ledger: one
    /// row per file, sorted ascending by full-coverage ratio so the
    /// least-covered files come first.
    #[verifier::loop_isolation(false)]
    pub fn from_project(project_tree: &ProjectTree, ledger: &ContextLedger) -> (r: Self)
        requires
            ledger.wf(),
        ensures
            r.session_id is None,
            r.files@.map_values(|f: FileCoverage| f@).to_multiset() == spec_report_rows(
                project_tree.files@,
                ledger@,
            ).to_multiset(),
            forall|i: int, j: int|
                0 <= i <= j < r.files@.len() ==> spec_pct_le(
                    #[trigger] r.files@[i]@,
                    #[trigger] r.files@[j]@,
                ),
            forall|i: int| 0 <= i < r.files@.len() ==> (#[trigger] r.files@[i]).wf(),
    {
        let n = project_tree.files.len();
        let ghost rows_spec = spec_report_rows(project_tree.files@, ledger@);
        let mut out: Vec<FileCoverage> = Vec::new();
        let mut i: usize = 0;
        proof {
            broadcast use vstd::seq_lib::group_to_multiset_ensures;

            assert(out@.map_values(|f: FileCoverage| f@) =~= Seq::<FileRowModel>::empty());
            assert(rows_spec.take(0) =~= Seq::<FileRowModel>::empty());
            assert(Seq::<FileRowModel>::empty().to_multiset() =~= Multiset::<
                FileRowModel,
            >::empty());
        }
        while i < n
            invariant
                0 <= i <= n,
                n == project_tree.files@.len(),
                out@.map_values(|f: FileCoverage| f@).to_multiset() == rows_spec.take(
                    i as int,
                ).to_multiset(),
                forall|k: int, l: int|
                    0 <= k <= l < out@.len() ==> spec_pct_le(
                        #[trigger] out@[k]@,
                        #[trigger] out@[l]@,
                    ),
                forall|k: int| 0 <= k < out@.len() ==> (#[trigger] out@[k]).wf(),
            decreases n - i,
        {
            let file = &project_tree.files[i];
            let (total, seen, full) = count_symbols(&file.symbols, ledger);
            proof {
                lemma_counts_bounded(file.symbols@, ledger@);
            }
            let row = FileCoverage {
                path: file.file_path.clone(),
                total_symbols: total,
                seen_count: seen,
                full_count: full,
            };
            proof {
                assert(row@ == spec_file_row(project_tree.files@[i as int], ledger@));
                assert(rows_spec[i as int] == spec_file_row(project_tree.files@[i as int], ledger@));
            }
            insert_sorted(&mut out, row);
            proof {
                broadcast use vstd::seq_lib::group_to_multiset_ensures;

                assert(rows_spec.take(i + 1) =~= rows_spec.take(i as int).push(
                    rows_spec[i as int],
                ));
            }
            i = i + 1;
        }
        proof {
            assert(rows_spec.take(rows_spec.len() as int) =~= rows_spec);
        }
        CoverageReport { session_id: None, files: out }
    }

    /// Total symbols across all files, saturating at `usize::MAX`.
    #[verifier::loop_isolation(false)]
    pub fn total_symbols(&self) -> (r: usize)
        ensures
            r as nat == spec_cap_usize(spec_sum_total(self.files@)),
    {
        let mut total: usize = 0;
        let mut i: usize = 0;
        proof {
            assert(self.files@.take(0) =~= Seq::<FileCoverage>::empty());
        }
        while i < self.files.len()
            invariant
                0 <= i <= self.files@.len(),
                total as nat == spec_cap_usize(spec_sum_total(self.files@.take(i as int))),
            decreases self.files@.len() - i,
        {
            proof {
                lemma_sums_take(self.files@, i as int);
            }
            total = crate::symbols::sat_add(total, self.files[i].total_symbols);
            i = i + 1;
        }
        proof {
            assert(self.files@.take(self.files@.len() as int) =~= self.files@);
        }
        total
    }

    /// Total seen symbols across all files, saturating at `usize::MAX`.
    #[verifier::loop_isolation(false)]
    pub fn total_seen(&self) -> (r: usize)
        ensures
            r as nat == spec_cap_usize(spec_sum_seen(self.files@)),
    {
        let mut total: usize = 0;
        let mut i: usize = 0;
        proof {
            assert(self.files@.take(0) =~= Seq::<FileCoverage>::empty());
        }
        while i < self.files.len()
            invariant
                0 <= i <= self.files@.len(),
                total as nat == spec_cap_usize(spec_sum_seen(self.files@.take(i as int))),
            decreases self.files@.len() - i,
        {
            proof {
                lemma_sums_take(self.files@, i as int);
            }
            total = crate::symbols::sat_add(total, self.files[i].seen_count);
            i = i + 1;
        }
        proof {
            assert(self.files@.take(self.files@.len() as int) =~= self.files@);
        }
        total
    }

    /// Total fully-read symbols across all files, saturating at `usize::MAX`.
    #[verifier::loop_isolation(false)]
    pub fn total_full(&self) -> (r: usize)
        ensures
            r as nat == spec_cap_usize(spec_sum_full(self.files@)),
    {
        let mut total: usize = 0;
        let mut i: usize = 0;
        proof {
            assert(self.files@.take(0) =~= Seq::<FileCoverage>::empty());
        }
        while i < self.files.len()
            invariant
                0 <= i <= self.files@.len(),
                total as nat == spec_cap_usize(spec_sum_full(self.files@.take(i as int))),
            decreases self.files@.len() - i,
        {
            proof {
                lemma_sums_take(self.files@, i as int);
            }
            total = crate::symbols::sat_add(total, self.files[i].full_count);
            i = i + 1;
        }
        proof {
            assert(self.files@.take(self.files@.len() as int) =~= self.files@);
        }
        total
    }
}

/// Insert `row` into the sorted vector `v`, keeping it sorted by
/// full-coverage ratio and adding exactly that row.
#[verifier::loop_isolation(false)]
fn insert_sorted(v: &mut Vec<FileCoverage>, row: FileCoverage)
    requires
        forall|k: int, l: int|
            0 <= k <= l < old(v)@.len() ==> spec_pct_le(
                #[trigger] old(v)@[k]@,
                #[trigger] old(v)@[l]@,
            ),
    ensures
        final(v)@.map_values(|f: FileCoverage| f@).to_multiset() == old(v)@.map_values(
            |f: FileCoverage| f@,
        ).to_multiset().insert(row@),
        forall|k: int, l: int|
            0 <= k <= l < final(v)@.len() ==> spec_pct_le(
                #[trigger] final(v)@[k]@,
                #[trigger] final(v)@[l]@,
            ),
        final(v)@.len() == old(v)@.len() + 1,
        forall|k: int|
            0 <= k < final(v)@.len() ==> (#[trigger] final(v)@[k]) == row || exists|l: int|
                0 <= l < old(v)@.len() && final(v)@[k] == old(v)@[l],
{
    let n = v.len();
    let mut pos: usize = 0;
    while pos < n && pct_le(&v[pos], &row)
        invariant
            0 <= pos <= n,
            n == v@.len(),
            v@ == old(v)@,
            forall|k: int| 0 <= k < pos ==> spec_pct_le((#[trigger] v@[k])@, row@),
        decreases n - pos,
    {
        pos = pos + 1;
    }
    // Everything from `pos` on is strictly greater than `row` in the ratio
    // order, because the prefix is sorted and `v[pos]` is not below `row`.
    proof {
        if pos < n {
            lemma_pct_le_total(v@[pos as int]@, row@);
        }
        assert forall|k: int| pos <= k < n implies spec_pct_le(row@, (#[trigger] v@[k])@) by {
            lemma_pct_le_total(v@[pos as int]@, row@);
            lemma_pct_le_trans(row@, v@[pos as int]@, v@[k]@);
        }
    }
    let ghost before = v@;
    v.insert(pos, row);
    proof {
        broadcast use vstd::seq_lib::group_to_multiset_ensures;

        let mv = |f: FileCoverage| f@;
        assert(v@ =~= before.take(pos as int).push(row) + before.skip(pos as int));
        lemma_insert_multiset(before, pos as int, row);
        assert forall|k: int, l: int|
            0 <= k <= l < v@.len() implies spec_pct_le((#[trigger] v@[k])@, (#[trigger] v@[l])@) by {
            if k == pos && l == pos {
                lemma_pct_le_total(row@, row@);
            }
        }
    }
}

proof fn lemma_insert_multiset(s: Seq<FileCoverage>, pos: int, row: FileCoverage)
    requires
        0 <= pos <= s.len(),
    ensures
        s.insert(pos, row).map_values(|f: FileCoverage| f@).to_multiset() == s.map_values(
            |f: FileCoverage| f@,
        ).to_multiset().insert(row@),
{
    broadcast use vstd::seq_lib::group_to_multiset_ensures;

    let mv = |f: FileCoverage| f@;
    let ins = s.insert(pos, row);
    let mapped_ins = ins.map_values(mv);
    let mapped = s.map_values(mv);
    assert(mapped_ins =~= mapped.insert(pos, row@));
    assert(mapped.insert(pos, row@).remove(pos) =~= mapped);
    assert(mapped.insert(pos, row@)[pos] == row@);
    assert(mapped.insert(pos, row@).remove(pos).to_multiset() =~= mapped.insert(
        pos,
        row@,
    ).to_multiset().remove(row@));
    let msi = mapped.insert(pos, row@).to_multiset();
    assert(mapped.insert(pos, row@).contains(row@));
    assert(msi.count(row@) > 0);
    assert(msi =~= msi.remove(row@).insert(row@));
    assert(msi =~= mapped.to_multiset().insert(row@));
}


/// The smaller of two numbers.
pub open spec fn spec_min_nat(a: nat, b: nat) -> nat {
    if a <= b {
        a
    } else {
        b
    }
}

/// A percentage cell: the count (clamped into the total) as a percentage of
/// the total, right-aligned in six characters, followed by `%`.
pub open spec fn spec_pct_cell(count: nat, total: nat) -> Seq<char> {
    spec_pad_left(spec_digits(spec_percent(spec_min_nat(count, total), total)), 6) + "%"@
}

/// One formatted table line for a row of the report.
pub open spec fn spec_fmt_line(
    name: Seq<char>,
    total: nat,
    seen: nat,
    full: nat,
    width: nat,
) -> Seq<char> {
    spec_pad_right(name, width) + " "@ + spec_pad_left(spec_digits(total), 8) + " "@
        + spec_pad_left(spec_digits(seen), 7) + " "@ + spec_pad_left(spec_digits(full), 7) + " "@
        + spec_pct_cell(seen, total) + " "@ + spec_pct_cell(full, total) + "\n"@
}

/// The formatted rows of the report, in order.
pub open spec fn spec_fmt_rows(files: Seq<FileCoverage>, width: nat) -> Seq<char>
    decreases files.len(),
{
    if files.len() == 0 {
        Seq::empty()
    } else {
        spec_fmt_line(
            files[0].path@,
            files[0].total_symbols as nat,
            files[0].seen_count as nat,
            files[0].full_count as nat,
            width,
        ) + spec_fmt_rows(files.skip(1), width)
    }
}

/// The widest path among the rows, in characters.
pub open spec fn spec_max_path_len(files: Seq<FileCoverage>) -> nat
    decreases files.len(),
{
    if files.len() == 0 {
        0
    } else if files.last().path@.len() >= spec_max_path_len(files.drop_last()) {
        files.last().path@.len()
    } else {
        spec_max_path_len(files.drop_last())
    }
}

/// The path column width: wide enough for every path, the configured
/// minimum, and the `TOTAL` label.
pub open spec fn spec_col_width(files: Seq<FileCoverage>, min_width: nat) -> nat {
    let m = spec_max_path_len(files);
    let floor = if min_width >= 5 {
        min_width
    } else {
        5
    };
    if m >= floor {
        m
    } else {
        floor
    }
}

/// Everything of the formatted report up to the file rows: a header naming
/// the session, a separator, the column headers, and another separator.
pub open spec fn spec_report_prefix(
    session_id: Option<String>,
    files: Seq<FileCoverage>,
    min_width: nat,
) -> Seq<char> {
    let width = spec_col_width(files, min_width);
    let sep_len = spec_cap_usize((width + 45) as nat);
    "Coverage Report (session: "@ + (if session_id is Some {
        session_id->0@
    } else {
        "none"@
    }) + ")\n"@ + spec_repeat_char('\u{2500}', sep_len) + "\n"@ + spec_pad_right("File"@, width)
        + " "@ + spec_pad_left("Symbols"@, 8) + " "@ + spec_pad_left("Seen"@, 7) + " "@
        + spec_pad_left("Full"@, 7) + " "@ + spec_pad_left("Seen%"@, 7) + " "@ + spec_pad_left(
        "Full%"@,
        7,
    ) + "\n"@ + spec_repeat_char('\u{2500}', sep_len) + "\n"@
}

/// The whole formatted report: the prefix, one line per file, a separator,
/// and a totals line.
pub open spec fn spec_format_report(
    session_id: Option<String>,
    files: Seq<FileCoverage>,
    min_width: nat,
) -> Seq<char> {
    let width = spec_col_width(files, min_width);
    let sep_len = spec_cap_usize((width + 45) as nat);
    spec_report_prefix(session_id, files, min_width) + spec_fmt_rows(files, width)
        + spec_repeat_char('\u{2500}', sep_len) + "\n"@ + spec_fmt_line(
        "TOTAL"@,
        spec_cap_usize(spec_sum_total(files)),
        spec_cap_usize(spec_sum_seen(files)),
        spec_cap_usize(spec_sum_full(files)),
        width,
    )
}

fn percent_clamped(count: usize, total: usize) -> (r: usize)
    ensures
        r as nat == spec_percent(spec_min_nat(count as nat, total as nat), total as nat),
{
    let c = if count <= total {
        count
    } else {
        total
    };
    percent_of(c, total)
}

fn append_pct_cell(out: &mut Vec<char>, count: usize, total: usize)
    ensures
        final(out)@ == old(out)@ + spec_pct_cell(count as nat, total as nat),
{
    let pct = percent_clamped(count, total);
    let digits = usize_to_chars(pct);
    append_pad_left(out, &digits, 6);
    append_str(out, "%");
    proof {
        assert(old(out)@ + (spec_pad_left(spec_digits(pct as nat), 6) + "%"@) =~= (old(out)@
            + spec_pad_left(spec_digits(pct as nat), 6)) + "%"@);
    }
}

fn append_fmt_line(out: &mut Vec<char>, name: &Vec<char>, total: usize, seen: usize, full: usize, width: usize)
    ensures
        final(out)@ == old(out)@ + spec_fmt_line(
            name@,
            total as nat,
            seen as nat,
            full as nat,
            width as nat,
        ),
{
    append_pad_right(out, name, width);
    append_str(out, " ");
    let d_total = usize_to_chars(total);
    append_pad_left(out, &d_total, 8);
    append_str(out, " ");
    let d_seen = usize_to_chars(seen);
    append_pad_left(out, &d_seen, 7);
    append_str(out, " ");
    let d_full = usize_to_chars(full);
    append_pad_left(out, &d_full, 7);
    append_str(out, " ");
    append_pct_cell(out, seen, total);
    append_str(out, " ");
    append_pct_cell(out, full, total);
    append_str(out, "\n");
    proof {
        let a0 = old(out)@;
        let l = spec_fmt_line(name@, total as nat, seen as nat, full as nat, width as nat);
        assert(out@ =~= a0 + l);
    }
}

proof fn lemma_fmt_rows_take(files: Seq<FileCoverage>, i: int, width: nat)
    requires
        0 <= i < files.len(),
    ensures
        spec_fmt_rows(files.take(i + 1), width) == spec_fmt_rows(files.take(i), width)
            + spec_fmt_line(
            files[i].path@,
            files[i].total_symbols as nat,
            files[i].seen_count as nat,
            files[i].full_count as nat,
            width,
        ),
    decreases files.len(), i,
{
    let t1 = files.take(i + 1);
    let t0 = files.take(i);
    let line = spec_fmt_line(
        files[i].path@,
        files[i].total_symbols as nat,
        files[i].seen_count as nat,
        files[i].full_count as nat,
        width,
    );
    if i == 0 {
        assert(t1 =~= seq![files[0]]);
        assert(t0 =~= Seq::<FileCoverage>::empty());
        assert(t1.skip(1) =~= Seq::<FileCoverage>::empty());
        assert(spec_fmt_rows(t0, width) == Seq::<char>::empty());
        assert(spec_fmt_rows(t1.skip(1), width) == Seq::<char>::empty());
        assert(t1[0] == files[0]);
        assert(line + Seq::<char>::empty() =~= line);
        assert(Seq::<char>::empty() + line =~= line);
    } else {
        lemma_fmt_rows_take(files.skip(1), i - 1, width);
        assert(t1.skip(1) =~= files.skip(1).take(i));
        assert(t0.skip(1) =~= files.skip(1).take(i - 1));
        assert(t1[0] == files[0]);
        assert(t0[0] == files[0]);
        assert(files.skip(1)[i - 1] == files[i]);
        let head0 = spec_fmt_line(
            files[0].path@,
            files[0].total_symbols as nat,
            files[0].seen_count as nat,
            files[0].full_count as nat,
            width,
        );
        assert((head0 + spec_fmt_rows(files.skip(1).take(i - 1), width)) + line =~= head0 + (
        spec_fmt_rows(files.skip(1).take(i - 1), width) + line));
    }
}

proof fn lemma_max_path_take(files: Seq<FileCoverage>, i: int)
    requires
        0 <= i < files.len(),
    ensures
        spec_max_path_len(files.take(i + 1)) == if files[i].path@.len() >= spec_max_path_len(
            files.take(i),
        ) {
            files[i].path@.len()
        } else {
            spec_max_path_len(files.take(i))
        },
{
    let t1 = files.take(i + 1);
    assert(t1.drop_last() =~= files.take(i));
    assert(t1.last() == files[i]);
}

/// Trait for formatting coverage reports: the seam for adding new output
/// formats.
pub trait CoverageFormatter {
    fn format(&self, report: &CoverageReport) -> String;
}

/// Plain-text table formatter for terminal output.
#[derive(Debug, Clone)]
pub struct TextFormatter {
    /// Minimum width for the path column.
    pub min_path_width: usize,
}

impl Default for TextFormatter {
    fn default() -> (r: Self)
        ensures
            r.min_path_width == 40,
    {
        TextFormatter { min_path_width: 40 }
    }
}

impl TextFormatter {
    /// Render the report as a text table: header with the session id, column
    /// headers, one line per file, and a totals line.
    #[verifier::loop_isolation(false)]
    #[verifier::rlimit(100)]
    pub fn format(&self, report: &CoverageReport) -> (r: String)
        ensures
            r@ == spec_format_report(
                report.session_id,
                report.files@,
                self.min_path_width as nat,
            ),
    {
        let n = report.files.len();

        // Path column width: the longest path, floored by the configured
        // minimum and the `TOTAL` label's width.
        let mut width: usize = 0;
        let mut i: usize = 0;
        proof {
            assert(report.files@.take(0) =~= Seq::<FileCoverage>::empty());
        }
        while i < n
            invariant
                0 <= i <= n,
                width as nat == spec_max_path_len(report.files@.take(i as int)),
            decreases n - i,
        {
            proof {
                lemma_max_path_take(report.files@, i as int);
            }
            let len = report.files[i].path.as_str().unicode_len();
            if len > width {
                width = len;
            }
            i = i + 1;
        }
        proof {
            assert(report.files@.take(n as int) =~= report.files@);
        }
        let floor: usize = if self.min_path_width >= 5 {
            self.min_path_width
        } else {
            5
        };
        if floor > width {
            width = floor;
        }
        let sep_len = crate::symbols::sat_add(width, 45);

        let mut out: Vec<char> = Vec::new();
        append_str(&mut out, "Coverage Report (session: ");
        proof {
            assert(Seq::<char>::empty() + "Coverage Report (session: "@
                =~= "Coverage Report (session: "@);
        }
        match &report.session_id {
            Some(sid) => append_str(&mut out, sid.as_str()),
            None => append_str(&mut out, "none"),
        }
        append_str(&mut out, ")\n");
        append_repeat(&mut out, '\u{2500}', sep_len);
        append_str(&mut out, "\n");
        let col_file = chars_of("File");
        append_pad_right(&mut out, &col_file, width);
        append_str(&mut out, " ");
        let col_symbols = chars_of("Symbols");
        append_pad_left(&mut out, &col_symbols, 8);
        append_str(&mut out, " ");
        let col_seen = chars_of("Seen");
        append_pad_left(&mut out, &col_seen, 7);
        append_str(&mut out, " ");
        let col_full = chars_of("Full");
        append_pad_left(&mut out, &col_full, 7);
        append_str(&mut out, " ");
        let col_seen_pct = chars_of("Seen%");
        append_pad_left(&mut out, &col_seen_pct, 7);
        append_str(&mut out, " ");
        let col_full_pct = chars_of("Full%");
        append_pad_left(&mut out, &col_full_pct, 7);
        append_str(&mut out, "\n");
        append_repeat(&mut out, '\u{2500}', sep_len);
        append_str(&mut out, "\n");
        proof {
            assert(out@ == spec_report_prefix(
                report.session_id,
                report.files@,
                self.min_path_width as nat,
            ));
        }

        let ghost prefix = out@;
        let mut i: usize = 0;
        proof {
            assert(out@ =~= prefix + spec_fmt_rows(report.files@.take(0), width as nat));
        }
        while i < n
            invariant
                0 <= i <= n,
                out@ == prefix + spec_fmt_rows(report.files@.take(i as int), width as nat),
            decreases n - i,
        {
            proof {
                lemma_fmt_rows_take(report.files@, i as int, width as nat);
            }
            let file = &report.files[i];
            let name = chars_of(file.path.as_str());
            append_fmt_line(
                &mut out,
                &name,
                file.total_symbols,
                file.seen_count,
                file.full_count,
                width,
            );
            proof {
                assert(out@ =~= prefix + spec_fmt_rows(
                    report.files@.take(i + 1),
                    width as nat,
                ));
            }
            i = i + 1;
        }
        proof {
            assert(report.files@.take(n as int) =~= report.files@);
        }

        append_repeat(&mut out, '\u{2500}', sep_len);
        append_str(&mut out, "\n");
        let total = report.total_symbols();
        let seen = report.total_seen();
        let full = report.total_full();
        let label = chars_of("TOTAL");
        append_fmt_line(&mut out, &label, total, seen, full, width);
        chars_to_string(&out)
    }
}

impl CoverageFormatter for TextFormatter {
    fn format(&self, report: &CoverageReport) -> String {
        TextFormatter::format(self, report)
    }
}

} // verus!

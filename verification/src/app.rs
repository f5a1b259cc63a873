//! The event matcher: mapping one agent tool-call event onto the symbols it
//! observed, and writing those observations into the context ledger.

use vstd::multiset::Multiset;
use vstd::prelude::*;

use crate::coverage::{
    spec_full_count, spec_seen_count, spec_status_from_counts, FileCoverageStatus,
};
use crate::ingest::AgentToolCall;
use crate::symbols::{
    spec_cap_usize, spec_forest_count, FileSymbols, ProjectTree, Span, SymbolNode,
};
use crate::text::{chars_of, chars_to_string, spec_digits, spec_lex_le, str_eq};
use crate::tracking::{spec_depth_of, spec_record, ContextLedger, EntryModel, ReadDepth};

verus! {

/// Whether `s` contains the id separator `::` anywhere.
pub open spec fn spec_has_sep(s: Seq<char>) -> bool {
    exists|i: int| 0 <= i && i + 2 <= s.len() && (#[trigger] s[i]) == ':' && s[i + 1] == ':'
}

/// What follows the last `::` separator of `s` (taking separators
/// non-overlapping from the left, as splitting on `::` does); all of `s` when
/// it has no separator.
pub open spec fn spec_after_seps(s: Seq<char>) -> Seq<char>
    decreases s.len(),
{
    if s.len() < 2 {
        s
    } else if s[0] == ':' && s[1] == ':' {
        spec_after_seps(s.skip(2))
    } else if spec_has_sep(s) {
        spec_after_seps(s.skip(1))
    } else {
        s
    }
}

/// Whether a symbol with id `id` and display name `name` matches the target
/// name `target`: the final segment of the id (after the last `::`) equals
/// `target`, or ends with `/` followed by `target`, or the display name
/// equals `target`.
pub open spec fn spec_name_matches(id: Seq<char>, name: Seq<char>, target: Seq<char>) -> bool {
    let seg = spec_after_seps(id);
    ||| seg == target
    ||| (seg.len() > target.len() && seg[seg.len() - target.len() - 1] == '/' && seg.skip(
        seg.len() - target.len(),
    ) == target)
    ||| name == target
}

/// Strict half-open overlap of two line ranges: touching ranges do not
/// overlap.
pub open spec fn spec_lines_overlap(node: Span, target: Span) -> bool {
    node.start < target.end && target.start < node.end
}

/// Whether a symbol matches the event's targeting: by name path, or by line
/// overlap.
pub open spec fn spec_matches_target(sym: SymbolNode, ev: AgentToolCall) -> bool {
    ||| (ev.target_symbol is Some && spec_name_matches(sym.id@, sym.name@, ev.target_symbol->0@))
    ||| (ev.target_lines is Some && spec_lines_overlap(sym.line_range, ev.target_lines->0))
}

/// Touching half-open ranges never overlap: if one ends where the other
/// starts, neither matches the other.
pub proof fn lemma_touching_ranges_no_overlap(a: Span, b: Span)
    requires
        a.end <= b.start || b.end <= a.start,
    ensures
        !spec_lines_overlap(a, b),
{
}

/// The ledger after recording every symbol of the forest `nodes`, and all of
/// their descendants, at the event's depth, in document order.
pub open spec fn spec_mark_all(
    nodes: Seq<SymbolNode>,
    ev: AgentToolCall,
    m: Map<Seq<char>, EntryModel>,
) -> Map<Seq<char>, EntryModel>
    decreases nodes,
{
    if nodes.len() == 0 {
        m
    } else {
        let m1 = spec_record(
            m,
            nodes[0].id@,
            ev.read_depth,
            nodes[0].content_hash@,
            ev.agent_id@,
            nodes[0].estimated_tokens as nat,
        );
        let m2 = spec_mark_all(nodes[0].children@, ev, m1);
        spec_mark_all(nodes.skip(1), ev, m2)
    }
}

/// The ledger after targeted marking of the forest `nodes`: a matching node
/// is recorded and its whole subtree cascades at the same depth; a
/// non-matching node is never recorded itself but its children are searched.
pub open spec fn spec_mark_targeted(
    nodes: Seq<SymbolNode>,
    ev: AgentToolCall,
    m: Map<Seq<char>, EntryModel>,
) -> Map<Seq<char>, EntryModel>
    decreases nodes,
{
    if nodes.len() == 0 {
        m
    } else {
        let m1 = if spec_matches_target(nodes[0], ev) {
            spec_mark_all(
                nodes[0].children@,
                ev,
                spec_record(
                    m,
                    nodes[0].id@,
                    ev.read_depth,
                    nodes[0].content_hash@,
                    ev.agent_id@,
                    nodes[0].estimated_tokens as nat,
                ),
            )
        } else {
            spec_mark_targeted(nodes[0].children@, ev, m)
        };
        spec_mark_targeted(nodes.skip(1), ev, m1)
    }
}

pub(crate) proof fn lemma_mark_all_append(
    s1: Seq<SymbolNode>,
    s2: Seq<SymbolNode>,
    ev: AgentToolCall,
    m: Map<Seq<char>, EntryModel>,
)
    ensures
        spec_mark_all(s1 + s2, ev, m) == spec_mark_all(s2, ev, spec_mark_all(s1, ev, m)),
    decreases s1.len(),
{
    if s1.len() == 0 {
        assert(s1 + s2 =~= s2);
    } else {
        let all = s1 + s2;
        assert(all[0] == s1[0]);
        assert(all.len() > 0);
        let m1 = spec_record(
            m,
            s1[0].id@,
            ev.read_depth,
            s1[0].content_hash@,
            ev.agent_id@,
            s1[0].estimated_tokens as nat,
        );
        let m2 = spec_mark_all(s1[0].children@, ev, m1);
        assert(all.skip(1) =~= s1.skip(1) + s2);
        lemma_mark_all_append(s1.skip(1), s2, ev, m2);
    }
}

pub(crate) proof fn lemma_mark_targeted_append(
    s1: Seq<SymbolNode>,
    s2: Seq<SymbolNode>,
    ev: AgentToolCall,
    m: Map<Seq<char>, EntryModel>,
)
    ensures
        spec_mark_targeted(s1 + s2, ev, m) == spec_mark_targeted(
            s2,
            ev,
            spec_mark_targeted(s1, ev, m),
        ),
    decreases s1.len(),
{
    if s1.len() == 0 {
        assert(s1 + s2 =~= s2);
    } else {
        let all = s1 + s2;
        assert(all[0] == s1[0]);
        let m1 = if spec_matches_target(s1[0], ev) {
            spec_mark_all(
                s1[0].children@,
                ev,
                spec_record(
                    m,
                    s1[0].id@,
                    ev.read_depth,
                    s1[0].content_hash@,
                    ev.agent_id@,
                    s1[0].estimated_tokens as nat,
                ),
            )
        } else {
            spec_mark_targeted(s1[0].children@, ev, m)
        };
        assert(all.skip(1) =~= s1.skip(1) + s2);
        lemma_mark_targeted_append(s1.skip(1), s2, ev, m1);
    }
}

proof fn lemma_mark_all_singleton(x: SymbolNode, ev: AgentToolCall, m: Map<Seq<char>, EntryModel>)
    ensures
        spec_mark_all(seq![x], ev, m) == spec_mark_all(
            x.children@,
            ev,
            spec_record(m, x.id@, ev.read_depth, x.content_hash@, ev.agent_id@, x.estimated_tokens as nat),
        ),
{
    let s = seq![x];
    assert(s[0] == x);
    assert(s.skip(1) =~= Seq::<SymbolNode>::empty());
    let m1 = spec_record(m, x.id@, ev.read_depth, x.content_hash@, ev.agent_id@, x.estimated_tokens as nat);
    let m2 = spec_mark_all(x.children@, ev, m1);
    assert(spec_mark_all(s.skip(1), ev, m2) == m2);
}

proof fn lemma_mark_targeted_singleton(x: SymbolNode, ev: AgentToolCall, m: Map<Seq<char>, EntryModel>)
    ensures
        spec_mark_targeted(seq![x], ev, m) == ({
            if spec_matches_target(x, ev) {
                spec_mark_all(
                    x.children@,
                    ev,
                    spec_record(m, x.id@, ev.read_depth, x.content_hash@, ev.agent_id@, x.estimated_tokens as nat),
                )
            } else {
                spec_mark_targeted(x.children@, ev, m)
            }
        }),
{
    let s = seq![x];
    assert(s[0] == x);
    assert(s.skip(1) =~= Seq::<SymbolNode>::empty());
    let m1 = if spec_matches_target(x, ev) {
        spec_mark_all(
            x.children@,
            ev,
            spec_record(m, x.id@, ev.read_depth, x.content_hash@, ev.agent_id@, x.estimated_tokens as nat),
        )
    } else {
        spec_mark_targeted(x.children@, ev, m)
    };
    assert(spec_mark_targeted(s.skip(1), ev, m1) == m1);
}

/// Index where the final id segment starts: everything from here on is what
/// follows the last `::`.
#[verifier::loop_isolation(false)]
fn last_segment_start(v: &Vec<char>) -> (r: usize)
    ensures
        r <= v@.len(),
        v@.skip(r as int) == spec_after_seps(v@),
{
    let n = v.len();
    let mut i: usize = 0;
    let mut seg: usize = 0;
    proof {
        assert(v@.skip(0) =~= v@);
    }
    while i < n
        invariant
            0 <= seg <= i,
            i <= n,
            n == v@.len(),
            spec_after_seps(v@) == spec_after_seps(v@.skip(seg as int)),
            forall|j: int|
                seg <= j < i && j + 2 <= n ==> !((#[trigger] v@[j]) == ':' && v@[j + 1] == ':'),
        decreases n - i,
    {
        if i + 1 < n && v[i] == ':' && v[i + 1] == ':' {
            proof {
                lemma_after_seps_first_sep(v@.skip(seg as int), i - seg);
                assert(v@.skip(seg as int).skip(i - seg + 2) =~= v@.skip(i + 2));
            }
            i = i + 2;
            seg = i;
        } else {
            i = i + 1;
        }
    }
    proof {
        let t = v@.skip(seg as int);
        assert forall|k: int| !(0 <= k && k + 2 <= t.len() && (#[trigger] t[k]) == ':' && t[k + 1] == ':') by {
            if 0 <= k && k + 2 <= t.len() {
                assert(t[k] == v@[seg + k]);
                assert(t[k + 1] == v@[seg + k + 1]);
            }
        }
        assert(!spec_has_sep(t));
        if t.len() >= 2 {
            assert(!(t[0] == ':' && t[1] == ':'));
        }
        assert(spec_after_seps(t) == t);
    }
    seg
}

/// `spec_after_seps` jumps over a leading separator-free stretch: if the
/// first separator of `t` sits at `k`, the final segment of `t` is the final
/// segment of what follows that separator.
proof fn lemma_after_seps_first_sep(t: Seq<char>, k: int)
    requires
        0 <= k,
        k + 2 <= t.len(),
        t[k] == ':',
        t[k + 1] == ':',
        forall|j: int| 0 <= j < k ==> !((#[trigger] t[j]) == ':' && t[j + 1] == ':'),
    ensures
        spec_after_seps(t) == spec_after_seps(t.skip(k + 2)),
    decreases k,
{
    if k == 0 {
    } else {
        assert(spec_has_sep(t));
        assert(!(t[0] == ':' && t[1] == ':'));
        let u = t.skip(1);
        assert forall|j: int| 0 <= j < k - 1 implies !((#[trigger] u[j]) == ':' && u[j + 1]
            == ':') by {
            assert(u[j] == t[j + 1]);
            assert(u[j + 1] == t[j + 2]);
        }
        assert(u[k - 1] == t[k]);
        assert(u[k] == t[k + 1]);
        lemma_after_seps_first_sep(u, k - 1);
        assert(u.skip(k + 1) =~= t.skip(k + 2));
    }
}

/// Whether `v` equals `w` from position `start` to the end.
#[verifier::loop_isolation(false)]
fn tail_eq(v: &Vec<char>, start: usize, w: &Vec<char>) -> (r: bool)
    requires
        start <= v@.len(),
    ensures
        r == (v@.skip(start as int) == w@),
{
    if v.len() - start != w.len() {
        proof {
            assert(v@.skip(start as int).len() != w@.len());
        }
        return false;
    }
    let mut k: usize = 0;
    while k < w.len()
        invariant
            start <= v@.len(),
            v@.len() - start == w@.len(),
            0 <= k <= w@.len(),
            forall|j: int| 0 <= j < k ==> v@[start + j] == w@[j],
        decreases w@.len() - k,
    {
        if v[start + k] != w[k] {
            proof {
                assert(v@.skip(start as int)[k as int] == v@[start + k]);
            }
            return false;
        }
        k = k + 1;
    }
    proof {
        assert(v@.skip(start as int) =~= w@);
    }
    true
}

/// Check whether a symbol matches the event's `target_symbol` or
/// `target_lines`.
#[verifier::rlimit(50)]
pub fn symbol_matches_target(sym: &SymbolNode, event: &AgentToolCall) -> (r: bool)
    ensures
        r == spec_matches_target(*sym, *event),
{
    let name_hit = match &event.target_symbol {
        Some(target) => {
            let v = chars_of(sym.id.as_str());
            let w = chars_of(target.as_str());
            let seg = last_segment_start(&v);
            let seg_len = v.len() - seg;
            let whole = tail_eq(&v, seg, &w);
            let suffixed = if !whole && seg_len > w.len() {
                let slash_at = v.len() - w.len() - 1;
                let slash = v[slash_at] == '/';
                let tail = tail_eq(&v, slash_at + 1, &w);
                proof {
                    let s = spec_after_seps(sym.id@);
                    assert(s =~= v@.skip(seg as int));
                    assert(s.skip(s.len() - w@.len()) =~= v@.skip(slash_at + 1));
                    assert(s[s.len() - w@.len() - 1] == v@[slash_at as int]);
                }
                slash && tail
            } else {
                proof {
                    let s = spec_after_seps(sym.id@);
                    assert(s =~= v@.skip(seg as int));
                }
                false
            };
            let by_name = str_eq(sym.name.as_str(), target.as_str());
            whole || suffixed || by_name
        },
        None => false,
    };
    if name_hit {
        return true;
    }
    match &event.target_lines {
        Some(range) => sym.line_range.start < range.end && range.start < sym.line_range.end,
        None => false,
    }
}

/// Record every symbol of the forest, and all descendants, at the event's
/// depth.
#[verifier::loop_isolation(false)]
pub fn mark_file_symbols(symbols: &Vec<SymbolNode>, event: &AgentToolCall, ledger: &mut ContextLedger)
    requires
        old(ledger).wf(),
    ensures
        final(ledger).wf(),
        final(ledger)@ == spec_mark_all(symbols@, *event, old(ledger)@),
    decreases spec_forest_count(symbols@),
{
    let n = symbols.len();
    let mut i: usize = 0;
    proof {
        assert(symbols@.take(0) =~= Seq::<SymbolNode>::empty());
    }
    while i < n
        invariant
            0 <= i <= n,
            ledger.wf(),
            ledger@ == spec_mark_all(symbols@.take(i as int), *event, old(ledger)@),
        decreases n - i,
    {
        let sym = &symbols[i];
        proof {
            crate::symbols::lemma_subtree_count_element(symbols@, i as int);
            assert(symbols@.take(i + 1) =~= symbols@.take(i as int) + seq![symbols@[i as int]]);
            lemma_mark_all_append(
                symbols@.take(i as int),
                seq![symbols@[i as int]],
                *event,
                old(ledger)@,
            );
            lemma_mark_all_singleton(symbols@[i as int], *event, ledger@);
        }
        ledger.record(
            sym.id.clone(),
            event.read_depth,
            crate::text::clone_bytes(&sym.content_hash),
            event.agent_id.clone(),
            sym.estimated_tokens,
        );
        mark_file_symbols(&sym.children, event, ledger);
        i = i + 1;
    }
    proof {
        assert(symbols@.take(n as int) =~= symbols@);
    }
}

/// Mark only the symbols that match the event's targeting. A match records
/// the node and cascades the same depth to its whole subtree; on no match the
/// children are searched; a forest where nothing matches writes nothing.
#[verifier::loop_isolation(false)]
pub fn mark_targeted_symbols(
    symbols: &Vec<SymbolNode>,
    event: &AgentToolCall,
    ledger: &mut ContextLedger,
)
    requires
        old(ledger).wf(),
    ensures
        final(ledger).wf(),
        final(ledger)@ == spec_mark_targeted(symbols@, *event, old(ledger)@),
    decreases spec_forest_count(symbols@),
{
    let n = symbols.len();
    let mut i: usize = 0;
    proof {
        assert(symbols@.take(0) =~= Seq::<SymbolNode>::empty());
    }
    while i < n
        invariant
            0 <= i <= n,
            ledger.wf(),
            ledger@ == spec_mark_targeted(symbols@.take(i as int), *event, old(ledger)@),
        decreases n - i,
    {
        let sym = &symbols[i];
        proof {
            crate::symbols::lemma_subtree_count_element(symbols@, i as int);
            assert(symbols@.take(i + 1) =~= symbols@.take(i as int) + seq![symbols@[i as int]]);
            lemma_mark_targeted_append(
                symbols@.take(i as int),
                seq![symbols@[i as int]],
                *event,
                old(ledger)@,
            );
            lemma_mark_targeted_singleton(symbols@[i as int], *event, ledger@);
        }
        if symbol_matches_target(sym, event) {
            ledger.record(
                sym.id.clone(),
                event.read_depth,
                crate::text::clone_bytes(&sym.content_hash),
                event.agent_id.clone(),
                sym.estimated_tokens,
            );
            mark_file_symbols(&sym.children, event, ledger);
        } else {
            mark_targeted_symbols(&sym.children, event, ledger);
        }
        i = i + 1;
    }
    proof {
        assert(symbols@.take(n as int) =~= symbols@);
    }
}

/// A tool-call path reduced to the project tree's convention: an absolute
/// path loses the project-root prefix (when it has one); a relative path is
/// kept as it is.
pub open spec fn spec_normalize_tool_path(path: Seq<char>, root: Seq<char>) -> Seq<char> {
    if path.len() > 0 && path[0] == '/' {
        if path.len() > root.len() && path.take(root.len() as int) == root && path[root.len() as int]
            == '/' {
            path.skip(root.len() as int + 1)
        } else if path == root {
            Seq::empty()
        } else {
            path
        }
    } else {
        path
    }
}

/// Convert a tool-call file path (usually absolute) to a path relative to the
/// project root, matching the project tree's convention.
#[verifier::loop_isolation(false)]
pub fn normalize_tool_path(tool_path: &str, project_root: &str) -> (r: String)
    ensures
        r@ == spec_normalize_tool_path(tool_path@, project_root@),
{
    let v = chars_of(tool_path);
    let w = chars_of(project_root);
    if v.len() == 0 || v[0] != '/' {
        return tool_path.to_owned();
    }
    if v.len() > w.len() {
        let mut k: usize = 0;
        let mut prefix = true;
        proof {
            assert(v@.take(0) =~= w@.take(0));
        }
        while k < w.len()
            invariant
                0 <= k <= w@.len(),
                prefix == (v@.take(k as int) == w@.take(k as int)),
            decreases w@.len() - k,
        {
            let eq_here = v[k] == w[k];
            proof {
                assert(v@.take(k + 1) =~= v@.take(k as int).push(v@[k as int]));
                assert(w@.take(k + 1) =~= w@.take(k as int).push(w@[k as int]));
                if v@[k as int] != w@[k as int] {
                    assert(v@.take(k + 1)[k as int] != w@.take(k + 1)[k as int]);
                }
                if v@.take(k as int) != w@.take(k as int) {
                    assert(v@.take(k + 1) != w@.take(k + 1)) by {
                        if v@.take(k + 1) == w@.take(k + 1) {
                            assert(v@.take(k + 1).take(k as int) =~= v@.take(k as int));
                            assert(w@.take(k + 1).take(k as int) =~= w@.take(k as int));
                        }
                    }
                }
            }
            if !eq_here {
                prefix = false;
            }
            k = k + 1;
        }
        proof {
            assert(w@.take(w@.len() as int) =~= w@);
        }
        if prefix && v[w.len()] == '/' {
            let mut out: Vec<char> = Vec::new();
            let mut j: usize = w.len() + 1;
            proof {
                assert(v@.subrange(w@.len() as int + 1, w@.len() as int + 1) =~= Seq::<char>::empty());
            }
            while j < v.len()
                invariant
                    w@.len() + 1 <= j <= v@.len(),
                    out@ == v@.subrange(w@.len() as int + 1, j as int),
                decreases v@.len() - j,
            {
                out.push(v[j]);
                proof {
                    assert(v@.subrange(w@.len() as int + 1, j + 1) =~= v@.subrange(
                        w@.len() as int + 1,
                        j as int,
                    ).push(v@[j as int]));
                }
                j = j + 1;
            }
            proof {
                assert(v@.subrange(w@.len() as int + 1, v@.len() as int) =~= v@.skip(w@.len() as int + 1));
            }
            return chars_to_string(&out);
        }
        proof {
            assert(tool_path@ != project_root@);
        }
        return tool_path.to_owned();
    }
    // The path is absolute but no longer than the root: either it equals the
    // root (normalizes to the empty path) or it is kept unchanged.
    if str_eq(tool_path, project_root) {
        String::new()
    } else {
        tool_path.to_owned()
    }
}

/// The ledger after one event is applied against the project's files: every
/// file whose path equals the normalized tool path is marked — targeted when
/// the event targets a name or lines, whole-file otherwise.
pub open spec fn spec_apply_event_to_files(
    files: Seq<FileSymbols>,
    rel: Seq<char>,
    ev: AgentToolCall,
    m: Map<Seq<char>, EntryModel>,
) -> Map<Seq<char>, EntryModel>
    decreases files.len(),
{
    if files.len() == 0 {
        m
    } else {
        let m1 = if files[0].file_path@ == rel {
            if ev.target_symbol is Some || ev.target_lines is Some {
                spec_mark_targeted(files[0].symbols@, ev, m)
            } else {
                spec_mark_all(files[0].symbols@, ev, m)
            }
        } else {
            m
        };
        spec_apply_event_to_files(files.skip(1), rel, ev, m1)
    }
}

/// The ledger after one event: nothing changes for an event without a file
/// path; otherwise the path is normalized against the project root and the
/// matching files are marked.
pub open spec fn spec_process_event(
    tree: ProjectTree,
    ev: AgentToolCall,
    m: Map<Seq<char>, EntryModel>,
) -> Map<Seq<char>, EntryModel> {
    if ev.file_path is Some {
        spec_apply_event_to_files(
            tree.files@,
            spec_normalize_tool_path(ev.file_path->0@, tree.root@),
            ev,
            m,
        )
    } else {
        m
    }
}

proof fn lemma_apply_event_take_step(
    files: Seq<FileSymbols>,
    i: int,
    rel: Seq<char>,
    ev: AgentToolCall,
    m: Map<Seq<char>, EntryModel>,
)
    requires
        0 <= i < files.len(),
    ensures
        spec_apply_event_to_files(files.take(i + 1), rel, ev, m) == ({
            let m0 = spec_apply_event_to_files(files.take(i), rel, ev, m);
            if files[i].file_path@ == rel {
                if ev.target_symbol is Some || ev.target_lines is Some {
                    spec_mark_targeted(files[i].symbols@, ev, m0)
                } else {
                    spec_mark_all(files[i].symbols@, ev, m0)
                }
            } else {
                m0
            }
        }),
    decreases i,
{
    let t1 = files.take(i + 1);
    let t0 = files.take(i);
    if i == 0 {
        assert(t1.skip(1) =~= Seq::<FileSymbols>::empty());
        assert(t0 =~= Seq::<FileSymbols>::empty());
        assert(t1[0] == files[0]);
        assert(spec_apply_event_to_files(t0, rel, ev, m) == m);
        let m1 = ({
            if files[0].file_path@ == rel {
                if ev.target_symbol is Some || ev.target_lines is Some {
                    spec_mark_targeted(files[0].symbols@, ev, m)
                } else {
                    spec_mark_all(files[0].symbols@, ev, m)
                }
            } else {
                m
            }
        });
        assert(spec_apply_event_to_files(t1.skip(1), rel, ev, m1) == m1);
    } else {
        lemma_apply_event_take_step(files.skip(1), i - 1, rel, ev, ({
            if files[0].file_path@ == rel {
                if ev.target_symbol is Some || ev.target_lines is Some {
                    spec_mark_targeted(files[0].symbols@, ev, m)
                } else {
                    spec_mark_all(files[0].symbols@, ev, m)
                }
            } else {
                m
            }
        }));
        assert(t1.skip(1) =~= files.skip(1).take(i));
        assert(t0.skip(1) =~= files.skip(1).take(i - 1));
        assert(t1[0] == files[0]);
        assert(t0[0] == files[0]);
        assert(files.skip(1)[i - 1] == files[i]);
    }
}

/// Apply one agent tool-call event to the ledger, against the current
/// project tree: normalize the event's path, find the matching files, and
/// mark their symbols at the event's depth.
#[verifier::loop_isolation(false)]
pub fn process_agent_event(tree: &ProjectTree, ledger: &mut ContextLedger, event: &AgentToolCall)
    requires
        old(ledger).wf(),
    ensures
        final(ledger).wf(),
        final(ledger)@ == spec_process_event(*tree, *event, old(ledger)@),
{
    let file_path = match &event.file_path {
        Some(p) => p,
        None => {
            return ;
        },
    };
    let rel = normalize_tool_path(file_path.as_str(), tree.root.as_str());
    let targeted = event.target_symbol.is_some() || event.target_lines.is_some();
    let n = tree.files.len();
    let mut i: usize = 0;
    proof {
        assert(tree.files@.take(0) =~= Seq::<FileSymbols>::empty());
    }
    while i < n
        invariant
            0 <= i <= n,
            ledger.wf(),
            ledger@ == spec_apply_event_to_files(
                tree.files@.take(i as int),
                rel@,
                *event,
                old(ledger)@,
            ),
        decreases n - i,
    {
        proof {
            lemma_apply_event_take_step(tree.files@, i as int, rel@, *event, old(ledger)@);
        }
        let file = &tree.files[i];
        if str_eq(file.file_path.as_str(), rel.as_str()) {
            if targeted {
                mark_targeted_symbols(&file.symbols, event, ledger);
            } else {
                mark_file_symbols(&file.symbols, event, ledger);
            }
        }
        i = i + 1;
    }
    proof {
        assert(tree.files@.take(n as int) =~= tree.files@);
    }
}


/// Whether targeted marking of this forest reaches `id`: some node matches
/// the event and carries `id` in its subtree (itself included), or a
/// non-matching node's children are searched and reach it.
pub open spec fn spec_forest_covers(nodes: Seq<SymbolNode>, ev: AgentToolCall, id: Seq<char>) -> bool
    decreases nodes,
{
    nodes.len() > 0 && {
        ||| (spec_matches_target(nodes[0], ev) && (nodes[0].id@ == id
            || crate::reconcile::spec_forest_has_id(nodes[0].children@, id)))
        ||| (!spec_matches_target(nodes[0], ev) && spec_forest_covers(nodes[0].children@, ev, id))
        ||| spec_forest_covers(nodes.skip(1), ev, id)
    }
}

/// Whole-file marking records exactly the ids the forest carries: after
/// `spec_mark_all`, an id the forest carries reads at the deeper of its old
/// depth and the event's depth, and any other id is untouched.
pub proof fn lemma_mark_all_depth(
    nodes: Seq<SymbolNode>,
    ev: AgentToolCall,
    m: Map<Seq<char>, EntryModel>,
    id: Seq<char>,
)
    requires
        ev.read_depth != crate::tracking::ReadDepth::Stale,
    ensures
        crate::tracking::spec_depth_of(spec_mark_all(nodes, ev, m), id).spec_rank() == ({
            let before = crate::tracking::spec_depth_of(m, id).spec_rank();
            let d = ev.read_depth.spec_rank();
            if crate::reconcile::spec_forest_has_id(nodes, id) {
                if d > before {
                    d
                } else {
                    before
                }
            } else {
                before
            }
        }),
    decreases nodes,
{
    if nodes.len() > 0 {
        let m1 = spec_record(
            m,
            nodes[0].id@,
            ev.read_depth,
            nodes[0].content_hash@,
            ev.agent_id@,
            nodes[0].estimated_tokens as nat,
        );
        let m2 = spec_mark_all(nodes[0].children@, ev, m1);
        lemma_mark_all_depth(nodes[0].children@, ev, m1, id);
        lemma_mark_all_depth(nodes.skip(1), ev, m2, id);
    }
}

/// Cascade on a container match: when a matching node's subtree carries
/// `id` — even if no nested symbol matches on its own — targeted marking
/// raises `id` to the event's depth (or keeps its deeper old depth); an id
/// the targeting never reaches keeps its depth exactly. In particular, on a
/// fresh ledger every descendant of a matched container ends up recorded at
/// the event's depth.
pub proof fn lemma_cascade_on_container_match(
    nodes: Seq<SymbolNode>,
    ev: AgentToolCall,
    m: Map<Seq<char>, EntryModel>,
    id: Seq<char>,
)
    requires
        ev.read_depth != crate::tracking::ReadDepth::Stale,
    ensures
        crate::tracking::spec_depth_of(spec_mark_targeted(nodes, ev, m), id).spec_rank() == ({
            let before = crate::tracking::spec_depth_of(m, id).spec_rank();
            let d = ev.read_depth.spec_rank();
            if spec_forest_covers(nodes, ev, id) {
                if d > before {
                    d
                } else {
                    before
                }
            } else {
                before
            }
        }),
    decreases nodes,
{
    if nodes.len() > 0 {
        if spec_matches_target(nodes[0], ev) {
            let m0 = spec_record(
                m,
                nodes[0].id@,
                ev.read_depth,
                nodes[0].content_hash@,
                ev.agent_id@,
                nodes[0].estimated_tokens as nat,
            );
            let m1 = spec_mark_all(nodes[0].children@, ev, m0);
            lemma_mark_all_depth(nodes[0].children@, ev, m0, id);
            lemma_cascade_on_container_match(nodes.skip(1), ev, m1, id);
        } else {
            let m1 = spec_mark_targeted(nodes[0].children@, ev, m);
            lemma_cascade_on_container_match(nodes[0].children@, ev, m, id);
            lemma_cascade_on_container_match(nodes.skip(1), ev, m1, id);
        }
    }
}


/// How files are sorted in the tree view.
#[derive(Debug, Clone, Copy, PartialEq, Eq, Structural)]
pub enum SortMode {
    Alphabetical,
    ByCoverage,
}

/// Which panel has focus.
#[derive(Debug, Clone, Copy, PartialEq, Eq, Structural)]
pub enum FocusPanel {
    Tree,
    Stats,
    Activity,
}

/// What one tree-view row shows, as plain values.
pub ghost struct TreeRowModel {
    pub symbol_id: Seq<char>,
    pub display_name: Seq<char>,
    pub label: Seq<char>,
    pub depth: nat,
    pub is_file: bool,
    pub is_expanded: bool,
    pub has_children: bool,
    pub line_range: Seq<char>,
    pub token_count: nat,
    pub read_depth: ReadDepth,
    pub coverage_status: Option<FileCoverageStatus>,
    pub file_coverage_seen: nat,
    pub file_coverage_total: nat,
}

/// A flattened row in the tree view, ready for rendering.
#[derive(Debug, Clone)]
pub struct TreeRow {
    pub symbol_id: String,
    pub display_name: String,
    /// Language-specific label (e.g. "class", "def", "fn").
    pub label: String,
    /// Nesting depth, for indentation.
    pub depth: usize,
    /// True for file header rows.
    pub is_file: bool,
    pub is_expanded: bool,
    pub has_children: bool,
    pub line_range: String,
    pub token_count: usize,
    pub read_depth: ReadDepth,
    pub coverage_status: Option<FileCoverageStatus>,
    pub file_coverage_seen: usize,
    pub file_coverage_total: usize,
}

impl View for TreeRow {
    type V = TreeRowModel;

    open spec fn view(&self) -> TreeRowModel {
        TreeRowModel {
            symbol_id: self.symbol_id@,
            display_name: self.display_name@,
            label: self.label@,
            depth: self.depth as nat,
            is_file: self.is_file,
            is_expanded: self.is_expanded,
            has_children: self.has_children,
            line_range: self.line_range@,
            token_count: self.token_count as nat,
            read_depth: self.read_depth,
            coverage_status: self.coverage_status,
            file_coverage_seen: self.file_coverage_seen as nat,
            file_coverage_total: self.file_coverage_total as nat,
        }
    }
}

/// Whether `set` holds a string whose characters are `id`.
pub open spec fn spec_contains_str(set: Seq<String>, id: Seq<char>) -> bool {
    exists|i: int| 0 <= i < set.len() && (#[trigger] set[i])@ == id
}

fn contains_str(set: &Vec<String>, id: &str) -> (r: bool)
    ensures
        r == spec_contains_str(set@, id@),
{
    let mut i: usize = 0;
    while i < set.len()
        invariant
            0 <= i <= set@.len(),
            forall|j: int| 0 <= j < i ==> (#[trigger] set@[j])@ != id@,
        decreases set@.len() - i,
    {
        if str_eq(set[i].as_str(), id) {
            return true;
        }
        i = i + 1;
    }
    false
}

/// A symbol row's line-range label: `L<start>-<end>`.
pub open spec fn spec_line_label(r: Span) -> Seq<char> {
    "L"@ + spec_digits(r.start as nat) + "-"@ + spec_digits(r.end as nat)
}

/// A file row's line-count label: `<lines> lines`.
pub open spec fn spec_lines_label(n: nat) -> Seq<char> {
    spec_digits(n) + " lines"@
}

/// The row shown for one symbol.
pub open spec fn spec_symbol_row(
    sym: SymbolNode,
    depth: nat,
    collapsed: Seq<String>,
    m: Map<Seq<char>, EntryModel>,
) -> TreeRowModel {
    TreeRowModel {
        symbol_id: sym.id@,
        display_name: sym.name@,
        label: sym.label@,
        depth,
        is_file: false,
        is_expanded: !spec_contains_str(collapsed, sym.id@),
        has_children: sym.children@.len() > 0,
        line_range: spec_line_label(sym.line_range),
        token_count: sym.estimated_tokens as nat,
        read_depth: spec_depth_of(m, sym.id@),
        coverage_status: None,
        file_coverage_seen: 0,
        file_coverage_total: 0,
    }
}

/// The rows for one symbol's subtree: the symbol itself, then — when it is
/// expanded — its children, one nesting level deeper.
pub open spec fn spec_flatten(
    sym: SymbolNode,
    depth: nat,
    collapsed: Seq<String>,
    m: Map<Seq<char>, EntryModel>,
) -> Seq<TreeRowModel>
    decreases sym,
{
    seq![spec_symbol_row(sym, depth, collapsed, m)] + (if !spec_contains_str(collapsed, sym.id@) {
        spec_flatten_forest(sym.children@, spec_cap_usize((depth + 1) as nat), collapsed, m)
    } else {
        Seq::empty()
    })
}

/// The rows for a forest of symbols, in document order.
pub open spec fn spec_flatten_forest(
    nodes: Seq<SymbolNode>,
    depth: nat,
    collapsed: Seq<String>,
    m: Map<Seq<char>, EntryModel>,
) -> Seq<TreeRowModel>
    decreases nodes,
{
    if nodes.len() == 0 {
        Seq::empty()
    } else {
        spec_flatten(nodes[0], depth, collapsed, m) + spec_flatten_forest(
            nodes.skip(1),
            depth,
            collapsed,
            m,
        )
    }
}

proof fn lemma_flatten_forest_take(
    nodes: Seq<SymbolNode>,
    i: int,
    depth: nat,
    collapsed: Seq<String>,
    m: Map<Seq<char>, EntryModel>,
)
    requires
        0 <= i < nodes.len(),
    ensures
        spec_flatten_forest(nodes.take(i + 1), depth, collapsed, m) == spec_flatten_forest(
            nodes.take(i),
            depth,
            collapsed,
            m,
        ) + spec_flatten(nodes[i], depth, collapsed, m),
    decreases nodes.len(), i,
{
    let t1 = nodes.take(i + 1);
    let t0 = nodes.take(i);
    let piece = spec_flatten(nodes[i], depth, collapsed, m);
    if i == 0 {
        assert(t1 =~= seq![nodes[0]]);
        assert(t0 =~= Seq::<SymbolNode>::empty());
        assert(t1.skip(1) =~= Seq::<SymbolNode>::empty());
        assert(t1[0] == nodes[0]);
        assert(piece + Seq::<TreeRowModel>::empty() =~= piece);
        assert(Seq::<TreeRowModel>::empty() + piece =~= piece);
    } else {
        lemma_flatten_forest_take(nodes.skip(1), i - 1, depth, collapsed, m);
        assert(t1.skip(1) =~= nodes.skip(1).take(i));
        assert(t0.skip(1) =~= nodes.skip(1).take(i - 1));
        assert(t1[0] == nodes[0]);
        assert(t0[0] == nodes[0]);
        assert(nodes.skip(1)[i - 1] == nodes[i]);
        let head = spec_flatten(nodes[0], depth, collapsed, m);
        assert((head + spec_flatten_forest(nodes.skip(1).take(i - 1), depth, collapsed, m))
            + piece =~= head + (spec_flatten_forest(nodes.skip(1).take(i - 1), depth, collapsed, m)
            + piece));
    }
}

/// Append the rows for one symbol's subtree: the symbol, then — when it is
/// not collapsed — all of its children, recursively, one level deeper.
#[verifier::loop_isolation(false)]
pub fn flatten_symbol(
    sym: &SymbolNode,
    depth: usize,
    collapsed: &Vec<String>,
    ledger: &ContextLedger,
    rows: &mut Vec<TreeRow>,
)
    requires
        ledger.wf(),
    ensures
        final(rows)@.map_values(|t: TreeRow| t@) == old(rows)@.map_values(|t: TreeRow| t@)
            + spec_flatten(*sym, depth as nat, collapsed@, ledger@),
    decreases crate::symbols::spec_subtree_count(*sym),
{
    let is_expanded = !contains_str(collapsed, sym.id.as_str());
    let read_depth = ledger.depth_of(sym.id.as_str());
    let mut line_range: Vec<char> = Vec::new();
    crate::text::append_str(&mut line_range, "L");
    let d_start = crate::text::usize_to_chars(sym.line_range.start);
    crate::text::append_chars(&mut line_range, &d_start);
    crate::text::append_str(&mut line_range, "-");
    let d_end = crate::text::usize_to_chars(sym.line_range.end);
    crate::text::append_chars(&mut line_range, &d_end);
    proof {
        assert(Seq::<char>::empty() + "L"@ =~= "L"@);
        assert(line_range@ =~= spec_line_label(sym.line_range));
    }
    let row = TreeRow {
        symbol_id: sym.id.clone(),
        display_name: sym.name.clone(),
        label: sym.label.clone(),
        depth,
        is_file: false,
        is_expanded,
        has_children: sym.children.len() > 0,
        line_range: chars_to_string(&line_range),
        token_count: sym.estimated_tokens,
        read_depth,
        coverage_status: None,
        file_coverage_seen: 0,
        file_coverage_total: 0,
    };
    let ghost before = rows@.map_values(|t: TreeRow| t@);
    proof {
        assert(row@ == spec_symbol_row(*sym, depth as nat, collapsed@, ledger@));
    }
    rows.push(row);
    proof {
        assert(rows@.map_values(|t: TreeRow| t@) =~= before.push(row@));
        assert(before.push(row@) =~= before + seq![
            spec_symbol_row(*sym, depth as nat, collapsed@, ledger@),
        ]);
    }
    if is_expanded {
        let child_depth = crate::symbols::sat_add(depth, 1);
        let n = sym.children.len();
        let mut i: usize = 0;
        proof {
            assert(sym.children@.take(0) =~= Seq::<SymbolNode>::empty());
            assert(rows@.map_values(|t: TreeRow| t@) =~= before + seq![
                spec_symbol_row(*sym, depth as nat, collapsed@, ledger@),
            ] + spec_flatten_forest(sym.children@.take(0), child_depth as nat, collapsed@, ledger@));
        }
        while i < n
            invariant
                0 <= i <= n,
                rows@.map_values(|t: TreeRow| t@) == before + seq![
                    spec_symbol_row(*sym, depth as nat, collapsed@, ledger@),
                ] + spec_flatten_forest(
                    sym.children@.take(i as int),
                    child_depth as nat,
                    collapsed@,
                    ledger@,
                ),
            decreases n - i,
        {
            proof {
                crate::symbols::lemma_subtree_count_element(sym.children@, i as int);
                lemma_flatten_forest_take(
                    sym.children@,
                    i as int,
                    child_depth as nat,
                    collapsed@,
                    ledger@,
                );
            }
            flatten_symbol(&sym.children[i], child_depth, collapsed, ledger, rows);
            proof {
                assert(rows@.map_values(|t: TreeRow| t@) =~= before + seq![
                    spec_symbol_row(*sym, depth as nat, collapsed@, ledger@),
                ] + spec_flatten_forest(
                    sym.children@.take(i + 1),
                    child_depth as nat,
                    collapsed@,
                    ledger@,
                ));
            }
            i = i + 1;
        }
        proof {
            assert(sym.children@.take(n as int) =~= sym.children@);
            assert(before + seq![spec_symbol_row(*sym, depth as nat, collapsed@, ledger@)]
                + spec_flatten_forest(sym.children@, child_depth as nat, collapsed@, ledger@)
                =~= before + spec_flatten(*sym, depth as nat, collapsed@, ledger@));
        }
    } else {
        proof {
            assert(before + seq![spec_symbol_row(*sym, depth as nat, collapsed@, ledger@)]
                =~= before + spec_flatten(*sym, depth as nat, collapsed@, ledger@));
        }
    }
}

/// The coverage classification of one file, as counted against the ledger.
pub open spec fn spec_file_status(f: FileSymbols, m: Map<Seq<char>, EntryModel>) -> FileCoverageStatus {
    spec_status_from_counts(
        spec_cap_usize(spec_forest_count(f.symbols@)),
        spec_cap_usize(spec_seen_count(f.symbols@, m)),
        spec_cap_usize(spec_full_count(f.symbols@, m)),
    )
}

/// The header row shown for one file.
pub open spec fn spec_file_row(
    f: FileSymbols,
    collapsed: Seq<String>,
    m: Map<Seq<char>, EntryModel>,
) -> TreeRowModel {
    let status = spec_file_status(f, m);
    TreeRowModel {
        symbol_id: f.file_path@,
        display_name: f.file_path@,
        label: Seq::empty(),
        depth: 0,
        is_file: true,
        is_expanded: !spec_contains_str(collapsed, f.file_path@),
        has_children: f.symbols@.len() > 0,
        line_range: spec_lines_label(f.total_lines as nat),
        token_count: 0,
        read_depth: if status != FileCoverageStatus::NotCovered {
            ReadDepth::NameOnly
        } else {
            ReadDepth::Unseen
        },
        coverage_status: Some(status),
        file_coverage_seen: spec_cap_usize(spec_seen_count(f.symbols@, m)),
        file_coverage_total: spec_cap_usize(spec_forest_count(f.symbols@)),
    }
}

/// The rows for one file: its header row, then — when it is expanded — its
/// whole symbol forest.
pub open spec fn spec_file_section(
    f: FileSymbols,
    collapsed: Seq<String>,
    m: Map<Seq<char>, EntryModel>,
) -> Seq<TreeRowModel> {
    seq![spec_file_row(f, collapsed, m)] + (if !spec_contains_str(collapsed, f.file_path@) {
        spec_flatten_forest(f.symbols@, 1, collapsed, m)
    } else {
        Seq::empty()
    })
}

/// The rows for the files taken in the order `ord` gives.
pub open spec fn spec_sections_in_order(
    files: Seq<FileSymbols>,
    ord: Seq<int>,
    collapsed: Seq<String>,
    m: Map<Seq<char>, EntryModel>,
) -> Seq<TreeRowModel>
    decreases ord.len(),
{
    if ord.len() == 0 {
        Seq::empty()
    } else if 0 <= ord[0] < files.len() {
        spec_file_section(files[ord[0]], collapsed, m) + spec_sections_in_order(
            files,
            ord.skip(1),
            collapsed,
            m,
        )
    } else {
        spec_sections_in_order(files, ord.skip(1), collapsed, m)
    }
}

/// The presentation order between two files: coverage classification first
/// (partially covered, all seen, fully covered, not covered), path order
/// within a class.
pub open spec fn spec_file_key_le(
    a: FileSymbols,
    b: FileSymbols,
    m: Map<Seq<char>, EntryModel>,
) -> bool {
    let ra = spec_file_status(a, m).spec_sort_rank();
    let rb = spec_file_status(b, m).spec_sort_rank();
    ra < rb || (ra == rb && spec_lex_le(a.file_path@, b.file_path@))
}

/// An ordering of the files fit for the coverage-sorted view: every index
/// once, sorted by classification then path.
pub open spec fn spec_coverage_order(
    files: Seq<FileSymbols>,
    m: Map<Seq<char>, EntryModel>,
    ord: Seq<int>,
) -> bool {
    &&& ord.len() == files.len()
    &&& forall|k: int| 0 <= k < ord.len() ==> 0 <= #[trigger] ord[k] < files.len()
    &&& forall|k1: int, k2: int| 0 <= k1 < k2 < ord.len() ==> ord[k1] != ord[k2]
    &&& forall|k1: int, k2: int|
        0 <= k1 <= k2 < ord.len() ==> spec_file_key_le(
            files[#[trigger] ord[k1]],
            files[#[trigger] ord[k2]],
            m,
        )
}

proof fn lemma_file_key_le_total(a: FileSymbols, b: FileSymbols, m: Map<Seq<char>, EntryModel>)
    ensures
        spec_file_key_le(a, b, m) || spec_file_key_le(b, a, m),
{
    crate::text::lemma_lex_le_total(a.file_path@, b.file_path@);
}

proof fn lemma_file_key_le_trans(
    a: FileSymbols,
    b: FileSymbols,
    c: FileSymbols,
    m: Map<Seq<char>, EntryModel>,
)
    requires
        spec_file_key_le(a, b, m),
        spec_file_key_le(b, c, m),
    ensures
        spec_file_key_le(a, c, m),
{
    let ra = spec_file_status(a, m).spec_sort_rank();
    let rb = spec_file_status(b, m).spec_sort_rank();
    let rc = spec_file_status(c, m).spec_sort_rank();
    if ra == rb && rb == rc {
        crate::text::lemma_lex_le_trans(a.file_path@, b.file_path@, c.file_path@);
    }
}

proof fn lemma_sections_take(
    files: Seq<FileSymbols>,
    ord: Seq<int>,
    k: int,
    collapsed: Seq<String>,
    m: Map<Seq<char>, EntryModel>,
)
    requires
        0 <= k < ord.len(),
        0 <= ord[k] < files.len(),
    ensures
        spec_sections_in_order(files, ord.take(k + 1), collapsed, m) == spec_sections_in_order(
            files,
            ord.take(k),
            collapsed,
            m,
        ) + spec_file_section(files[ord[k]], collapsed, m),
    decreases k,
{
    let t1 = ord.take(k + 1);
    let t0 = ord.take(k);
    let piece = spec_file_section(files[ord[k]], collapsed, m);
    if k == 0 {
        assert(t1 =~= seq![ord[0]]);
        assert(t0 =~= Seq::<int>::empty());
        assert(t1.skip(1) =~= Seq::<int>::empty());
        assert(t1[0] == ord[0]);
        assert(piece + Seq::<TreeRowModel>::empty() =~= piece);
        assert(Seq::<TreeRowModel>::empty() + piece =~= piece);
    } else {
        lemma_sections_take(files, ord.skip(1), k - 1, collapsed, m);
        assert(t1.skip(1) =~= ord.skip(1).take(k));
        assert(t0.skip(1) =~= ord.skip(1).take(k - 1));
        assert(t1[0] == ord[0]);
        assert(t0[0] == ord[0]);
        assert(ord.skip(1)[k - 1] == ord[k]);
        if 0 <= ord[0] < files.len() {
            let head = spec_file_section(files[ord[0]], collapsed, m);
            assert((head + spec_sections_in_order(files, ord.skip(1).take(k - 1), collapsed, m))
                + piece =~= head + (spec_sections_in_order(
                files,
                ord.skip(1).take(k - 1),
                collapsed,
                m,
            ) + piece));
        }
    }
}

/// Insert file index `idx` into the key-sorted index list.
#[verifier::loop_isolation(false)]
fn insert_sorted_index(
    order: &mut Vec<usize>,
    idx: usize,
    ranks: &Vec<u8>,
    tree: &ProjectTree,
    ledger: &ContextLedger,
)
    requires
        ledger.wf(),
        idx < tree.files@.len(),
        ranks@.len() == tree.files@.len(),
        forall|j: int|
            0 <= j < ranks@.len() ==> (#[trigger] ranks@[j]) as nat == spec_file_status(
                tree.files@[j],
                ledger@,
            ).spec_sort_rank(),
        forall|k: int| 0 <= k < old(order)@.len() ==> (#[trigger] old(order)@[k]) < idx,
        forall|k1: int, k2: int|
            0 <= k1 < k2 < old(order)@.len() ==> old(order)@[k1] != old(order)@[k2],
        forall|k1: int, k2: int|
            0 <= k1 <= k2 < old(order)@.len() ==> spec_file_key_le(
                tree.files@[#[trigger] old(order)@[k1] as int],
                tree.files@[#[trigger] old(order)@[k2] as int],
                ledger@,
            ),
    ensures
        final(order)@.len() == old(order)@.len() + 1,
        forall|k: int| 0 <= k < final(order)@.len() ==> (#[trigger] final(order)@[k]) <= idx,
        forall|k1: int, k2: int|
            0 <= k1 < k2 < final(order)@.len() ==> final(order)@[k1] != final(order)@[k2],
        forall|k1: int, k2: int|
            0 <= k1 <= k2 < final(order)@.len() ==> spec_file_key_le(
                tree.files@[#[trigger] final(order)@[k1] as int],
                tree.files@[#[trigger] final(order)@[k2] as int],
                ledger@,
            ),
        final(order)@.to_multiset() == old(order)@.to_multiset().insert(idx),
{
    let n = order.len();
    let mut pos: usize = 0;
    let mut found = false;
    while pos < n && !found
        invariant
            0 <= pos <= n,
            n == order@.len(),
            order@ == old(order)@,
            forall|k: int|
                0 <= k < pos ==> spec_file_key_le(
                    tree.files@[#[trigger] order@[k] as int],
                    tree.files@[idx as int],
                    ledger@,
                ),
            found ==> pos < n && !spec_file_key_le(
                tree.files@[order@[pos as int] as int],
                tree.files@[idx as int],
                ledger@,
            ),
        decreases n - pos + (if found {
            0int
        } else {
            1int
        }),
    {
        let j = order[pos];
        let le = ranks[j] < ranks[idx] || (ranks[j] == ranks[idx] && crate::text::str_le(
            tree.files[j].file_path.as_str(),
            tree.files[idx].file_path.as_str(),
        ));
        if le {
            pos = pos + 1;
        } else {
            found = true;
        }
    }
    proof {
        assert forall|k: int| pos <= k < n implies spec_file_key_le(
            tree.files@[idx as int],
            tree.files@[#[trigger] order@[k] as int],
            ledger@,
        ) by {
            lemma_file_key_le_total(
                tree.files@[order@[pos as int] as int],
                tree.files@[idx as int],
                ledger@,
            );
            lemma_file_key_le_trans(
                tree.files@[idx as int],
                tree.files@[order@[pos as int] as int],
                tree.files@[order@[k] as int],
                ledger@,
            );
        }
    }
    let ghost before = order@;
    order.insert(pos, idx);
    proof {
        broadcast use vstd::seq_lib::group_to_multiset_ensures;

        assert(order@.remove(pos as int) =~= before);
        assert(order@[pos as int] == idx);
        assert(order@.remove(pos as int).to_multiset() =~= order@.to_multiset().remove(idx));
        assert(order@.to_multiset().count(idx) > 0);
        assert(order@.to_multiset() =~= order@.to_multiset().remove(idx).insert(idx));
        assert(order@ =~= before.take(pos as int) + seq![idx] + before.skip(pos as int));
        assert forall|k1: int, k2: int| 0 <= k1 < k2 < order@.len() implies order@[k1]
            != order@[k2] by {
            if k1 < pos {
                assert(order@[k1] == before[k1]);
            } else if k1 > pos {
                assert(order@[k1] == before[k1 - 1]);
            }
            if k2 < pos {
                assert(order@[k2] == before[k2]);
            } else if k2 > pos {
                assert(order@[k2] == before[k2 - 1]);
            }
        }
        assert forall|k1: int, k2: int| 0 <= k1 <= k2 < order@.len() implies spec_file_key_le(
            tree.files@[#[trigger] order@[k1] as int],
            tree.files@[#[trigger] order@[k2] as int],
            ledger@,
        ) by {
            lemma_file_key_le_total(tree.files@[idx as int], tree.files@[idx as int], ledger@);
        }
    }
}

/// Build the flattened tree rows for display: one section per file — a
/// header row followed, when the file is expanded, by its symbol rows — with
/// files in their stored order for the alphabetical mode, and ordered by
/// coverage classification then path for the coverage mode.
#[verifier::loop_isolation(false)]
pub fn build_tree_rows(
    tree: &ProjectTree,
    ledger: &ContextLedger,
    collapsed: &Vec<String>,
    sort_mode: SortMode,
) -> (r: Vec<TreeRow>)
    requires
        ledger.wf(),
    ensures
        sort_mode == SortMode::Alphabetical ==> r@.map_values(|t: TreeRow| t@)
            == spec_sections_in_order(
            tree.files@,
            Seq::new(tree.files@.len(), |k: int| k),
            collapsed@,
            ledger@,
        ),
        sort_mode == SortMode::ByCoverage ==> exists|ord: Seq<int>|
            spec_coverage_order(tree.files@, ledger@, ord) && r@.map_values(|t: TreeRow| t@)
                == spec_sections_in_order(tree.files@, ord, collapsed@, ledger@),
{
    let n = tree.files.len();
    let mut order: Vec<usize> = Vec::new();
    if matches!(sort_mode, SortMode::Alphabetical) {
        let mut i: usize = 0;
        while i < n
            invariant
                0 <= i <= n,
                order@.len() == i,
                forall|k: int| 0 <= k < i ==> (#[trigger] order@[k]) == k,
            decreases n - i,
        {
            order.push(i);
            i = i + 1;
        }
    } else {
        // Classification ranks for every file, computed once.
        let mut ranks: Vec<u8> = Vec::new();
        let mut i: usize = 0;
        while i < n
            invariant
                0 <= i <= n,
                ranks@.len() == i,
                forall|j: int|
                    0 <= j < i ==> (#[trigger] ranks@[j]) as nat == spec_file_status(
                        tree.files@[j],
                        ledger@,
                    ).spec_sort_rank(),
            decreases n - i,
        {
            let (total, seen, full) = crate::coverage::count_symbols(&tree.files[i].symbols, ledger);
            let status = crate::coverage::coverage_status_from_counts(total, seen, full);
            ranks.push(status.sort_rank());
            i = i + 1;
        }
        let mut i: usize = 0;
        proof {
            broadcast use vstd::seq_lib::group_to_multiset_ensures;

            assert(Seq::<usize>::empty().to_multiset() =~= Multiset::<usize>::empty());
        }
        while i < n
            invariant
                0 <= i <= n,
                n == tree.files@.len(),
                ranks@.len() == n,
                forall|j: int|
                    0 <= j < n ==> (#[trigger] ranks@[j]) as nat == spec_file_status(
                        tree.files@[j],
                        ledger@,
                    ).spec_sort_rank(),
                order@.len() == i,
                forall|k: int| 0 <= k < order@.len() ==> (#[trigger] order@[k]) < i,
                forall|k1: int, k2: int|
                    0 <= k1 < k2 < order@.len() ==> order@[k1] != order@[k2],
                forall|k1: int, k2: int|
                    0 <= k1 <= k2 < order@.len() ==> spec_file_key_le(
                        tree.files@[#[trigger] order@[k1] as int],
                        tree.files@[#[trigger] order@[k2] as int],
                        ledger@,
                    ),
            decreases n - i,
        {
            insert_sorted_index(&mut order, i, &ranks, tree, ledger);
            i = i + 1;
        }
    }

    // Emit each file's section in the chosen order.
    let ghost ordv = order@.map_values(|u: usize| u as int);
    proof {
        assert(ordv.len() == order@.len());
    }
    let mut rows: Vec<TreeRow> = Vec::new();
    let mut k: usize = 0;
    proof {
        assert(rows@.map_values(|t: TreeRow| t@) =~= Seq::<TreeRowModel>::empty());
        assert(ordv.take(0) =~= Seq::<int>::empty());
    }
    while k < order.len()
        invariant
            0 <= k <= order@.len(),
            order@.len() <= tree.files@.len(),
            forall|j: int| 0 <= j < order@.len() ==> (#[trigger] order@[j]) < tree.files@.len(),
            ordv == order@.map_values(|u: usize| u as int),
            rows@.map_values(|t: TreeRow| t@) == spec_sections_in_order(
                tree.files@,
                ordv.take(k as int),
                collapsed@,
                ledger@,
            ),
        decreases order@.len() - k,
    {
        proof {
            assert(ordv[k as int] == order@[k as int] as int);
            lemma_sections_take(tree.files@, ordv, k as int, collapsed@, ledger@);
        }
        let idx = order[k];
        let file = &tree.files[idx];
        let (total, seen, full) = crate::coverage::count_symbols(&file.symbols, ledger);
        let status = crate::coverage::coverage_status_from_counts(total, seen, full);
        let is_expanded = !contains_str(collapsed, file.file_path.as_str());
        let file_read_depth = if !matches!(status, FileCoverageStatus::NotCovered) {
            ReadDepth::NameOnly
        } else {
            ReadDepth::Unseen
        };
        let mut lines_label: Vec<char> = Vec::new();
        let d_lines = crate::text::usize_to_chars(file.total_lines);
        crate::text::append_chars(&mut lines_label, &d_lines);
        crate::text::append_str(&mut lines_label, " lines");
        proof {
            assert(Seq::<char>::empty() + spec_digits(file.total_lines as nat) =~= spec_digits(
                file.total_lines as nat,
            ));
        }
        let row = TreeRow {
            symbol_id: file.file_path.clone(),
            display_name: file.file_path.clone(),
            label: String::new(),
            depth: 0,
            is_file: true,
            is_expanded,
            has_children: file.symbols.len() > 0,
            line_range: chars_to_string(&lines_label),
            token_count: 0,
            read_depth: file_read_depth,
            coverage_status: Some(status),
            file_coverage_seen: seen,
            file_coverage_total: total,
        };
        let ghost before = rows@.map_values(|t: TreeRow| t@);
        proof {
            assert(row@ == spec_file_row(tree.files@[idx as int], collapsed@, ledger@));
        }
        rows.push(row);
        proof {
            assert(rows@.map_values(|t: TreeRow| t@) =~= before.push(row@));
        }
        if is_expanded {
            let m = file.symbols.len();
            let mut j: usize = 0;
            proof {
                assert(file.symbols@.take(0) =~= Seq::<SymbolNode>::empty());
                assert(rows@.map_values(|t: TreeRow| t@) =~= before + seq![
                    spec_file_row(tree.files@[idx as int], collapsed@, ledger@),
                ] + spec_flatten_forest(file.symbols@.take(0), 1, collapsed@, ledger@));
            }
            while j < m
                invariant
                    0 <= j <= m,
                    m == file.symbols@.len(),
                    rows@.map_values(|t: TreeRow| t@) == before + seq![
                        spec_file_row(tree.files@[idx as int], collapsed@, ledger@),
                    ] + spec_flatten_forest(file.symbols@.take(j as int), 1, collapsed@, ledger@),
                decreases m - j,
            {
                proof {
                    lemma_flatten_forest_take(file.symbols@, j as int, 1, collapsed@, ledger@);
                }
                flatten_symbol(&file.symbols[j], 1, collapsed, ledger, &mut rows);
                proof {
                    assert(rows@.map_values(|t: TreeRow| t@) =~= before + seq![
                        spec_file_row(tree.files@[idx as int], collapsed@, ledger@),
                    ] + spec_flatten_forest(file.symbols@.take(j + 1), 1, collapsed@, ledger@));
                }
                j = j + 1;
            }
            proof {
                assert(file.symbols@.take(m as int) =~= file.symbols@);
                assert(before + seq![spec_file_row(tree.files@[idx as int], collapsed@, ledger@)]
                    + spec_flatten_forest(file.symbols@, 1, collapsed@, ledger@) =~= before
                    + spec_file_section(tree.files@[idx as int], collapsed@, ledger@));
            }
        } else {
            proof {
                assert(before + seq![spec_file_row(tree.files@[idx as int], collapsed@, ledger@)]
                    =~= before + spec_file_section(tree.files@[idx as int], collapsed@, ledger@));
            }
        }
        k = k + 1;
    }
    proof {
        assert(ordv.take(order@.len() as int) =~= ordv);
        if matches!(sort_mode, SortMode::Alphabetical) {
            assert(ordv =~= Seq::new(tree.files@.len(), |kk: int| kk));
        } else {
            assert(spec_coverage_order(tree.files@, ledger@, ordv));
        }
    }
    rows
}

} // verus!

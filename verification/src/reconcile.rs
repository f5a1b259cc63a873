//! Reconciliation: comparing an old symbol tree against a newly produced one
//! and pushing staleness into the context ledger.
//!
//! While the old tree is still held, its content hashes are collected by id;
//! the new tree is then walked, and every symbol whose id existed before but
//! whose content hash changed is marked stale. Ids new to the tree are left
//! untouched: no staleness claim can be made about something never observed.

use vstd::prelude::*;

use crate::symbols::{spec_forest_count, SymbolNode};
use crate::text::{bytes_eq, clone_bytes, str_eq};
use crate::tracking::{spec_mark_stale, ContextLedger, EntryModel, ReadDepth};

verus! {

/// A snapshot of symbol content hashes, keyed by symbol id.
#[derive(Debug)]
pub struct SymbolHashes {
    pairs: Vec<(String, Vec<u8>)>,
}

/// The snapshot as a map, later entries shadowing earlier ones (a well-formed
/// snapshot has no duplicate ids, so nothing is ever shadowed).
pub open spec fn spec_pairs_map(s: Seq<(String, Vec<u8>)>) -> Map<Seq<char>, Seq<u8>>
    decreases s.len(),
{
    if s.len() == 0 {
        Map::empty()
    } else {
        spec_pairs_map(s.drop_last()).insert(s.last().0@, s.last().1@)
    }
}

proof fn lemma_pairs_map_absent(s: Seq<(String, Vec<u8>)>, k: Seq<char>)
    requires
        forall|i: int| 0 <= i < s.len() ==> (#[trigger] s[i]).0@ != k,
    ensures
        !spec_pairs_map(s).contains_key(k),
    decreases s.len(),
{
    if s.len() > 0 {
        assert(s.last() == s[s.len() - 1]);
        assert(forall|i: int| 0 <= i < s.drop_last().len() ==> (#[trigger] s.drop_last()[i]).0@ != k);
        lemma_pairs_map_absent(s.drop_last(), k);
    }
}

proof fn lemma_pairs_map_index(s: Seq<(String, Vec<u8>)>, i: int)
    requires
        forall|a: int, b: int|
            0 <= a < b < s.len() ==> (#[trigger] s[a]).0@ != (#[trigger] s[b]).0@,
        0 <= i < s.len(),
    ensures
        spec_pairs_map(s).contains_key(s[i].0@),
        spec_pairs_map(s)[s[i].0@] == s[i].1@,
    decreases s.len(),
{
    let d = s.drop_last();
    if i == s.len() - 1 {
        assert(s.last() == s[i]);
    } else {
        assert(forall|a: int, b: int|
            0 <= a < b < d.len() ==> (#[trigger] d[a]).0@ != (#[trigger] d[b]).0@);
        lemma_pairs_map_index(d, i);
        assert(d[i] == s[i]);
        assert(s.last() == s[s.len() - 1]);
        assert(s[i].0@ != s[s.len() - 1].0@);
    }
}

proof fn lemma_pairs_map_update(s: Seq<(String, Vec<u8>)>, i: int, e: (String, Vec<u8>))
    requires
        forall|a: int, b: int|
            0 <= a < b < s.len() ==> (#[trigger] s[a]).0@ != (#[trigger] s[b]).0@,
        0 <= i < s.len(),
        e.0@ == s[i].0@,
    ensures
        spec_pairs_map(s.update(i, e)) =~= spec_pairs_map(s).insert(e.0@, e.1@),
    decreases s.len(),
{
    let d = s.drop_last();
    let s2 = s.update(i, e);
    if i == s.len() - 1 {
        assert(s2.drop_last() =~= d);
        assert(s2.last() == e);
        assert(s.last() == s[i]);
        assert(spec_pairs_map(d).insert(s[i].0@, s[i].1@).insert(e.0@, e.1@) =~= spec_pairs_map(
            d,
        ).insert(e.0@, e.1@));
    } else {
        assert(forall|a: int, b: int|
            0 <= a < b < d.len() ==> (#[trigger] d[a]).0@ != (#[trigger] d[b]).0@);
        lemma_pairs_map_update(d, i, e);
        assert(s2.drop_last() =~= d.update(i, e));
        assert(s2.last() == s.last());
        assert(s.last() == s[s.len() - 1]);
        assert(e.0@ != s[s.len() - 1].0@);
        assert(spec_pairs_map(s2) == spec_pairs_map(d.update(i, e)).insert(
            s.last().0@,
            s.last().1@,
        ));
        assert(spec_pairs_map(d).insert(e.0@, e.1@).insert(s.last().0@, s.last().1@)
            =~= spec_pairs_map(d).insert(s.last().0@, s.last().1@).insert(e.0@, e.1@));
    }
}

impl SymbolHashes {
    /// The snapshot as a map from symbol id to content hash.
    pub closed spec fn view(&self) -> Map<Seq<char>, Seq<u8>> {
        spec_pairs_map(self.pairs@)
    }

    /// No two entries share an id.
    pub closed spec fn wf(&self) -> bool {
        forall|a: int, b: int|
            0 <= a < b < self.pairs@.len() ==> (#[trigger] self.pairs@[a]).0@ != (
            #[trigger] self.pairs@[b]).0@
    }

    /// An empty snapshot.
    pub fn new() -> (r: Self)
        ensures
            r.wf(),
            r@ == Map::<Seq<char>, Seq<u8>>::empty(),
    {
        SymbolHashes { pairs: Vec::new() }
    }

    fn find_index(&self, id: &str) -> (r: Option<usize>)
        ensures
            match r {
                Some(i) => i < self.pairs@.len() && self.pairs@[i as int].0@ == id@,
                None => forall|j: int|
                    0 <= j < self.pairs@.len() ==> (#[trigger] self.pairs@[j]).0@ != id@,
            },
    {
        let mut i: usize = 0;
        while i < self.pairs.len()
            invariant
                0 <= i <= self.pairs@.len(),
                forall|j: int| 0 <= j < i ==> (#[trigger] self.pairs@[j]).0@ != id@,
            decreases self.pairs@.len() - i,
        {
            if str_eq(self.pairs[i].0.as_str(), id) {
                return Some(i);
            }
            i = i + 1;
        }
        None
    }

    /// Store `hash` under `id`, replacing any earlier hash for that id.
    pub fn insert(&mut self, id: String, hash: Vec<u8>)
        requires
            old(self).wf(),
        ensures
            final(self).wf(),
            final(self)@ == old(self)@.insert(id@, hash@),
    {
        match self.find_index(id.as_str()) {
            Some(i) => {
                let ghost pre = self.pairs@;
                let _old = self.pairs.remove(i);
                self.pairs.insert(i, (id, hash));
                proof {
                    assert(self.pairs@ =~= pre.update(i as int, self.pairs@[i as int]));
                    lemma_pairs_map_update(pre, i as int, self.pairs@[i as int]);
                }
            },
            None => {
                let ghost pre = self.pairs@;
                self.pairs.push((id, hash));
                proof {
                    assert(self.pairs@.drop_last() =~= pre);
                }
            },
        }
    }

    /// The hash stored for `id`, if any.
    pub fn get(&self, id: &str) -> (r: Option<&Vec<u8>>)
        requires
            self.wf(),
        ensures
            match r {
                Some(h) => self@.contains_key(id@) && h@ == self@[id@],
                None => !self@.contains_key(id@),
            },
    {
        match self.find_index(id) {
            Some(i) => {
                proof {
                    lemma_pairs_map_index(self.pairs@, i as int);
                }
                Some(&self.pairs[i].1)
            },
            None => {
                proof {
                    lemma_pairs_map_absent(self.pairs@, id@);
                }
                None
            },
        }
    }
}

/// The snapshot after collecting a forest: each node's content hash stored
/// under its id, in document order.
pub open spec fn spec_collect_hashes(
    nodes: Seq<SymbolNode>,
    h: Map<Seq<char>, Seq<u8>>,
) -> Map<Seq<char>, Seq<u8>>
    decreases nodes,
{
    if nodes.len() == 0 {
        h
    } else {
        let h1 = h.insert(nodes[0].id@, nodes[0].content_hash@);
        let h2 = spec_collect_hashes(nodes[0].children@, h1);
        spec_collect_hashes(nodes.skip(1), h2)
    }
}

proof fn lemma_collect_hashes_append(
    s1: Seq<SymbolNode>,
    s2: Seq<SymbolNode>,
    h: Map<Seq<char>, Seq<u8>>,
)
    ensures
        spec_collect_hashes(s1 + s2, h) == spec_collect_hashes(s2, spec_collect_hashes(s1, h)),
    decreases s1.len(),
{
    if s1.len() == 0 {
        assert(s1 + s2 =~= s2);
    } else {
        let all = s1 + s2;
        assert(all[0] == s1[0]);
        let h1 = h.insert(s1[0].id@, s1[0].content_hash@);
        let h2 = spec_collect_hashes(s1[0].children@, h1);
        assert(all.skip(1) =~= s1.skip(1) + s2);
        lemma_collect_hashes_append(s1.skip(1), s2, h2);
    }
}

proof fn lemma_collect_hashes_singleton(x: SymbolNode, h: Map<Seq<char>, Seq<u8>>)
    ensures
        spec_collect_hashes(seq![x], h) == spec_collect_hashes(
            x.children@,
            h.insert(x.id@, x.content_hash@),
        ),
{
    let s = seq![x];
    assert(s[0] == x);
    assert(s.skip(1) =~= Seq::<SymbolNode>::empty());
    let h2 = spec_collect_hashes(x.children@, h.insert(x.id@, x.content_hash@));
    assert(spec_collect_hashes(s.skip(1), h2) == h2);
}

/// Collect a mapping from symbol id to content hash across a whole forest.
#[verifier::loop_isolation(false)]
pub fn collect_symbol_hashes(symbols: &Vec<SymbolNode>, map: &mut SymbolHashes)
    requires
        old(map).wf(),
    ensures
        final(map).wf(),
        final(map)@ == spec_collect_hashes(symbols@, old(map)@),
    decreases spec_forest_count(symbols@),
{
    let n = symbols.len();
    let mut i: usize = 0;
    proof {
        assert(symbols@.take(0) =~= Seq::<SymbolNode>::empty());
    }
    while i < n
        invariant
            0 <= i <= n,
            map.wf(),
            map@ == spec_collect_hashes(symbols@.take(i as int), old(map)@),
        decreases n - i,
    {
        let sym = &symbols[i];
        proof {
            crate::symbols::lemma_subtree_count_element(symbols@, i as int);
            assert(symbols@.take(i + 1) =~= symbols@.take(i as int) + seq![symbols@[i as int]]);
            lemma_collect_hashes_append(
                symbols@.take(i as int),
                seq![symbols@[i as int]],
                old(map)@,
            );
            lemma_collect_hashes_singleton(symbols@[i as int], map@);
        }
        map.insert(sym.id.clone(), clone_bytes(&sym.content_hash));
        collect_symbol_hashes(&sym.children, map);
        i = i + 1;
    }
    proof {
        assert(symbols@.take(n as int) =~= symbols@);
    }
}

/// The ledger after walking a new forest against an old hash snapshot: every
/// node whose id was known before and whose hash differs is marked stale.
pub open spec fn spec_check_staleness(
    nodes: Seq<SymbolNode>,
    old_hashes: Map<Seq<char>, Seq<u8>>,
    m: Map<Seq<char>, EntryModel>,
) -> Map<Seq<char>, EntryModel>
    decreases nodes,
{
    if nodes.len() == 0 {
        m
    } else {
        let m1 = if old_hashes.contains_key(nodes[0].id@) && old_hashes[nodes[0].id@]
            != nodes[0].content_hash@ {
            spec_mark_stale(m, nodes[0].id@, nodes[0].content_hash@)
        } else {
            m
        };
        let m2 = spec_check_staleness(nodes[0].children@, old_hashes, m1);
        spec_check_staleness(nodes.skip(1), old_hashes, m2)
    }
}

proof fn lemma_check_staleness_append(
    s1: Seq<SymbolNode>,
    s2: Seq<SymbolNode>,
    h: Map<Seq<char>, Seq<u8>>,
    m: Map<Seq<char>, EntryModel>,
)
    ensures
        spec_check_staleness(s1 + s2, h, m) == spec_check_staleness(
            s2,
            h,
            spec_check_staleness(s1, h, m),
        ),
    decreases s1.len(),
{
    if s1.len() == 0 {
        assert(s1 + s2 =~= s2);
    } else {
        let all = s1 + s2;
        assert(all[0] == s1[0]);
        let m1 = if h.contains_key(s1[0].id@) && h[s1[0].id@] != s1[0].content_hash@ {
            spec_mark_stale(m, s1[0].id@, s1[0].content_hash@)
        } else {
            m
        };
        let m2 = spec_check_staleness(s1[0].children@, h, m1);
        assert(all.skip(1) =~= s1.skip(1) + s2);
        lemma_check_staleness_append(s1.skip(1), s2, h, m2);
    }
}

proof fn lemma_check_staleness_singleton(
    x: SymbolNode,
    h: Map<Seq<char>, Seq<u8>>,
    m: Map<Seq<char>, EntryModel>,
)
    ensures
        spec_check_staleness(seq![x], h, m) == spec_check_staleness(
            x.children@,
            h,
            ({
                if h.contains_key(x.id@) && h[x.id@] != x.content_hash@ {
                    spec_mark_stale(m, x.id@, x.content_hash@)
                } else {
                    m
                }
            }),
        ),
{
    let s = seq![x];
    assert(s[0] == x);
    assert(s.skip(1) =~= Seq::<SymbolNode>::empty());
    let m1 = if h.contains_key(x.id@) && h[x.id@] != x.content_hash@ {
        spec_mark_stale(m, x.id@, x.content_hash@)
    } else {
        m
    };
    let m2 = spec_check_staleness(x.children@, h, m1);
    assert(spec_check_staleness(s.skip(1), h, m2) == m2);
}

/// Walk a new forest against the old hash snapshot and mark every changed,
/// previously-observed symbol stale in the ledger.
#[verifier::loop_isolation(false)]
pub fn check_staleness(symbols: &Vec<SymbolNode>, old_map: &SymbolHashes, ledger: &mut ContextLedger)
    requires
        old_map.wf(),
        old(ledger).wf(),
    ensures
        final(ledger).wf(),
        final(ledger)@ == spec_check_staleness(symbols@, old_map@, old(ledger)@),
    decreases spec_forest_count(symbols@),
{
    let n = symbols.len();
    let mut i: usize = 0;
    proof {
        assert(symbols@.take(0) =~= Seq::<SymbolNode>::empty());
    }
    while i < n
        invariant
            0 <= i <= n,
            ledger.wf(),
            ledger@ == spec_check_staleness(symbols@.take(i as int), old_map@, old(ledger)@),
        decreases n - i,
    {
        let sym = &symbols[i];
        proof {
            crate::symbols::lemma_subtree_count_element(symbols@, i as int);
            assert(symbols@.take(i + 1) =~= symbols@.take(i as int) + seq![symbols@[i as int]]);
            lemma_check_staleness_append(
                symbols@.take(i as int),
                seq![symbols@[i as int]],
                old_map@,
                old(ledger)@,
            );
            lemma_check_staleness_singleton(symbols@[i as int], old_map@, ledger@);
        }
        match old_map.get(sym.id.as_str()) {
            Some(old_hash) => {
                if !bytes_eq(old_hash, &sym.content_hash) {
                    ledger.mark_stale_if_changed(sym.id.as_str(), &sym.content_hash);
                }
            },
            None => {},
        }
        check_staleness(&sym.children, old_map, ledger);
        i = i + 1;
    }
    proof {
        assert(symbols@.take(n as int) =~= symbols@);
    }
}

/// Compare old and new versions of a file's symbols and mark changed,
/// previously-observed symbols stale: collect the old tree's hashes by id,
/// then check the new tree against them.
pub fn mark_stale_symbols(
    old_symbols: &Vec<SymbolNode>,
    new_symbols: &Vec<SymbolNode>,
    ledger: &mut ContextLedger,
)
    requires
        old(ledger).wf(),
    ensures
        final(ledger).wf(),
        final(ledger)@ == spec_check_staleness(
            new_symbols@,
            spec_collect_hashes(old_symbols@, Map::empty()),
            old(ledger)@,
        ),
{
    let mut old_map = SymbolHashes::new();
    collect_symbol_hashes(old_symbols, &mut old_map);
    check_staleness(new_symbols, &old_map, ledger);
}

/// Whether some node in the forest carries this id.
pub open spec fn spec_forest_has_id(nodes: Seq<SymbolNode>, id: Seq<char>) -> bool
    decreases nodes,
{
    nodes.len() > 0 && {
        ||| nodes[0].id@ == id
        ||| spec_forest_has_id(nodes[0].children@, id)
        ||| spec_forest_has_id(nodes.skip(1), id)
    }
}

/// The hash every node with this id carries, when they all agree.
pub open spec fn spec_forest_id_hash_is(nodes: Seq<SymbolNode>, id: Seq<char>, h: Seq<u8>) -> bool
    decreases nodes,
{
    nodes.len() == 0 || {
        &&& (nodes[0].id@ == id ==> nodes[0].content_hash@ == h)
        &&& spec_forest_id_hash_is(nodes[0].children@, id, h)
        &&& spec_forest_id_hash_is(nodes.skip(1), id, h)
    }
}

/// Staleness checking never touches ids the walk does not visit with a
/// changed hash; in particular an id absent from the old snapshot keeps its
/// ledger state exactly — a brand-new symbol stays `Unseen`.
pub proof fn lemma_reconcile_new_id_untouched(
    nodes: Seq<SymbolNode>,
    h: Map<Seq<char>, Seq<u8>>,
    m: Map<Seq<char>, EntryModel>,
    id: Seq<char>,
)
    requires
        !h.contains_key(id),
    ensures
        crate::tracking::spec_depth_of(spec_check_staleness(nodes, h, m), id)
            == crate::tracking::spec_depth_of(m, id),
    decreases nodes,
{
    if nodes.len() > 0 {
        let m1 = if h.contains_key(nodes[0].id@) && h[nodes[0].id@] != nodes[0].content_hash@ {
            spec_mark_stale(m, nodes[0].id@, nodes[0].content_hash@)
        } else {
            m
        };
        assert(crate::tracking::spec_depth_of(m1, id) == crate::tracking::spec_depth_of(m, id));
        lemma_reconcile_new_id_untouched(nodes[0].children@, h, m1, id);
        let m2 = spec_check_staleness(nodes[0].children@, h, m1);
        lemma_reconcile_new_id_untouched(nodes.skip(1), h, m2, id);
    }
}

/// Once an id reads `Stale`, the rest of the staleness walk keeps it so.
proof fn lemma_check_staleness_keeps_stale(
    nodes: Seq<SymbolNode>,
    h: Map<Seq<char>, Seq<u8>>,
    m: Map<Seq<char>, EntryModel>,
    id: Seq<char>,
)
    requires
        crate::tracking::spec_depth_of(m, id) == ReadDepth::Stale,
    ensures
        crate::tracking::spec_depth_of(spec_check_staleness(nodes, h, m), id) == ReadDepth::Stale,
    decreases nodes,
{
    if nodes.len() > 0 {
        let m1 = if h.contains_key(nodes[0].id@) && h[nodes[0].id@] != nodes[0].content_hash@ {
            spec_mark_stale(m, nodes[0].id@, nodes[0].content_hash@)
        } else {
            m
        };
        assert(crate::tracking::spec_depth_of(m1, id) == ReadDepth::Stale);
        lemma_check_staleness_keeps_stale(nodes[0].children@, h, m1, id);
        let m2 = spec_check_staleness(nodes[0].children@, h, m1);
        lemma_check_staleness_keeps_stale(nodes.skip(1), h, m2, id);
    }
}

/// Reconciliation marks a changed symbol stale: when a symbol was observed
/// (its depth is past `Unseen`) with the hash the old snapshot holds for its
/// id, the new tree carries that id with a different hash everywhere it
/// appears, and the ledger's recorded hash is the old one, then after the
/// staleness walk the id reads `Stale`.
pub proof fn lemma_reconcile_marks_stale(
    nodes: Seq<SymbolNode>,
    h: Map<Seq<char>, Seq<u8>>,
    m: Map<Seq<char>, EntryModel>,
    id: Seq<char>,
    new_hash: Seq<u8>,
)
    requires
        spec_forest_has_id(nodes, id),
        spec_forest_id_hash_is(nodes, id, new_hash),
        h.contains_key(id),
        h[id] != new_hash,
        m.contains_key(id),
        m[id].depth != ReadDepth::Unseen,
        m[id].hash == h[id],
    ensures
        crate::tracking::spec_depth_of(spec_check_staleness(nodes, h, m), id) == ReadDepth::Stale,
    decreases nodes,
{
    let m1 = if h.contains_key(nodes[0].id@) && h[nodes[0].id@] != nodes[0].content_hash@ {
        spec_mark_stale(m, nodes[0].id@, nodes[0].content_hash@)
    } else {
        m
    };
    let m2 = spec_check_staleness(nodes[0].children@, h, m1);
    if nodes[0].id@ == id {
        // This node carries the id with the changed hash: the mark fires.
        assert(nodes[0].content_hash@ == new_hash);
        assert(crate::tracking::spec_depth_of(m1, id) == ReadDepth::Stale);
        lemma_check_staleness_keeps_stale(nodes[0].children@, h, m1, id);
        lemma_check_staleness_keeps_stale(nodes.skip(1), h, m2, id);
    } else {
        assert(crate::tracking::spec_depth_of(m1, id) == crate::tracking::spec_depth_of(m, id));
        assert(m1.contains_key(id) && m1[id] == m[id]);
        if spec_forest_has_id(nodes[0].children@, id) {
            lemma_reconcile_marks_stale(nodes[0].children@, h, m1, id, new_hash);
            lemma_check_staleness_keeps_stale(nodes.skip(1), h, m2, id);
        } else {
            lemma_reconcile_id_unvisited(nodes[0].children@, h, m1, id);
            assert(m2.contains_key(id) && m2[id] == m[id]);
            lemma_reconcile_marks_stale(nodes.skip(1), h, m2, id, new_hash);
        }
    }
}

/// A staleness walk over a forest that nowhere carries the id leaves that
/// id's entry untouched.
proof fn lemma_reconcile_id_unvisited(
    nodes: Seq<SymbolNode>,
    h: Map<Seq<char>, Seq<u8>>,
    m: Map<Seq<char>, EntryModel>,
    id: Seq<char>,
)
    requires
        !spec_forest_has_id(nodes, id),
    ensures
        ({
            let r = spec_check_staleness(nodes, h, m);
            &&& r.contains_key(id) == m.contains_key(id)
            &&& (m.contains_key(id) ==> r[id] == m[id])
        }),
    decreases nodes,
{
    if nodes.len() > 0 {
        let m1 = if h.contains_key(nodes[0].id@) && h[nodes[0].id@] != nodes[0].content_hash@ {
            spec_mark_stale(m, nodes[0].id@, nodes[0].content_hash@)
        } else {
            m
        };
        assert(m1.contains_key(id) == m.contains_key(id));
        assert(m.contains_key(id) ==> m1[id] == m[id]);
        lemma_reconcile_id_unvisited(nodes[0].children@, h, m1, id);
        let m2 = spec_check_staleness(nodes[0].children@, h, m1);
        lemma_reconcile_id_unvisited(nodes.skip(1), h, m2, id);
    }
}

} // verus!
